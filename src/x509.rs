//! Decoding one DER certificate into a record: the decoding itself is done
//! by x509-parser; what is read from it is assembled here.
use vstd::prelude::*;
use vstd::string::StringExecFns;
use vstd::utf8::{decode_utf8, valid_utf8};
use x509_parser::certificate::X509Certificate;
use x509_parser::prelude::FromDer;
use crate::framing::{
    base64_decoded, canonical_pem, certificate_tag, certificate_tag_exec, pem_blocks, pem_body, render_pem,
    text_from_bytes, without_newlines, all_ascii, lemma_ascii_valid_utf8,
};
use crate::roundtrip::plain_tag;
use crate::record::{opt_text, CertificateInfo, NameAttributes, ParsedCertificate};

verus! {

/// Whether x509-parser decodes `der` as an X.509 certificate.
pub uninterp spec fn x509_accepts(der: Seq<u8>) -> bool;

/// The text of x509-parser's error for `der`.
pub uninterp spec fn x509_error(der: Seq<u8>) -> Seq<char>;

/// The subject attributes x509-parser reads from `der`, in order.
pub uninterp spec fn x509_subject(der: Seq<u8>) -> Seq<(Option<Seq<u64>>, Option<Seq<char>>)>;

/// The issuer attributes x509-parser reads from `der`, in order.
pub uninterp spec fn x509_issuer(der: Seq<u8>) -> Seq<(Option<Seq<u64>>, Option<Seq<char>>)>;

/// Whether the subject and issuer names of `der` are structurally identical.
pub uninterp spec fn x509_names_equal(der: Seq<u8>) -> bool;

/// The serial number of `der` in hexadecimal.
pub uninterp spec fn x509_serial_hex(der: Seq<u8>) -> Seq<char>;

/// The start of the validity window of `der` in RFC 2822 form, if renderable.
pub uninterp spec fn x509_not_before(der: Seq<u8>) -> Option<Seq<char>>;

/// The end of the validity window of `der` in RFC 2822 form, if renderable.
pub uninterp spec fn x509_not_after(der: Seq<u8>) -> Option<Seq<char>>;

/// The CA flag of the basic-constraints extension of `der`: none when the
/// extension is absent or cannot be read.
pub uninterp spec fn x509_ca(der: Seq<u8>) -> Option<bool>;

/// One attribute of a distinguished name, as read from the certificate:
/// the arcs of its type identifier (none when an arc does not fit in 64
/// bits) and its value (none when it is not a text string).
pub struct RawAttribute {
    pub arcs: Option<Vec<u64>>,
    pub value: Option<String>,
}

pub open spec fn attr_view(a: RawAttribute) -> (Option<Seq<u64>>, Option<Seq<char>>) {
    (arcs_view(a.arcs), opt_text(a.value))
}

pub open spec fn raw_view(v: Seq<RawAttribute>) -> Seq<(Option<Seq<u64>>, Option<Seq<char>>)> {
    v.map_values(|a: RawAttribute| attr_view(a))
}

/// What is read from a certificate besides its names.
pub struct RawCertificate {
    pub names_equal: bool,
    pub serial: String,
    pub not_before: Option<String>,
    pub not_after: Option<String>,
    pub ca: Option<bool>,
}

pub open spec fn is_lower_hex(c: char) -> bool {
    ('0' <= c && c <= '9') || ('a' <= c && c <= 'f')
}

/// Relies on `X509Certificate::from_der`, and on the decoded certificate's
/// name equality, `serial.to_str_radix(16)` (lowercase digits),
/// `ASN1Time::to_rfc2822` and `basic_constraints`. The error is rendered
/// as its text.
#[verifier::external_body]
fn read_certificate(der: &Vec<u8>) -> (r: Result<RawCertificate, String>)
    ensures
        match r {
            Ok(c) => {
                &&& x509_accepts(der@)
                &&& c.names_equal == x509_names_equal(der@)
                &&& c.serial@ == x509_serial_hex(der@)
                &&& forall|i: int| 0 <= i < c.serial@.len() ==> is_lower_hex(#[trigger] c.serial@[i])
                &&& opt_text(c.not_before) == x509_not_before(der@)
                &&& opt_text(c.not_after) == x509_not_after(der@)
                &&& c.ca == x509_ca(der@)
            },
            Err(e) => !x509_accepts(der@) && e@ == x509_error(der@),
        },
{
    let (_, c) = X509Certificate::from_der(der).map_err(|e| e.to_string())?;
    let v = c.validity();
    Ok(RawCertificate {
        names_equal: c.subject() == c.issuer(),
        serial: c.serial.to_str_radix(16),
        not_before: v.not_before.to_rfc2822().ok(),
        not_after: v.not_after.to_rfc2822().ok(),
        ca: match c.basic_constraints() {
            Ok(Some(ext)) => Some(ext.value.ca),
            _ => None,
        },
    })
}

/// Relies on `X509Certificate::from_der` and `subject`: the subject name's
/// attributes, in order.
#[verifier::external_body]
fn read_subject(der: &Vec<u8>) -> (r: Vec<RawAttribute>)
    requires
        x509_accepts(der@),
    ensures
        raw_view(r@) == x509_subject(der@),
{
    X509Certificate::from_der(der).map(|(_, c)| c.subject().iter().flat_map(|rdn| rdn.iter()).map(|a| RawAttribute {
        arcs: a.attr_type().iter().map(|arcs| arcs.collect()),
        value: a.as_str().ok().map(|v| v.to_string()),
    }).collect()).unwrap_or_default()
}

/// Relies on `X509Certificate::from_der` and `issuer`: the issuer name's
/// attributes, in order.
#[verifier::external_body]
fn read_issuer(der: &Vec<u8>) -> (r: Vec<RawAttribute>)
    requires
        x509_accepts(der@),
    ensures
        raw_view(r@) == x509_issuer(der@),
{
    X509Certificate::from_der(der).map(|(_, c)| c.issuer().iter().flat_map(|rdn| rdn.iter()).map(|a| RawAttribute {
        arcs: a.attr_type().iter().map(|arcs| arcs.collect()),
        value: a.as_str().ok().map(|v| v.to_string()),
    }).collect()).unwrap_or_default()
}

/// The recognized attribute codes.
#[derive(PartialEq, Eq, Structural, Clone, Copy, Debug)]
pub enum AttrCode {
    Cn,
    C,
    L,
    St,
    O,
    Ou,
}

/// The code of an attribute type identifier: 2.5.4.3 is CN, 2.5.4.6 C,
/// 2.5.4.7 L, 2.5.4.8 ST, 2.5.4.10 O and 2.5.4.11 OU.
pub open spec fn code_of(arcs: Option<Seq<u64>>) -> Option<AttrCode> {
    match arcs {
        Some(a) => if a.len() == 4 && a[0] == 2 && a[1] == 5 && a[2] == 4 {
            if a[3] == 3 {
                Some(AttrCode::Cn)
            } else if a[3] == 6 {
                Some(AttrCode::C)
            } else if a[3] == 7 {
                Some(AttrCode::L)
            } else if a[3] == 8 {
                Some(AttrCode::St)
            } else if a[3] == 10 {
                Some(AttrCode::O)
            } else if a[3] == 11 {
                Some(AttrCode::Ou)
            } else {
                None
            }
        } else {
            None
        },
        None => None,
    }
}

pub open spec fn arcs_view(a: Option<Vec<u64>>) -> Option<Seq<u64>> {
    match a {
        Some(v) => Some(v@),
        None => None,
    }
}

/// The last readable value among the first `k` attributes whose type has `code`.
pub open spec fn last_value(raw: Seq<(Option<Seq<u64>>, Option<Seq<char>>)>, code: AttrCode, k: int) -> Option<Seq<char>>
    decreases k,
{
    if k <= 0 {
        None
    } else if code_of(raw[k - 1].0) == Some(code) && raw[k - 1].1 is Some {
        raw[k - 1].1
    } else {
        last_value(raw, code, k - 1)
    }
}

/// The value that `n` holds for `code`.
pub open spec fn slot(n: NameAttributes, code: AttrCode) -> Option<Seq<char>> {
    match code {
        AttrCode::Cn => opt_text(n.cn),
        AttrCode::C => opt_text(n.c),
        AttrCode::L => opt_text(n.l),
        AttrCode::St => opt_text(n.st),
        AttrCode::O => opt_text(n.o),
        AttrCode::Ou => opt_text(n.ou),
    }
}

/// `n` holds, for each code, the last readable value given for it in `raw`.
pub open spec fn extracted_from(n: NameAttributes, raw: Seq<(Option<Seq<u64>>, Option<Seq<char>>)>) -> bool {
    forall|code: AttrCode| #[trigger] slot(n, code) == last_value(raw, code, raw.len() as int)
}

/// The common name of `n`, "Unknown" when it has none.
pub open spec fn common_name_of(n: NameAttributes) -> Seq<char> {
    match n.cn {
        Some(s) => s@,
        None => "Unknown"@,
    }
}

fn arcs_code(arcs: &Option<Vec<u64>>) -> (r: Option<AttrCode>)
    ensures
        r == code_of(arcs_view(*arcs)),
{
    match arcs {
        Some(a) => {
            if a.len() == 4 && a[0] == 2 && a[1] == 5 && a[2] == 4 {
                let last = a[3];
                if last == 3 {
                    Some(AttrCode::Cn)
                } else if last == 6 {
                    Some(AttrCode::C)
                } else if last == 7 {
                    Some(AttrCode::L)
                } else if last == 8 {
                    Some(AttrCode::St)
                } else if last == 10 {
                    Some(AttrCode::O)
                } else if last == 11 {
                    Some(AttrCode::Ou)
                } else {
                    None
                }
            } else {
                None
            }
        },
        None => None,
    }
}

/// Maps each attribute to its recognized code; attributes with another
/// type, and values that are not text, are passed over. A later value for a
/// code replaces an earlier one.
pub fn extract_name_attributes(raw: &Vec<RawAttribute>) -> (r: NameAttributes)
    ensures
        extracted_from(r, raw_view(raw@)),
{
    let mut n = NameAttributes { cn: None, c: None, l: None, st: None, o: None, ou: None };
    let mut i: usize = 0;
    while i < raw.len()
        invariant
            i <= raw@.len(),
            forall|code: AttrCode| #[trigger] slot(n, code) == last_value(raw_view(raw@), code, i as int),
        decreases raw@.len() - i,
    {
        let a = &raw[i];
        let ghost before = n;
        assert(raw_view(raw@)[i as int] == attr_view(raw@[i as int]));
        match (arcs_code(&a.arcs), &a.value) {
            (Some(code), Some(v)) => {
                let v2 = v.clone();
                match code {
                    AttrCode::Cn => n.cn = Some(v2),
                    AttrCode::C => n.c = Some(v2),
                    AttrCode::L => n.l = Some(v2),
                    AttrCode::St => n.st = Some(v2),
                    AttrCode::O => n.o = Some(v2),
                    AttrCode::Ou => n.ou = Some(v2),
                }
                assert forall|c: AttrCode| #[trigger] slot(n, c) == last_value(raw_view(raw@), c, i + 1) by {
                    if c != code {
                        assert(slot(n, c) == slot(before, c));
                    }
                }
            },
            _ => {
                assert forall|c: AttrCode| #[trigger] slot(n, c) == last_value(raw_view(raw@), c, i + 1) by {
                    assert(slot(n, c) == slot(before, c));
                }
            },
        }
        i = i + 1;
    }
    n
}

/// The common name held by `n`, or "Unknown".
pub fn common_name(n: &NameAttributes) -> (r: String)
    ensures
        r@ == common_name_of(*n),
{
    match &n.cn {
        Some(s) => s.clone(),
        None => String::from_str("Unknown"),
    }
}

/// A rendered time, or the placeholder for one that could not be rendered.
pub open spec fn date_text(t: Option<Seq<char>>) -> Seq<char> {
    match t {
        Some(s) => s,
        None => "Invalid date"@,
    }
}

fn date_or_placeholder(t: Option<String>) -> (r: String)
    ensures
        r@ == date_text(opt_text(t)),
{
    match t {
        Some(s) => s,
        None => String::from_str("Invalid date"),
    }
}

/// Assembles a record from what was read from a certificate: the subject
/// and issuer attributes, whether the two names are identical, the serial
/// number, the rendered validity times, the CA flag of the basic constraints
/// (none when absent or unreadable) and the PEM text.
pub fn assemble_record(
    subject_raw: &Vec<RawAttribute>,
    issuer_raw: &Vec<RawAttribute>,
    identical: bool,
    serial: String,
    not_before: Option<String>,
    not_after: Option<String>,
    ca: Option<bool>,
    pem: String,
) -> (r: ParsedCertificate)
    ensures
        extracted_from(r.info.subject, raw_view(subject_raw@)),
        extracted_from(r.info.issuer, raw_view(issuer_raw@)),
        r.info.subject_common_name@ == common_name_of(r.info.subject),
        r.info.issuer_common_name@ == common_name_of(r.info.issuer),
        r.info.serial_number == serial,
        r.info.valid_from@ == date_text(opt_text(not_before)),
        r.info.valid_to@ == date_text(opt_text(not_after)),
        r.info.is_ca == (ca == Some(true)),
        r.info.is_self_signed == identical,
        r.pem == pem,
{
    let subject = extract_name_attributes(subject_raw);
    let issuer = extract_name_attributes(issuer_raw);
    let subject_common_name = common_name(&subject);
    let issuer_common_name = common_name(&issuer);
    let is_ca = match ca {
        Some(b) => b,
        None => false,
    };
    let info = CertificateInfo {
        subject,
        issuer,
        serial_number: serial,
        valid_from: date_or_placeholder(not_before),
        valid_to: date_or_placeholder(not_after),
        subject_common_name,
        issuer_common_name,
        is_ca,
        is_self_signed: identical,
    };
    ParsedCertificate { info, pem }
}

pub proof fn lemma_certificate_tag_plain()
    ensures
        plain_tag(certificate_tag()),
        forall|i: int| 0 <= i < certificate_tag().len() ==> 65 <= #[trigger] certificate_tag()[i] <= 90,
{
    let t = certificate_tag();
    assert forall|i: int| 0 <= i < t.len() implies 65 <= #[trigger] t[i] <= 90 by {
        assert(t[0] == 67 && t[1] == 69 && t[2] == 82 && t[3] == 84 && t[4] == 73 && t[5] == 70);
        assert(t[6] == 73 && t[7] == 67 && t[8] == 65 && t[9] == 84 && t[10] == 69);
    }
}

/// The text of a failed decode.
pub open spec fn decode_failure(detail: Seq<char>) -> Seq<char> {
    "Failed to parse DER certificate: "@ + detail
}

/// `info` is the record built from the certificate `der`: its recognized
/// name attributes, common names ("Unknown" when absent), hexadecimal
/// serial in lowercase digits, rendered validity times ("Invalid date" when not renderable),
/// CA flag (false when the extension is absent or unreadable) and whether
/// its names are structurally identical.
pub open spec fn built_from(info: CertificateInfo, der: Seq<u8>) -> bool {
    &&& extracted_from(info.subject, x509_subject(der))
    &&& extracted_from(info.issuer, x509_issuer(der))
    &&& info.subject_common_name@ == common_name_of(info.subject)
    &&& info.issuer_common_name@ == common_name_of(info.issuer)
    &&& info.serial_number@ == x509_serial_hex(der)
    &&& forall|i: int| 0 <= i < info.serial_number@.len() ==> is_lower_hex(#[trigger] info.serial_number@[i])
    &&& info.valid_from@ == date_text(x509_not_before(der))
    &&& info.valid_to@ == date_text(x509_not_after(der))
    &&& info.is_ca == (x509_ca(der) == Some(true))
    &&& info.is_self_signed == x509_names_equal(der)
}

/// Decodes one DER certificate into the record built from it, with the
/// canonical rendering of `der` as its PEM text. Fails exactly when the
/// decoder refuses the bytes, passing the decoder's error text on.
pub fn parse_certificate_from_der(der: &Vec<u8>) -> (r: Result<ParsedCertificate, String>)
    ensures
        r is Ok <==> x509_accepts(der@),
        match r {
            Ok(c) => {
                &&& built_from(c.info, der@)
                &&& valid_utf8(canonical_pem(certificate_tag(), der@))
                &&& c.pem@ == decode_utf8(canonical_pem(certificate_tag(), der@))
                &&& base64_decoded(without_newlines(pem_body(certificate_tag(), canonical_pem(certificate_tag(), der@)))) == Some(der@)
                &&& pem_blocks(canonical_pem(certificate_tag(), der@)) == seq![(certificate_tag(), der@)]
            },
            Err(e) => e@ == decode_failure(x509_error(der@)),
        },
{
    match read_certificate(der) {
        Ok(cert) => {
            let subject_raw = read_subject(der);
            let issuer_raw = read_issuer(der);
            let tag = certificate_tag_exec();
            proof {
                lemma_certificate_tag_plain();
                assert(all_ascii(certificate_tag())) by {
                    let t = certificate_tag();
                    assert forall|i: int| 0 <= i < t.len() implies #[trigger] t[i] < 128 by {
                        assert(65 <= t[i] <= 90);
                    }
                }
                lemma_ascii_valid_utf8(certificate_tag());
            }
            let pem_bytes = render_pem(&tag, der);
            let pem = text_from_bytes(&pem_bytes);
            Ok(assemble_record(
                &subject_raw,
                &issuer_raw,
                cert.names_equal,
                cert.serial,
                cert.not_before,
                cert.not_after,
                cert.ca,
                pem,
            ))
        },
        Err(detail) => {
            let e = String::from_str("Failed to parse DER certificate: ").concat(detail.as_str());
            proof {
                reveal_strlit("Failed to parse DER certificate: ");
            }
            Err(e)
        },
    }
}

} // verus!
