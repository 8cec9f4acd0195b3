//! Choosing the PEM, DER or PKCS#12 path for an input, and the outcome of each.
use vstd::prelude::*;
use vstd::slice::slice_to_vec;
use vstd::string::{StringExecFns, StringSliceAdditionalSpecFns};
use vstd::utf8::{decode_utf8, valid_utf8};
use crate::framing::{
    base64_decoded, canonical_pem, certificate_tag, certificate_tag_exec, pem_blocks, pem_body,
    render_pem, split_pem, text_from_bytes, utf8_lossy, without_newlines,
};
use crate::record::{opt_text, ParseResult, ParsedCertificate, PrivateKey};
use crate::text::{contains_bytes, contains_exec};
use crate::x509::{built_from, decode_failure, parse_certificate_from_der, x509_accepts, x509_error};

verus! {

/// Whether p12 reads `data` as a PKCS#12 container.
pub uninterp spec fn pfx_accepts(data: Seq<u8>) -> bool;

/// Relies on `std::str::from_utf8`: it succeeds exactly on valid UTF-8.
#[verifier::external_body]
fn is_utf8(data: &[u8]) -> (r: bool)
    ensures
        r == valid_utf8(data@),
{
    std::str::from_utf8(data).is_ok()
}

/// The big-endian value of the `n` bytes of `d` from `start`.
pub open spec fn be_value(d: Seq<u8>, start: int, n: int) -> int
    decreases n,
{
    if n <= 0 {
        0
    } else {
        be_value(d, start, n - 1) * 256 + d[start + n - 1]
    }
}

/// Where the contents of the element whose one-byte tag is at `pos` begin:
/// after its length, written in short form or as `0x80 + n` followed by
/// `n` bytes. None when the bytes run out.
pub open spec fn contents_start(d: Seq<u8>, pos: int) -> Option<int> {
    if pos < 0 || pos + 1 >= d.len() {
        None
    } else if d[pos + 1] < 128 {
        Some(pos + 2)
    } else if pos + 2 + (d[pos + 1] - 128) > d.len() {
        None
    } else {
        Some(pos + 2 + (d[pos + 1] - 128))
    }
}

/// Where the element whose one-byte tag is at `pos` ends.
pub open spec fn element_end(d: Seq<u8>, pos: int) -> Option<int> {
    match contents_start(d, pos) {
        None => None,
        Some(c) => if d[pos + 1] < 128 {
            Some(c + d[pos + 1])
        } else {
            Some(c + be_value(d, pos + 2, d[pos + 1] - 128))
        },
    }
}

/// The DER encoding of the data content type, 1.2.840.113549.1.7.1.
pub open spec fn data_oid() -> Seq<u8> {
    seq![6u8, 9, 42, 134, 72, 134, 247, 13, 1, 7, 1]
}

/// Where the content type of a container's authenticated safe stands, read
/// as yasna reads headers: the outer sequence's header, then the version
/// element, then the content-info sequence's header.
pub open spec fn auth_safe_type_at(d: Seq<u8>) -> Option<int> {
    match contents_start(d, 0) {
        None => None,
        Some(p1) => match element_end(d, p1) {
            None => None,
            Some(p2) => contents_start(d, p2),
        },
    }
}

/// The container's authenticated safe is of the data content type. Only
/// such containers are handed to p12: any other layout is not read.
pub open spec fn auth_safe_is_data(d: Seq<u8>) -> bool {
    match auth_safe_type_at(d) {
        None => false,
        Some(p3) => p3 + 11 <= d.len() && d.subrange(p3, p3 + 11) == data_oid(),
    }
}

proof fn lemma_be_value_grows(d: Seq<u8>, start: int, k: int, m: int)
    requires
        0 <= k <= m,
    ensures
        0 <= be_value(d, start, k) <= be_value(d, start, m),
    decreases m,
{
    if m > k {
        lemma_be_value_grows(d, start, k, m - 1);
    } else if k > 0 {
        lemma_be_value_grows(d, start, 0, k - 1);
    }
}

fn contents_start_exec(d: &[u8], pos: usize) -> (r: Option<usize>)
    ensures
        match r {
            Some(c) => contents_start(d@, pos as int) == Some(c as int) && c <= d@.len(),
            None => contents_start(d@, pos as int) is None,
        },
{
    let n = d.len();
    if pos >= n || pos + 1 >= n {
        return None;
    }
    let b = d[pos + 1];
    if b < 128 {
        Some(pos + 2)
    } else {
        let k = (b - 128) as usize;
        if k > n - pos - 2 {
            None
        } else {
            Some(pos + 2 + k)
        }
    }
}

/// The end of the element at `pos`, when it lies within `d`.
fn element_end_exec(d: &[u8], pos: usize) -> (r: Option<usize>)
    ensures
        match r {
            Some(e) => element_end(d@, pos as int) == Some(e as int),
            None => element_end(d@, pos as int) is None || element_end(d@, pos as int).unwrap() > d@.len(),
        },
{
    let n = d.len();
    match contents_start_exec(d, pos) {
        None => None,
        Some(c) => {
            let b = d[pos + 1];
            if b < 128 {
                if b as usize > n - c {
                    return None;
                }
                Some(c + b as usize)
            } else {
                let k = (b - 128) as usize;
                let mut v: usize = 0;
                let mut i: usize = 0;
                while i < k
                    invariant
                        i <= k,
                        k == d@[pos + 1] - 128,
                        c == pos + 2 + k,
                        c <= n,
                        n == d@.len(),
                        v as int == be_value(d@, pos + 2, i as int),
                        v <= n,
                    decreases k - i,
                {
                    let next = v as u128 * 256 + d[pos + 2 + i] as u128;
                    if next > n as u128 {
                        proof {
                            lemma_be_value_grows(d@, pos + 2, i + 1, k as int);
                        }
                        return None;
                    }
                    v = next as usize;
                    i = i + 1;
                }
                if v > n - c {
                    return None;
                }
                Some(c + v)
            }
        },
    }
}

/// Whether the container's authenticated safe is of the data content type.
fn auth_safe_is_data_exec(d: &[u8]) -> (r: bool)
    ensures
        r == auth_safe_is_data(d@),
{
    let n = d.len();
    let p1 = match contents_start_exec(d, 0) {
        None => return false,
        Some(p) => p,
    };
    let p2 = match element_end_exec(d, p1) {
        None => {
            proof {
                if element_end(d@, p1 as int) is Some {
                    let p2 = element_end(d@, p1 as int).unwrap();
                    assert(contents_start(d@, p2) is None);
                }
            }
            return false;
        },
        Some(p) => p,
    };
    let p3 = match contents_start_exec(d, p2) {
        None => return false,
        Some(p) => p,
    };
    assert(auth_safe_type_at(d@) == Some(p3 as int));
    if p3 > n || n - p3 < 11 {
        return false;
    }
    let oid: [u8; 11] = [6u8, 9, 42, 134, 72, 134, 247, 13, 1, 7, 1];
    assert(oid@ == data_oid());
    let mut k: usize = 0;
    while k < 11
        invariant
            k <= 11,
            p3 + 11 <= n,
            n == d@.len(),
            oid@ == data_oid(),
            auth_safe_type_at(d@) == Some(p3 as int),
            d@.subrange(p3 as int, p3 + k) == data_oid().subrange(0, k as int),
        decreases 11 - k,
    {
        if d[p3 + k] != oid[k] {
            assert(oid@[k as int] == data_oid()[k as int]);
            assert(d@.subrange(p3 as int, p3 + 11)[k as int] != data_oid()[k as int]);
            assert(d@.subrange(p3 as int, p3 + 11) != data_oid());
            assert(!auth_safe_is_data(d@));
            return false;
        }
        k = k + 1;
        assert(d@.subrange(p3 as int, p3 + k) == data_oid().subrange(0, k as int));
    }
    assert(data_oid().subrange(0, 11) == data_oid());
    true
}

/// Relies on `p12::PFX::parse`: whether the container structure is read.
/// Its checks on an authenticated safe of the encryptedData type are debug
/// assertions, which can panic; p12 reaches them only when that type stands
/// where `auth_safe_type_at` reads, so inputs with the data type there are
/// the only ones admitted.
#[verifier::external_body]
fn pfx_structure_ok(data: &[u8]) -> (r: bool)
    requires
        auth_safe_is_data(data@),
    ensures
        r == pfx_accepts(data@),
{
    p12::PFX::parse(data).is_ok()
}

/// `PRIVATE KEY`
pub open spec fn private_key_words() -> Seq<u8> {
    seq![80u8, 82, 73, 86, 65, 84, 69, 32, 75, 69, 89]
}

/// `ENCRYPTED`
pub open spec fn encrypted_word() -> Seq<u8> {
    seq![69u8, 78, 67, 82, 89, 80, 84, 69, 68]
}

fn private_key_words_exec() -> (r: Vec<u8>)
    ensures
        r@ == private_key_words(),
{
    let r: Vec<u8> = vec![80u8, 82, 73, 86, 65, 84, 69, 32, 75, 69, 89];
    assert(r@ == private_key_words());
    r
}

fn encrypted_word_exec() -> (r: Vec<u8>)
    ensures
        r@ == encrypted_word(),
{
    let r: Vec<u8> = vec![69u8, 78, 67, 82, 89, 80, 84, 69, 68];
    assert(r@ == encrypted_word());
    r
}

/// The payloads, among the first `k` blocks, of the CERTIFICATE blocks that
/// decode as certificates.
pub open spec fn cert_ders(blocks: Seq<(Seq<u8>, Seq<u8>)>, k: int) -> Seq<Seq<u8>>
    decreases k,
{
    if k <= 0 {
        seq![]
    } else if blocks[k - 1].0 == certificate_tag() && x509_accepts(blocks[k - 1].1) {
        cert_ders(blocks, k - 1).push(blocks[k - 1].1)
    } else {
        cert_ders(blocks, k - 1)
    }
}

/// The blocks, among the first `k`, that hold a private key.
pub open spec fn key_blocks(blocks: Seq<(Seq<u8>, Seq<u8>)>, k: int) -> Seq<(Seq<u8>, Seq<u8>)>
    decreases k,
{
    if k <= 0 {
        seq![]
    } else if blocks[k - 1].0 != certificate_tag() && contains_bytes(blocks[k - 1].0, private_key_words()) {
        key_blocks(blocks, k - 1).push(blocks[k - 1])
    } else {
        key_blocks(blocks, k - 1)
    }
}

/// `r` holds the certificates `ders`, in order, each as the record built
/// from it with its canonical PEM text.
pub open spec fn holds_certificates(r: ParseResult, ders: Seq<Seq<u8>>) -> bool {
    &&& r.certificates@.len() == ders.len()
    &&& forall|k: int| 0 <= k < ders.len() ==> {
        &&& (#[trigger] r.certificates@[k]).pem@ == decode_utf8(canonical_pem(certificate_tag(), ders[k]))
        &&& valid_utf8(canonical_pem(certificate_tag(), ders[k]))
        &&& built_from(r.certificates@[k].info, ders[k])
    }
}

/// `r` holds the keys of `keys`, in order, each as canonical PEM text under
/// its own tag.
pub open spec fn holds_keys(r: ParseResult, keys: Seq<(Seq<u8>, Seq<u8>)>) -> bool {
    &&& r.private_keys@.len() == keys.len()
    &&& forall|k: int| 0 <= k < keys.len() ==> {
        &&& (#[trigger] r.private_keys@[k]).pem@ == utf8_lossy(canonical_pem(keys[k].0, keys[k].1))
        &&& valid_utf8(keys[k].0) ==> r.private_keys@[k].pem@ == decode_utf8(canonical_pem(keys[k].0, keys[k].1))
        &&& r.private_keys@[k].encrypted == contains_bytes(keys[k].0, encrypted_word())
    }
}

/// The outcome of reading `data` as PEM text.
pub open spec fn pem_outcome(data: Seq<u8>, r: ParseResult) -> bool {
    if !valid_utf8(data) {
        &&& r.certificates@.len() == 0
        &&& r.private_keys@.len() == 0
        &&& !r.needs_password
        &&& opt_text(r.error) == Some("Invalid UTF-8 in PEM data"@)
    } else {
        let blocks = pem_blocks(data);
        &&& holds_certificates(r, cert_ders(blocks, blocks.len() as int))
        &&& holds_keys(r, key_blocks(blocks, blocks.len() as int))
        &&& !r.needs_password
        &&& r.error is None
    }
}

/// The outcome of reading `data` as one DER certificate.
pub open spec fn der_outcome(data: Seq<u8>, r: ParseResult) -> bool {
    &&& r.private_keys@.len() == 0
    &&& !r.needs_password
    &&& if x509_accepts(data) {
        &&& holds_certificates(r, seq![data])
        &&& base64_decoded(without_newlines(pem_body(certificate_tag(), canonical_pem(certificate_tag(), data))))
            == Some(data)
        &&& pem_blocks(canonical_pem(certificate_tag(), data)) == seq![(certificate_tag(), data)]
        &&& r.error is None
    } else {
        &&& r.certificates@.len() == 0
        &&& opt_text(r.error) == Some(decode_failure(x509_error(data)))
    }
}

/// Whether `data` is taken for a PKCS#12 container: its authenticated safe
/// holds plain data, and p12 reads its structure.
pub open spec fn pkcs12_recognized(data: Seq<u8>) -> bool {
    auth_safe_is_data(data) && pfx_accepts(data)
}

/// The outcome of reading `data` as a PKCS#12 container, which is only
/// recognized: its contents are never decrypted.
pub open spec fn pkcs12_outcome(data: Seq<u8>, r: ParseResult) -> bool {
    &&& r.certificates@.len() == 0
    &&& r.private_keys@.len() == 0
    &&& r.needs_password == pkcs12_recognized(data)
    &&& opt_text(r.error) == Some(
        if pkcs12_recognized(data) {
            "PKCS#12 parsing not fully implemented yet"@
        } else {
            "Failed to parse PKCS#12 file"@
        },
    )
}

fn same_tag(a: &Vec<u8>, b: &Vec<u8>) -> (r: bool)
    ensures
        r == (a@ == b@),
{
    if a.len() != b.len() {
        return false;
    }
    let mut k: usize = 0;
    while k < a.len()
        invariant
            k <= a@.len() == b@.len(),
            a@.subrange(0, k as int) == b@.subrange(0, k as int),
        decreases a@.len() - k,
    {
        if a[k] != b[k] {
            return false;
        }
        k = k + 1;
        assert(a@.subrange(0, k as int) == b@.subrange(0, k as int));
    }
    assert(a@.subrange(0, k as int) == a@);
    assert(b@.subrange(0, k as int) == b@);
    true
}

/// Reads PEM text: each CERTIFICATE block that decodes becomes a record,
/// each block whose tag holds "PRIVATE KEY" becomes a key, and other blocks
/// are passed over. Bytes that are not UTF-8 give an error and nothing else.
pub fn parse_pem(data: &[u8]) -> (r: ParseResult)
    ensures
        pem_outcome(data@, r),
{
    if !is_utf8(data) {
        let e = String::from_str("Invalid UTF-8 in PEM data");
        proof {
            reveal_strlit("Invalid UTF-8 in PEM data");
        }
        return ParseResult { certificates: Vec::new(), private_keys: Vec::new(), needs_password: false, error: Some(e) };
    }
    let text = slice_to_vec(data);
    let blocks = split_pem(&text);
    let ghost bl = pem_blocks(data@);
    let cert_tag = certificate_tag_exec();
    let key_words = private_key_words_exec();
    let enc_word = encrypted_word_exec();
    let mut certificates: Vec<ParsedCertificate> = Vec::new();
    let mut private_keys: Vec<PrivateKey> = Vec::new();
    let mut i: usize = 0;
    while i < blocks.len()
        invariant
            i <= blocks@.len() == bl.len(),
            forall|k: int| 0 <= k < blocks@.len() ==> (#[trigger] blocks@[k])@ == bl[k],
            cert_tag@ == certificate_tag(),
            key_words@ == private_key_words(),
            enc_word@ == encrypted_word(),
            certificates@.len() == cert_ders(bl, i as int).len(),
            forall|k: int| 0 <= k < certificates@.len() ==> {
                &&& (#[trigger] certificates@[k]).pem@ == decode_utf8(canonical_pem(certificate_tag(), cert_ders(bl, i as int)[k]))
                &&& valid_utf8(canonical_pem(certificate_tag(), cert_ders(bl, i as int)[k]))
                &&& built_from(certificates@[k].info, cert_ders(bl, i as int)[k])
            },
            private_keys@.len() == key_blocks(bl, i as int).len(),
            forall|k: int| 0 <= k < private_keys@.len() ==> {
                &&& (#[trigger] private_keys@[k]).pem@ == utf8_lossy(canonical_pem(key_blocks(bl, i as int)[k].0, key_blocks(bl, i as int)[k].1))
                &&& valid_utf8(key_blocks(bl, i as int)[k].0) ==> private_keys@[k].pem@ == decode_utf8(canonical_pem(key_blocks(bl, i as int)[k].0, key_blocks(bl, i as int)[k].1))
                &&& private_keys@[k].encrypted == contains_bytes(key_blocks(bl, i as int)[k].0, encrypted_word())
            },
        decreases blocks@.len() - i,
    {
        let blk = &blocks[i];
        assert(blk@ == bl[i as int]);
        if same_tag(&blk.tag, &cert_tag) {
            match parse_certificate_from_der(&blk.der) {
                Ok(c) => {
                    certificates.push(c);
                },
                Err(_) => {},
            }
        } else if contains_exec(&blk.tag, &key_words) {
            let pem_bytes = render_pem(&blk.tag, &blk.der);
            let pem = text_from_bytes(&pem_bytes);
            let encrypted = contains_exec(&blk.tag, &enc_word);
            private_keys.push(PrivateKey { pem, encrypted });
        }
        i = i + 1;
    }
    ParseResult { certificates, private_keys, needs_password: false, error: None }
}

/// Reads `data` as exactly one DER certificate; a decode failure is the
/// outcome's error.
pub fn parse_der(data: &[u8]) -> (r: ParseResult)
    ensures
        der_outcome(data@, r),
{
    let der = slice_to_vec(data);
    match parse_certificate_from_der(&der) {
        Ok(c) => {
            let mut certificates: Vec<ParsedCertificate> = Vec::new();
            certificates.push(c);
            ParseResult { certificates, private_keys: Vec::new(), needs_password: false, error: None }
        },
        Err(e) => ParseResult { certificates: Vec::new(), private_keys: Vec::new(), needs_password: false, error: Some(e) },
    }
}

/// Recognizes a PKCS#12 container without decrypting it: a recognized one
/// asks for a password and reports that its contents are not read.
pub fn parse_pkcs12(data: &[u8], _password: &str) -> (r: ParseResult)
    ensures
        pkcs12_outcome(data@, r),
{
    if auth_safe_is_data_exec(data) && pfx_structure_ok(data) {
        let e = String::from_str("PKCS#12 parsing not fully implemented yet");
        proof {
            reveal_strlit("PKCS#12 parsing not fully implemented yet");
        }
        ParseResult { certificates: Vec::new(), private_keys: Vec::new(), needs_password: true, error: Some(e) }
    } else {
        let e = String::from_str("Failed to parse PKCS#12 file");
        proof {
            reveal_strlit("Failed to parse PKCS#12 file");
        }
        ParseResult { certificates: Vec::new(), private_keys: Vec::new(), needs_password: false, error: Some(e) }
    }
}

/// Where the extension of a file name begins: after its last dot, or at
/// the start when it has none.
pub open spec fn ext_start(name: Seq<u8>, k: int) -> int
    decreases k,
{
    if k <= 0 {
        0
    } else if name[k - 1] == 46 {
        k
    } else {
        ext_start(name, k - 1)
    }
}

pub open spec fn extension(name: Seq<u8>) -> Seq<u8> {
    name.subrange(ext_start(name, name.len() as int), name.len() as int)
}

pub open spec fn ascii_lower(b: u8) -> u8 {
    if 65 <= b && b <= 90 {
        (b + 32) as u8
    } else {
        b
    }
}

/// `ext` equals the lowercase `word` without regard to ASCII case.
pub open spec fn ext_is(ext: Seq<u8>, word: Seq<u8>) -> bool {
    ext.len() == word.len() && forall|i: int| 0 <= i < ext.len() ==> ascii_lower(#[trigger] ext[i]) == word[i]
}

/// The file name ends in ".pfx" or ".p12".
pub open spec fn is_pkcs12_name(name: Seq<u8>) -> bool {
    ext_is(extension(name), seq![112u8, 102, 120]) || ext_is(extension(name), seq![112u8, 49, 50])
}

/// The file name ends in ".der".
pub open spec fn is_der_name(name: Seq<u8>) -> bool {
    ext_is(extension(name), seq![100u8, 101, 114])
}

/// Reading `data` as PEM text finds at least one certificate or key.
pub open spec fn pem_finds_something(data: Seq<u8>) -> bool {
    let blocks = pem_blocks(data);
    valid_utf8(data) && (cert_ders(blocks, blocks.len() as int).len() > 0
        || key_blocks(blocks, blocks.len() as int).len() > 0)
}

/// The kinds of input told apart by file name.
#[derive(PartialEq, Eq, Structural, Clone, Copy, Debug)]
pub enum FileKind {
    Pkcs12,
    Der,
    Other,
}

pub open spec fn kind_of_name(name: Seq<u8>) -> FileKind {
    if is_pkcs12_name(name) {
        FileKind::Pkcs12
    } else if is_der_name(name) {
        FileKind::Der
    } else {
        FileKind::Other
    }
}

fn lower_byte(b: u8) -> (r: u8)
    ensures
        r == ascii_lower(b),
{
    if 65 <= b && b <= 90 {
        b + 32
    } else {
        b
    }
}

fn ext_matches(name: &[u8], from: usize, word: &[u8]) -> (r: bool)
    requires
        from <= name@.len(),
    ensures
        r == ext_is(name@.subrange(from as int, name@.len() as int), word@),
{
    let ghost ext = name@.subrange(from as int, name@.len() as int);
    let n = name.len();
    if n - from != word.len() {
        return false;
    }
    let mut k: usize = 0;
    while k < word.len()
        invariant
            k <= word@.len(),
            from + word@.len() == name@.len(),
            n == name@.len(),
            ext == name@.subrange(from as int, name@.len() as int),
            forall|i: int| 0 <= i < k ==> ascii_lower(#[trigger] ext[i]) == word@[i],
        decreases word@.len() - k,
    {
        if lower_byte(name[from + k]) != word[k] {
            assert(ext[k as int] == name@[from + k]);
            return false;
        }
        assert(ext[k as int] == name@[from + k]);
        k = k + 1;
    }
    true
}

/// Tells the input kind from the file name's extension, without regard to
/// ASCII case.
pub fn file_kind(filename: &str) -> (r: FileKind)
    ensures
        r == kind_of_name(filename.spec_bytes()),
{
    let name = filename.as_bytes();
    let mut k = name.len();
    while k > 0 && name[k - 1] != 46
        invariant
            k <= name@.len(),
            ext_start(name@, name@.len() as int) == ext_start(name@, k as int),
        decreases k,
    {
        k = k - 1;
    }
    let pfx: [u8; 3] = [112u8, 102, 120];
    let p12: [u8; 3] = [112u8, 49, 50];
    let der: [u8; 3] = [100u8, 101, 114];
    assert(pfx@ == seq![112u8, 102, 120]);
    assert(p12@ == seq![112u8, 49, 50]);
    assert(der@ == seq![100u8, 101, 114]);
    if ext_matches(name, k, &pfx) || ext_matches(name, k, &p12) {
        FileKind::Pkcs12
    } else if ext_matches(name, k, &der) {
        FileKind::Der
    } else {
        FileKind::Other
    }
}

/// Parses a certificate file by its name: ".pfx" and ".p12" are recognized
/// as PKCS#12, ".der" is read as one DER certificate, and anything else is
/// read as PEM text, falling back to DER when the text yields neither a
/// certificate nor a key. The password is not used: containers are never
/// decrypted.
pub fn parse_certificate_file(data: &[u8], filename: &str, password: Option<String>) -> (r: ParseResult)
    ensures
        kind_of_name(filename.spec_bytes()) == FileKind::Pkcs12 ==> pkcs12_outcome(data@, r),
        kind_of_name(filename.spec_bytes()) == FileKind::Der ==> der_outcome(data@, r),
        kind_of_name(filename.spec_bytes()) == FileKind::Other ==> if pem_finds_something(data@) {
            pem_outcome(data@, r)
        } else {
            der_outcome(data@, r)
        },
{
    match file_kind(filename) {
        FileKind::Pkcs12 => {
            let pwd: &str = match &password {
                Some(p) => p.as_str(),
                None => "",
            };
            parse_pkcs12(data, pwd)
        },
        FileKind::Der => parse_der(data),
        FileKind::Other => {
            let pem_result = parse_pem(data);
            if pem_result.certificates.len() > 0 || pem_result.private_keys.len() > 0 {
                pem_result
            } else {
                parse_der(data)
            }
        },
    }
}

} // verus!
