//! The records produced by parsing a bundle.
use vstd::prelude::*;

verus! {

/// The text an optional string holds.
pub open spec fn opt_text(o: Option<String>) -> Option<Seq<char>> {
    match o {
        Some(s) => Some(s@),
        None => None,
    }
}

/// The recognized attributes of a distinguished name, one slot per code.
/// A slot holds the last readable value given for that code.
#[derive(Clone, Debug)]
pub struct NameAttributes {
    pub cn: Option<String>,
    pub c: Option<String>,
    pub l: Option<String>,
    pub st: Option<String>,
    pub o: Option<String>,
    pub ou: Option<String>,
}

/// Identity, validity and role of one decoded certificate.
#[derive(Clone, Debug)]
pub struct CertificateInfo {
    pub subject: NameAttributes,
    pub issuer: NameAttributes,
    /// Lowercase hexadecimal, without prefix.
    pub serial_number: String,
    pub valid_from: String,
    pub valid_to: String,
    pub subject_common_name: String,
    pub issuer_common_name: String,
    pub is_ca: bool,
    pub is_self_signed: bool,
}

fn copy_text(o: &Option<String>) -> (r: Option<String>)
    ensures
        r == *o,
{
    match o {
        Some(s) => Some(s.clone()),
        None => None,
    }
}

impl NameAttributes {
    /// A copy with equal values in every slot.
    pub fn copy(&self) -> (r: NameAttributes)
        ensures
            r == *self,
    {
        NameAttributes {
            cn: copy_text(&self.cn),
            c: copy_text(&self.c),
            l: copy_text(&self.l),
            st: copy_text(&self.st),
            o: copy_text(&self.o),
            ou: copy_text(&self.ou),
        }
    }
}

impl CertificateInfo {
    pub fn subject(&self) -> (r: NameAttributes)
        ensures
            r == self.subject,
    {
        self.subject.copy()
    }

    pub fn issuer(&self) -> (r: NameAttributes)
        ensures
            r == self.issuer,
    {
        self.issuer.copy()
    }

    pub fn serial_number(&self) -> (r: String)
        ensures
            r == self.serial_number,
    {
        self.serial_number.clone()
    }

    pub fn valid_from(&self) -> (r: String)
        ensures
            r == self.valid_from,
    {
        self.valid_from.clone()
    }

    pub fn valid_to(&self) -> (r: String)
        ensures
            r == self.valid_to,
    {
        self.valid_to.clone()
    }

    pub fn subject_common_name(&self) -> (r: String)
        ensures
            r == self.subject_common_name,
    {
        self.subject_common_name.clone()
    }

    pub fn issuer_common_name(&self) -> (r: String)
        ensures
            r == self.issuer_common_name,
    {
        self.issuer_common_name.clone()
    }

    pub fn is_ca(&self) -> (r: bool)
        ensures
            r == self.is_ca,
    {
        self.is_ca
    }

    pub fn is_self_signed(&self) -> (r: bool)
        ensures
            r == self.is_self_signed,
    {
        self.is_self_signed
    }
}

/// A decoded certificate: its record and its canonical PEM text.
pub struct ParsedCertificate {
    pub info: CertificateInfo,
    pub pem: String,
}

impl ParsedCertificate {
    pub fn pem(&self) -> (r: String)
        ensures
            r == self.pem,
    {
        self.pem.clone()
    }

    pub fn info(&self) -> (r: &CertificateInfo)
        ensures
            *r == self.info,
    {
        &self.info
    }
}

/// A private key block: its canonical PEM text, and whether its tag says
/// it is encrypted.
pub struct PrivateKey {
    pub pem: String,
    pub encrypted: bool,
}

impl PrivateKey {
    pub fn pem(&self) -> (r: String)
        ensures
            r == self.pem,
    {
        self.pem.clone()
    }

    pub fn encrypted(&self) -> (r: bool)
        ensures
            r == self.encrypted,
    {
        self.encrypted
    }
}

/// The outcome of one parse call.
pub struct ParseResult {
    pub certificates: Vec<ParsedCertificate>,
    pub private_keys: Vec<PrivateKey>,
    pub needs_password: bool,
    pub error: Option<String>,
}

impl ParseResult {
    pub fn certificates(&self) -> (r: &Vec<ParsedCertificate>)
        ensures
            *r == self.certificates,
    {
        &self.certificates
    }

    pub fn private_keys(&self) -> (r: &Vec<PrivateKey>)
        ensures
            *r == self.private_keys,
    {
        &self.private_keys
    }

    pub fn needs_password(&self) -> (r: bool)
        ensures
            r == self.needs_password,
    {
        self.needs_password
    }

    pub fn error(&self) -> (r: Option<String>)
        ensures
            r == self.error,
    {
        copy_text(&self.error)
    }
}

} // verus!
