//! Composition of a server bundle: chain certificates, then an optional key.
use vstd::prelude::*;
use vstd::string::StringExecFns;
use crate::record::opt_text;

verus! {

/// The characters that `char::is_whitespace` accepts: those with the
/// Unicode `White_Space` property.
pub open spec fn is_white(c: char) -> bool {
    ('\u{9}' <= c && c <= '\u{d}') || c == ' ' || c == '\u{85}' || c == '\u{a0}' || c == '\u{1680}'
        || ('\u{2000}' <= c && c <= '\u{200a}') || c == '\u{2028}' || c == '\u{2029}' || c == '\u{202f}'
        || c == '\u{205f}' || c == '\u{3000}'
}

pub open spec fn trim_start(s: Seq<char>) -> Seq<char>
    decreases s.len(),
{
    if s.len() > 0 && is_white(s[0]) {
        trim_start(s.drop_first())
    } else {
        s
    }
}

pub open spec fn trim_end(s: Seq<char>) -> Seq<char>
    decreases s.len(),
{
    if s.len() > 0 && is_white(s.last()) {
        trim_end(s.drop_last())
    } else {
        s
    }
}

/// `s` without leading and trailing whitespace.
pub open spec fn trimmed(s: Seq<char>) -> Seq<char> {
    trim_end(trim_start(s))
}

/// Relies on `str::trim`: it removes leading and trailing whitespace, as
/// `char::is_whitespace` defines it, and keeps the rest.
#[verifier::external_body]
fn trim_text(s: &str) -> (r: String)
    ensures
        r@ == trimmed(s@),
{
    s.trim().to_string()
}

/// The PEM texts named by the first `k` indices of `chain`, each followed by
/// a newline; an index with no text is passed over.
pub open spec fn chain_text(chain: Seq<usize>, pems: Seq<Seq<char>>, k: int) -> Seq<char>
    decreases k,
{
    if k <= 0 {
        seq![]
    } else if chain[k - 1] < pems.len() {
        chain_text(chain, pems, k - 1) + pems[chain[k - 1] as int] + seq!['\n']
    } else {
        chain_text(chain, pems, k - 1)
    }
}

/// The untrimmed bundle: the chain's texts, then a blank line and the key.
pub open spec fn bundle_body(chain: Seq<usize>, pems: Seq<Seq<char>>, key: Option<Seq<char>>) -> Seq<char> {
    let certs = chain_text(chain, pems, chain.len() as int);
    match key {
        Some(k) => certs + seq!['\n'] + k,
        None => certs,
    }
}

pub open spec fn texts_view(v: Seq<String>) -> Seq<Seq<char>> {
    v.map_values(|s: String| s@)
}

/// Concatenates the PEM texts of the chain, in chain order and each followed
/// by a newline, then a blank line and the key when one is given, and trims
/// the whole. Indices with no text are passed over; nothing is validated.
pub fn generate_nginx_format(chain_indices: Vec<usize>, pems: Vec<String>, private_key_pem: Option<String>) -> (r: String)
    ensures
        r@ == trimmed(bundle_body(chain_indices@, texts_view(pems@), opt_text(private_key_pem))),
{
    let ghost views = texts_view(pems@);
    let mut output = String::new();
    let mut i: usize = 0;
    while i < chain_indices.len()
        invariant
            i <= chain_indices@.len(),
            views == texts_view(pems@),
            output@ == chain_text(chain_indices@, views, i as int),
        decreases chain_indices@.len() - i,
    {
        let idx = chain_indices[i];
        if idx < pems.len() {
            output.append(pems[idx].as_str());
            output.append("\n");
            proof {
                reveal_strlit("\n");
                assert(output@ == chain_text(chain_indices@, views, i as int) + views[idx as int] + seq!['\n']);
            }
        }
        i = i + 1;
    }
    match private_key_pem {
        Some(key) => {
            let ghost certs = output@;
            output.append("\n");
            output.append(key.as_str());
            proof {
                reveal_strlit("\n");
                assert(output@ == certs + seq!['\n'] + key@);
            }
        },
        None => {},
    }
    trim_text(output.as_str())
}

} // verus!
