//! PEM framing: splitting text into tagged base64 blocks, and rendering a
//! payload back as canonical PEM text wrapped at 64 characters per line.
use vstd::prelude::*;
use base64::Engine;
use vstd::utf8::{decode_utf8, pop_first_scalar, valid_first_scalar, valid_utf8, valid_utf8_concat};
use crate::roundtrip::{lemma_render_then_split, plain_tag};
use crate::text::{
    contains_bytes, copy_range, has_prefix, lines_of, push_all, split_lines, starts_with_bytes,
    trim_bytes, trim_line,
};

verus! {

/// What the standard base64 engine decodes `s` to, if `s` is well formed.
pub uninterp spec fn base64_decoded(s: Seq<u8>) -> Option<Seq<u8>>;

/// The standard base64 encoding (with padding) of `b`.
pub uninterp spec fn base64_of(b: Seq<u8>) -> Seq<u8>;

/// A byte of the standard base64 alphabet, padding included.
pub open spec fn is_base64_byte(c: u8) -> bool {
    (65 <= c && c <= 90) || (97 <= c && c <= 122) || (48 <= c && c <= 57) || c == 43 || c == 47 || c == 61
}

/// Relies on `base64::engine::general_purpose::STANDARD.decode`: it returns
/// the decoded bytes, or an error when `s` is not well-formed base64.
#[verifier::external_body]
fn decode_base64(s: &Vec<u8>) -> (r: Option<Vec<u8>>)
    ensures
        match r {
            Some(v) => base64_decoded(s@) == Some(v@),
            None => base64_decoded(s@) is None,
        },
{
    base64::engine::general_purpose::STANDARD.decode(s).ok()
}

/// Relies on `base64::engine::general_purpose::STANDARD.encode`: the text
/// uses the standard alphabet with padding, and decodes back to `b`.
#[verifier::external_body]
fn encode_base64(b: &Vec<u8>) -> (r: Vec<u8>)
    ensures
        r@ == base64_of(b@),
        base64_decoded(r@) == Some(b@),
        forall|i: int| 0 <= i < r@.len() ==> is_base64_byte(#[trigger] r@[i]),
{
    base64::engine::general_purpose::STANDARD.encode(b).into_bytes()
}

/// `-----BEGIN `
pub open spec fn begin_marker() -> Seq<u8> {
    seq![45u8, 45, 45, 45, 45, 66, 69, 71, 73, 78, 32]
}

/// `-----END `
pub open spec fn end_marker() -> Seq<u8> {
    seq![45u8, 45, 45, 45, 45, 69, 78, 68, 32]
}

/// `-----`
pub open spec fn dashes() -> Seq<u8> {
    seq![45u8, 45, 45, 45, 45]
}

/// `CERTIFICATE`
pub open spec fn certificate_tag() -> Seq<u8> {
    seq![67u8, 69, 82, 84, 73, 70, 73, 67, 65, 84, 69]
}

fn begin_marker_exec() -> (r: Vec<u8>)
    ensures
        r@ == begin_marker(),
{
    let r: Vec<u8> = vec![45u8, 45, 45, 45, 45, 66, 69, 71, 73, 78, 32];
    assert(r@ == begin_marker());
    r
}

fn end_marker_exec() -> (r: Vec<u8>)
    ensures
        r@ == end_marker(),
{
    let r: Vec<u8> = vec![45u8, 45, 45, 45, 45, 69, 78, 68, 32];
    assert(r@ == end_marker());
    r
}

fn dashes_exec() -> (r: Vec<u8>)
    ensures
        r@ == dashes(),
{
    let r: Vec<u8> = vec![45u8, 45, 45, 45, 45];
    assert(r@ == dashes());
    r
}

pub fn certificate_tag_exec() -> (r: Vec<u8>)
    ensures
        r@ == certificate_tag(),
{
    let r: Vec<u8> = vec![67u8, 69, 82, 84, 73, 70, 73, 67, 65, 84, 69];
    assert(r@ == certificate_tag());
    r
}

/// `s` with every trailing run of five dashes removed.
pub open spec fn strip_dashes(s: Seq<u8>) -> Seq<u8>
    decreases s.len(),
{
    if s.len() >= 5 && s.subrange(s.len() - 5, s.len() as int) == dashes() {
        strip_dashes(s.subrange(0, s.len() - 5))
    } else {
        s
    }
}

/// The tag of a marker line that starts, once trimmed, with `prefix`.
pub open spec fn marker_tag(line: Seq<u8>, prefix: Seq<u8>) -> Option<Seq<u8>> {
    let l = trim_bytes(line);
    if has_prefix(l, prefix) {
        Some(trim_bytes(strip_dashes(l.subrange(prefix.len() as int, l.len() as int))))
    } else {
        None
    }
}

/// The first line at or after `k` that ends a block tagged `tag`, or the
/// number of lines when there is none.
pub open spec fn end_line_from(lines: Seq<Seq<u8>>, tag: Seq<u8>, k: int) -> int
    decreases lines.len() - k,
{
    if k < 0 || k >= lines.len() {
        lines.len() as int
    } else if marker_tag(lines[k], end_marker()) == Some(tag) {
        k
    } else {
        end_line_from(lines, tag, k + 1)
    }
}

/// The trimmed lines from `a` up to `b`, concatenated; empty lines add nothing.
pub open spec fn payload(lines: Seq<Seq<u8>>, a: int, b: int) -> Seq<u8>
    decreases b - a,
{
    if b <= a {
        seq![]
    } else {
        payload(lines, a, b - 1) + trim_bytes(lines[b - 1])
    }
}

/// The blocks found from line `i` on, as (tag, decoded payload). A BEGIN
/// line with no matching END line, or a payload that is not base64, gives
/// no block; the scan resumes after the BEGIN line, or after the END line.
pub open spec fn blocks_from(lines: Seq<Seq<u8>>, i: int) -> Seq<(Seq<u8>, Seq<u8>)>
    decreases lines.len() - i,
{
    if i < 0 || i >= lines.len() {
        seq![]
    } else {
        match marker_tag(lines[i], begin_marker()) {
            None => blocks_from(lines, i + 1),
            Some(tag) => {
                let j = end_line_from(lines, tag, i + 1);
                if i < j && j < lines.len() {
                    match base64_decoded(payload(lines, i + 1, j)) {
                        Some(der) => seq![(tag, der)] + blocks_from(lines, j + 1),
                        None => blocks_from(lines, j + 1),
                    }
                } else {
                    blocks_from(lines, i + 1)
                }
            },
        }
    }
}

/// The blocks of a PEM text, in order.
pub open spec fn pem_blocks(text: Seq<u8>) -> Seq<(Seq<u8>, Seq<u8>)> {
    blocks_from(lines_of(text), 0)
}

/// A block of PEM text: its tag and its decoded payload.
pub struct PemBlock {
    pub tag: Vec<u8>,
    pub der: Vec<u8>,
}

impl View for PemBlock {
    type V = (Seq<u8>, Seq<u8>);

    open spec fn view(&self) -> (Seq<u8>, Seq<u8>) {
        (self.tag@, self.der@)
    }
}

fn strip_dashes_exec(s: &Vec<u8>) -> (r: Vec<u8>)
    ensures
        r@ == strip_dashes(s@),
{
    let mut b = s.len();
    assert(s@.subrange(0, b as int) == s@);
    loop
        invariant
            b <= s@.len(),
            strip_dashes(s@) == strip_dashes(s@.subrange(0, b as int)),
        ensures
            b <= s@.len(),
            strip_dashes(s@) == s@.subrange(0, b as int),
        decreases b,
    {
        if b < 5 {
            assert(strip_dashes(s@.subrange(0, b as int)) == s@.subrange(0, b as int));
            break;
        }
        let tail = copy_range(s, b - 5, b);
        let d = dashes_exec();
        if !starts_with_bytes(&tail, &d) {
            assert(tail@.subrange(0, 5) == tail@);
            assert(s@.subrange(0, b as int).subrange(b - 5, b as int) == tail@);
            assert(strip_dashes(s@.subrange(0, b as int)) == s@.subrange(0, b as int));
            break;
        }
        assert(tail@.subrange(0, 5) == tail@);
        assert(s@.subrange(0, b as int).subrange(b - 5, b as int) == tail@);
        assert(s@.subrange(0, b as int).subrange(0, b - 5) == s@.subrange(0, b - 5));
        b = b - 5;
    }
    copy_range(s, 0, b)
}

fn marker_tag_exec(line: &Vec<u8>, prefix: &Vec<u8>) -> (r: Option<Vec<u8>>)
    ensures
        match r {
            Some(t) => marker_tag(line@, prefix@) == Some(t@),
            None => marker_tag(line@, prefix@) is None,
        },
{
    let l = trim_line(line);
    if starts_with_bytes(&l, prefix) {
        let rest = copy_range(&l, prefix.len(), l.len());
        let stripped = strip_dashes_exec(&rest);
        Some(trim_line(&stripped))
    } else {
        None
    }
}

fn same_bytes(a: &Vec<u8>, b: &Vec<u8>) -> (r: bool)
    ensures
        r == (a@ == b@),
{
    if a.len() != b.len() {
        return false;
    }
    let r = starts_with_bytes(a, b);
    assert(a@.subrange(0, b@.len() as int) == a@);
    r
}

fn find_end_line(lines: &Vec<Vec<u8>>, tag: &Vec<u8>, from: usize, Ghost(ls): Ghost<Seq<Seq<u8>>>) -> (r: usize)
    requires
        lines@.len() == ls.len(),
        forall|k: int| 0 <= k < ls.len() ==> (#[trigger] lines@[k])@ == ls[k],
        from <= lines@.len(),
    ensures
        r as int == end_line_from(ls, tag@, from as int),
        from <= r <= lines@.len(),
{
    let mut k = from;
    while k < lines.len()
        invariant
            from <= k <= lines@.len(),
            lines@.len() == ls.len(),
            forall|q: int| 0 <= q < ls.len() ==> (#[trigger] lines@[q])@ == ls[q],
            end_line_from(ls, tag@, from as int) == end_line_from(ls, tag@, k as int),
        decreases lines@.len() - k,
    {
        let e = end_marker_exec();
        match marker_tag_exec(&lines[k], &e) {
            Some(t) => {
                if same_bytes(&t, tag) {
                    return k;
                }
            },
            None => {},
        }
        k = k + 1;
    }
    k
}

fn collect_payload(lines: &Vec<Vec<u8>>, a: usize, b: usize, Ghost(ls): Ghost<Seq<Seq<u8>>>) -> (r: Vec<u8>)
    requires
        lines@.len() == ls.len(),
        forall|k: int| 0 <= k < ls.len() ==> (#[trigger] lines@[k])@ == ls[k],
        a <= b <= lines@.len(),
    ensures
        r@ == payload(ls, a as int, b as int),
{
    let mut r: Vec<u8> = Vec::new();
    let mut k = a;
    while k < b
        invariant
            a <= k <= b <= lines@.len(),
            lines@.len() == ls.len(),
            forall|q: int| 0 <= q < ls.len() ==> (#[trigger] lines@[q])@ == ls[q],
            r@ == payload(ls, a as int, k as int),
        decreases b - k,
    {
        let t = trim_line(&lines[k]);
        push_all(&mut r, &t);
        k = k + 1;
    }
    r
}

/// Splits PEM text into its blocks. Blocks without a matching END line and
/// blocks whose payload is not base64 are passed over; no block at all is a
/// valid outcome.
pub fn split_pem(text: &Vec<u8>) -> (r: Vec<PemBlock>)
    ensures
        r@.len() == pem_blocks(text@).len(),
        forall|k: int| 0 <= k < r@.len() ==> (#[trigger] r@[k])@ == pem_blocks(text@)[k],
{
    let lines = split_lines(text);
    let ghost ls = lines_of(text@);
    let n = lines.len();
    let mut out: Vec<PemBlock> = Vec::new();
    let mut i: usize = 0;
    while i < n
        invariant
            i <= n,
            n == ls.len(),
            lines@.len() == ls.len(),
            forall|q: int| 0 <= q < ls.len() ==> (#[trigger] lines@[q])@ == ls[q],
            out@.map_values(|b: PemBlock| b@) + blocks_from(ls, i as int) == blocks_from(ls, 0),
        decreases n - i,
    {
        let b = begin_marker_exec();
        match marker_tag_exec(&lines[i], &b) {
            None => {
                i = i + 1;
            },
            Some(tag) => {
                let j = find_end_line(&lines, &tag, i + 1, Ghost(ls));
                if j < n {
                    let body = collect_payload(&lines, i + 1, j, Ghost(ls));
                    match decode_base64(&body) {
                        Some(der) => {
                            let ghost before = out@.map_values(|b: PemBlock| b@);
                            let blk = PemBlock { tag, der };
                            let ghost bv = blk@;
                            out.push(blk);
                            assert(out@.map_values(|b: PemBlock| b@) == before.push(bv));
                            assert(before.push(bv) + blocks_from(ls, j + 1)
                                == before + (seq![bv] + blocks_from(ls, j + 1)));
                        },
                        None => {},
                    }
                    i = j + 1;
                } else {
                    i = i + 1;
                }
            },
        }
    }
    assert(out@.map_values(|b: PemBlock| b@) + seq![] == out@.map_values(|b: PemBlock| b@));
    assert forall|k: int| 0 <= k < out@.len() implies (#[trigger] out@[k])@ == pem_blocks(text@)[k] by {
        assert(out@.map_values(|b: PemBlock| b@)[k] == out@[k]@);
    }
    out
}

/// `s` cut into lines of 64 bytes, the last one shorter, each followed by a newline.
pub open spec fn wrap64(s: Seq<u8>) -> Seq<u8>
    decreases s.len(),
{
    if s.len() == 0 {
        seq![]
    } else if s.len() <= 64 {
        s + seq![10u8]
    } else {
        s.subrange(0, 64) + seq![10u8] + wrap64(s.subrange(64, s.len() as int))
    }
}

/// PEM text for `tag` around the base64 text `b64`.
pub open spec fn pem_text(tag: Seq<u8>, b64: Seq<u8>) -> Seq<u8> {
    begin_marker() + tag + dashes() + seq![10u8] + wrap64(b64) + end_marker() + tag + dashes()
}

/// The canonical PEM rendering of `der` under `tag`.
pub open spec fn canonical_pem(tag: Seq<u8>, der: Seq<u8>) -> Seq<u8> {
    pem_text(tag, base64_of(der))
}

/// What stands between the header line and the footer of PEM text for `tag`.
pub open spec fn pem_body(tag: Seq<u8>, t: Seq<u8>) -> Seq<u8> {
    t.subrange((begin_marker().len() + tag.len() + 6) as int, t.len() - (end_marker().len() + tag.len() + 5))
}

/// `s` without its newline bytes.
pub open spec fn without_newlines(s: Seq<u8>) -> Seq<u8>
    decreases s.len(),
{
    if s.len() == 0 {
        seq![]
    } else if s.last() == 10 {
        without_newlines(s.drop_last())
    } else {
        without_newlines(s.drop_last()).push(s.last())
    }
}

proof fn lemma_without_newlines_concat(a: Seq<u8>, b: Seq<u8>)
    ensures
        without_newlines(a + b) == without_newlines(a) + without_newlines(b),
    decreases b.len(),
{
    if b.len() == 0 {
        assert(a + b == a);
    } else {
        assert((a + b).drop_last() == a + b.drop_last());
        lemma_without_newlines_concat(a, b.drop_last());
    }
}

proof fn lemma_without_newlines_none(s: Seq<u8>)
    requires
        forall|i: int| 0 <= i < s.len() ==> s[i] != 10,
    ensures
        without_newlines(s) == s,
    decreases s.len(),
{
    if s.len() > 0 {
        lemma_without_newlines_none(s.drop_last());
    }
}

/// Removing the line breaks from text wrapped at 64 bytes gives back the
/// text, when the text itself holds no newline.
pub proof fn lemma_unwrap64(s: Seq<u8>)
    requires
        forall|i: int| 0 <= i < s.len() ==> s[i] != 10,
    ensures
        without_newlines(wrap64(s)) == s,
    decreases s.len(),
{
    let nl: Seq<u8> = seq![10u8];
    assert(without_newlines(nl) == without_newlines(nl.drop_last()));
    if s.len() == 0 {
    } else if s.len() <= 64 {
        lemma_without_newlines_concat(s, nl);
        lemma_without_newlines_none(s);
    } else {
        let h = s.subrange(0, 64);
        let t = s.subrange(64, s.len() as int);
        lemma_unwrap64(t);
        lemma_without_newlines_concat(h + nl, wrap64(t));
        lemma_without_newlines_concat(h, nl);
        lemma_without_newlines_none(h);
        assert(h + t == s);
    }
}

/// The payload of PEM text rendered from base64 text, line breaks removed,
/// is that base64 text.
pub proof fn lemma_pem_payload(tag: Seq<u8>, b64: Seq<u8>)
    requires
        forall|i: int| 0 <= i < b64.len() ==> b64[i] != 10,
    ensures
        without_newlines(pem_body(tag, pem_text(tag, b64))) == b64,
{
    let t = pem_text(tag, b64);
    let head = begin_marker() + tag + dashes() + seq![10u8];
    let tail = end_marker() + tag + dashes();
    assert(t == head + wrap64(b64) + tail);
    assert(pem_body(tag, t) == wrap64(b64));
    lemma_unwrap64(b64);
}

/// Renders `der` as PEM text under `tag`: base64 wrapped at 64 characters
/// per line, between matching BEGIN and END lines.
pub fn render_pem(tag: &Vec<u8>, der: &Vec<u8>) -> (r: Vec<u8>)
    ensures
        r@ == canonical_pem(tag@, der@),
        base64_decoded(without_newlines(pem_body(tag@, r@))) == Some(der@),
        plain_tag(tag@) ==> pem_blocks(r@) == seq![(tag@, der@)],
        forall|i: int| 0 <= i < base64_of(der@).len() ==> is_base64_byte(#[trigger] base64_of(der@)[i]),
        valid_utf8(tag@) ==> valid_utf8(r@),
{
    let b64 = encode_base64(der);
    let mut out = begin_marker_exec();
    push_all(&mut out, tag);
    let d = dashes_exec();
    push_all(&mut out, &d);
    out.push(10u8);
    let ghost head = out@;
    let n = b64.len();
    let mut pos: usize = 0;
    assert(b64@.subrange(0, n as int) == b64@);
    while pos < n
        invariant
            pos <= n,
            n == b64@.len(),
            out@ + wrap64(b64@.subrange(pos as int, n as int)) == head + wrap64(b64@),
        decreases n - pos,
    {
        let end = if n - pos > 64 { pos + 64 } else { n };
        let chunk = copy_range(&b64, pos, end);
        let ghost rest = b64@.subrange(pos as int, n as int);
        assert(rest.subrange(0, end - pos) == chunk@);
        assert(rest.subrange(end - pos, rest.len() as int) == b64@.subrange(end as int, n as int));
        push_all(&mut out, &chunk);
        out.push(10u8);
        proof {
            if end == n {
                assert(rest == chunk@);
                assert(b64@.subrange(end as int, n as int) == Seq::<u8>::empty());
            }
        }
        pos = end;
    }
    let e = end_marker_exec();
    push_all(&mut out, &e);
    push_all(&mut out, tag);
    push_all(&mut out, &d);
    proof {
        assert(b64@.subrange(n as int, n as int) == Seq::<u8>::empty());
        assert(out@ == pem_text(tag@, b64@));
        assert forall|i: int| 0 <= i < b64@.len() implies b64@[i] != 10 by {
            assert(is_base64_byte(b64@[i]));
        }
        lemma_pem_payload(tag@, b64@);
        if plain_tag(tag@) {
            lemma_render_then_split(tag@, b64@, der@);
        }
        if valid_utf8(tag@) {
            lemma_pem_text_utf8(tag@, b64@);
        }
    }
    out
}

pub open spec fn all_ascii(b: Seq<u8>) -> bool {
    forall|i: int| 0 <= i < b.len() ==> #[trigger] b[i] < 128
}

/// ASCII bytes are valid UTF-8.
pub proof fn lemma_ascii_valid_utf8(b: Seq<u8>)
    requires
        all_ascii(b),
    ensures
        valid_utf8(b),
    decreases b.len(),
{
    if b.len() > 0 {
        let c = b[0];
        assert(c < 128);
        assert((c & 0x7f) <= 0x7f) by (bit_vector);
        assert(valid_first_scalar(b));
        let rest = pop_first_scalar(b);
        assert(rest == b.subrange(1, b.len() as int));
        assert(all_ascii(rest)) by {
            assert forall|i: int| 0 <= i < rest.len() implies #[trigger] rest[i] < 128 by {
                assert(rest[i] == b[i + 1]);
            }
        }
        lemma_ascii_valid_utf8(rest);
    }
}

proof fn lemma_wrap64_ascii(s: Seq<u8>)
    requires
        all_ascii(s),
    ensures
        all_ascii(wrap64(s)),
    decreases s.len(),
{
    if s.len() > 64 {
        let t = s.subrange(64, s.len() as int);
        assert(all_ascii(t)) by {
            assert forall|i: int| 0 <= i < t.len() implies #[trigger] t[i] < 128 by {
                assert(t[i] == s[i + 64]);
            }
        }
        lemma_wrap64_ascii(t);
        let h = s.subrange(0, 64) + seq![10u8];
        assert forall|i: int| 0 <= i < wrap64(s).len() implies #[trigger] wrap64(s)[i] < 128 by {
            if i < h.len() {
                assert(wrap64(s)[i] == h[i]);
                if i < 64 {
                    assert(h[i] == s[i]);
                }
            } else {
                assert(wrap64(s)[i] == wrap64(t)[i - h.len()]);
            }
        }
    } else if s.len() > 0 {
        assert forall|i: int| 0 <= i < wrap64(s).len() implies #[trigger] wrap64(s)[i] < 128 by {
            if i < s.len() {
                assert(wrap64(s)[i] == s[i]);
            }
        }
    }
}

/// PEM text around base64 text is valid UTF-8 when its tag is.
pub proof fn lemma_pem_text_utf8(tag: Seq<u8>, b64: Seq<u8>)
    requires
        valid_utf8(tag),
        forall|i: int| 0 <= i < b64.len() ==> is_base64_byte(#[trigger] b64[i]),
    ensures
        valid_utf8(pem_text(tag, b64)),
{
    assert(all_ascii(b64)) by {
        assert forall|i: int| 0 <= i < b64.len() implies #[trigger] b64[i] < 128 by {
            assert(is_base64_byte(b64[i]));
        }
    }
    lemma_wrap64_ascii(b64);
    let nl: Seq<u8> = seq![10u8];
    lemma_ascii_valid_utf8(begin_marker());
    lemma_ascii_valid_utf8(end_marker());
    lemma_ascii_valid_utf8(dashes());
    lemma_ascii_valid_utf8(nl);
    lemma_ascii_valid_utf8(wrap64(b64));
    let a = begin_marker() + tag;
    valid_utf8_concat(begin_marker(), tag);
    valid_utf8_concat(a, dashes());
    valid_utf8_concat(a + dashes(), nl);
    valid_utf8_concat(a + dashes() + nl, wrap64(b64));
    valid_utf8_concat(a + dashes() + nl + wrap64(b64), end_marker());
    valid_utf8_concat(a + dashes() + nl + wrap64(b64) + end_marker(), tag);
    valid_utf8_concat(a + dashes() + nl + wrap64(b64) + end_marker() + tag, dashes());
}

/// The text that `String::from_utf8_lossy` reads from `b`.
pub uninterp spec fn utf8_lossy(b: Seq<u8>) -> Seq<char>;

/// Relies on `String::from_utf8_lossy`: the result depends on the bytes
/// alone, and valid UTF-8 is read as it is.
#[verifier::external_body]
pub(crate) fn text_from_bytes(b: &Vec<u8>) -> (r: String)
    ensures
        r@ == utf8_lossy(b@),
        valid_utf8(b@) ==> r@ == decode_utf8(b@),
{
    String::from_utf8_lossy(b).into_owned()
}

} // verus!
