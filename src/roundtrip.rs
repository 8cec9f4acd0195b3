//! Laws of PEM framing: rendered PEM text reads back, through the splitter,
//! as the one block it was rendered from, and a block that never ends is
//! dropped without disturbing the blocks before it.
use vstd::prelude::*;
use crate::framing::{
    base64_decoded, begin_marker, blocks_from, certificate_tag, dashes, end_line_from, end_marker, is_base64_byte,
    marker_tag, payload, pem_blocks, pem_text, strip_dashes, wrap64,
};
use crate::x509::lemma_certificate_tag_plain;
use crate::text::{has_prefix, is_space, lines_from, lines_of, trim_bytes, trim_end_bytes, trim_start_bytes};

verus! {

pub open spec fn no_newline(s: Seq<u8>) -> bool {
    forall|i: int| 0 <= i < s.len() ==> s[i] != 10
}

/// The lines of `cs` joined.
pub open spec fn concat_all(cs: Seq<Seq<u8>>) -> Seq<u8>
    decreases cs.len(),
{
    if cs.len() == 0 {
        seq![]
    } else {
        concat_all(cs.drop_last()) + cs.last()
    }
}

/// The lines that `wrap64` cuts `s` into.
pub open spec fn chunks64(s: Seq<u8>) -> Seq<Seq<u8>>
    decreases s.len(),
{
    if s.len() == 0 {
        seq![]
    } else if s.len() <= 64 {
        seq![s]
    } else {
        seq![s.subrange(0, 64)] + chunks64(s.subrange(64, s.len() as int))
    }
}

proof fn lemma_lines_shift(x: Seq<u8>, y: Seq<u8>, i: int, s: int)
    requires
        0 <= s <= i <= y.len(),
    ensures
        lines_from(x + y, x.len() + i, x.len() + s) == lines_from(y, i, s),
    decreases y.len() - i,
{
    let t = x + y;
    if i < y.len() {
        assert(t[x.len() + i] == y[i]);
        if y[i] == 10 {
            assert(t.subrange(x.len() + s, x.len() + i) == y.subrange(s, i));
            lemma_lines_shift(x, y, i + 1, i + 1);
        } else {
            lemma_lines_shift(x, y, i + 1, s);
        }
    } else if s < y.len() {
        assert(t.subrange(x.len() + s, t.len() as int) == y.subrange(s, y.len() as int));
    }
}

proof fn lemma_lines_first(a: Seq<u8>, rest: Seq<u8>, i: int)
    requires
        no_newline(a),
        0 <= i <= a.len(),
    ensures
        lines_from(a + seq![10u8] + rest, i, 0) == seq![a] + lines_of(rest),
    decreases a.len() - i,
{
    let t = a + seq![10u8] + rest;
    if i < a.len() {
        assert(t[i] == a[i]);
        lemma_lines_first(a, rest, i + 1);
    } else {
        assert(t[i] == 10);
        assert(t.subrange(0, i) == a);
        lemma_lines_shift(a + seq![10u8], rest, 0, 0);
    }
}

proof fn lemma_lines_last(f: Seq<u8>, i: int)
    requires
        no_newline(f),
        f.len() > 0,
        0 <= i <= f.len(),
    ensures
        lines_from(f, i, 0) == seq![f],
    decreases f.len() - i,
{
    if i < f.len() {
        lemma_lines_last(f, i + 1);
    } else {
        assert(f.subrange(0, f.len() as int) == f);
    }
}

proof fn lemma_lines_wrapped(s: Seq<u8>, f: Seq<u8>)
    requires
        no_newline(s),
        no_newline(f),
        f.len() > 0,
    ensures
        lines_of(wrap64(s) + f) == chunks64(s) + seq![f],
    decreases s.len(),
{
    if s.len() == 0 {
        assert(wrap64(s) + f == f);
        lemma_lines_last(f, 0);
    } else if s.len() <= 64 {
        assert(wrap64(s) + f == s + seq![10u8] + f);
        lemma_lines_first(s, f, 0);
        lemma_lines_last(f, 0);
    } else {
        let h = s.subrange(0, 64);
        let t = s.subrange(64, s.len() as int);
        lemma_lines_wrapped(t, f);
        assert(wrap64(s) + f == h + seq![10u8] + (wrap64(t) + f));
        lemma_lines_first(h, wrap64(t) + f, 0);
    }
}

proof fn lemma_chunks_plain(s: Seq<u8>)
    requires
        forall|i: int| 0 <= i < s.len() ==> is_base64_byte(#[trigger] s[i]),
    ensures
        forall|k: int| 0 <= k < chunks64(s).len() ==> {
            &&& (#[trigger] chunks64(s)[k]).len() > 0
            &&& forall|i: int| 0 <= i < chunks64(s)[k].len() ==> is_base64_byte(#[trigger] chunks64(s)[k][i])
        },
    decreases s.len(),
{
    if s.len() > 64 {
        let t = s.subrange(64, s.len() as int);
        lemma_chunks_plain(t);
        assert forall|k: int| 0 <= k < chunks64(s).len() implies {
            &&& (#[trigger] chunks64(s)[k]).len() > 0
            &&& forall|i: int| 0 <= i < chunks64(s)[k].len() ==> is_base64_byte(#[trigger] chunks64(s)[k][i])
        } by {
            if k > 0 {
                assert(chunks64(s)[k] == chunks64(t)[k - 1]);
            } else {
                assert forall|i: int| 0 <= i < chunks64(s)[k].len() implies is_base64_byte(#[trigger] chunks64(s)[k][i]) by {
                    assert(chunks64(s)[k][i] == s[i]);
                }
            }
        }
    }
}

/// Trimming leaves alone a line that neither begins nor ends with whitespace.
proof fn lemma_trim_plain(s: Seq<u8>)
    requires
        s.len() > 0,
        !is_space(s[0]),
        !is_space(s.last()),
    ensures
        trim_bytes(s) == s,
{
    assert(trim_start_bytes(s) == s);
    assert(trim_end_bytes(s) == s);
}

/// A tag that marker lines carry through unchanged.
pub open spec fn plain_tag(tag: Seq<u8>) -> bool {
    &&& tag.len() > 0
    &&& forall|i: int| 0 <= i < tag.len() ==> {
        &&& !is_space(#[trigger] tag[i])
        &&& tag[i] != 45
    }
}

proof fn lemma_marker(prefix: Seq<u8>, tag: Seq<u8>)
    requires
        plain_tag(tag),
        prefix.len() > 0 && prefix[0] == 45,
    ensures
        marker_tag(prefix + tag + dashes(), prefix) == Some(tag),
{
    let l = prefix + tag + dashes();
    lemma_trim_plain(l);
    assert(l.subrange(0, prefix.len() as int) == prefix);
    let rest = l.subrange(prefix.len() as int, l.len() as int);
    assert(rest == tag + dashes());
    assert(rest.subrange(rest.len() - 5, rest.len() as int) == dashes());
    assert(rest.subrange(0, rest.len() - 5) == tag);
    assert(!(tag.len() >= 5 && tag.subrange(tag.len() - 5, tag.len() as int) == dashes())) by {
        if tag.len() >= 5 {
            assert(tag.subrange(tag.len() - 5, tag.len() as int)[4] == tag[tag.len() - 1]);
        }
    }
    assert(strip_dashes(tag) == tag);
    lemma_trim_plain(tag);
}

proof fn lemma_payload_chunks(lines: Seq<Seq<u8>>, s: Seq<u8>, k: int)
    requires
        forall|i: int| 0 <= i < s.len() ==> is_base64_byte(#[trigger] s[i]),
        lines.len() >= chunks64(s).len() + 1,
        forall|q: int| 0 <= q < chunks64(s).len() ==> lines[q + 1] == chunks64(s)[q],
        0 <= k <= chunks64(s).len(),
    ensures
        payload(lines, 1, k + 1) == concat_all(chunks64(s).subrange(0, k)),
    decreases k,
{
    lemma_chunks_plain(s);
    let cs = chunks64(s);
    if k > 0 {
        lemma_payload_chunks(lines, s, k - 1);
        let c = cs[k - 1];
        assert(is_base64_byte(c[0]) && is_base64_byte(c[c.len() - 1]));
        lemma_trim_plain(c);
        assert(cs.subrange(0, k).drop_last() == cs.subrange(0, k - 1));
    } else {
        assert(cs.subrange(0, 0) == Seq::<Seq<u8>>::empty());
    }
}

proof fn lemma_chunks_concat(s: Seq<u8>)
    ensures
        concat_all(chunks64(s)) == s,
    decreases s.len(),
{
    if s.len() == 0 {
    } else if s.len() <= 64 {
        assert(seq![s].drop_last() == Seq::<Seq<u8>>::empty());
        assert(concat_all(Seq::<Seq<u8>>::empty()) == Seq::<u8>::empty());
        assert(concat_all(seq![s]) == concat_all(seq![s].drop_last()) + s);
        assert(Seq::<u8>::empty() + s == s);
    } else {
        let h = s.subrange(0, 64);
        let t = s.subrange(64, s.len() as int);
        lemma_chunks_concat(t);
        lemma_concat_prepend(h, chunks64(t));
        assert(chunks64(s) == seq![h] + chunks64(t));
        assert(h + t == s);
    }
}

proof fn lemma_concat_prepend(h: Seq<u8>, cs: Seq<Seq<u8>>)
    ensures
        concat_all(seq![h] + cs) == h + concat_all(cs),
    decreases cs.len(),
{
    let e = Seq::<Seq<u8>>::empty();
    assert(concat_all(e) == Seq::<u8>::empty());
    if cs.len() == 0 {
        assert(seq![h] + cs == seq![h]);
        assert(seq![h].drop_last() == e);
        assert(concat_all(seq![h]) == concat_all(e) + h);
        assert(Seq::<u8>::empty() + h == h);
        assert(h + Seq::<u8>::empty() == h);
    } else {
        lemma_concat_prepend(h, cs.drop_last());
        assert(concat_all(seq![h] + cs) == concat_all((seq![h] + cs).drop_last()) + (seq![h] + cs).last());
        assert(concat_all(cs) == concat_all(cs.drop_last()) + cs.last());
        assert((seq![h] + cs).drop_last() == seq![h] + cs.drop_last());
        assert((seq![h] + cs).last() == cs.last());
        assert(h + concat_all(cs.drop_last()) + cs.last() == h + (concat_all(cs.drop_last()) + cs.last()));
    }
}

/// PEM text rendered from base64 text reads back, through the splitter, as
/// exactly one block: the tag, and what the base64 text decodes to.
pub proof fn lemma_render_then_split(tag: Seq<u8>, b64: Seq<u8>, der: Seq<u8>)
    requires
        plain_tag(tag),
        forall|i: int| 0 <= i < b64.len() ==> is_base64_byte(#[trigger] b64[i]),
        base64_decoded(b64) == Some(der),
    ensures
        pem_blocks(pem_text(tag, b64)) == seq![(tag, der)],
{
    let head = begin_marker() + tag + dashes();
    let foot = end_marker() + tag + dashes();
    let t = pem_text(tag, b64);
    assert(t == head + seq![10u8] + (wrap64(b64) + foot));
    assert(no_newline(head)) by {
        assert forall|i: int| 0 <= i < head.len() implies head[i] != 10 by {
            if i >= 11 && i < 11 + tag.len() {
                assert(head[i] == tag[i - 11]);
            }
        }
    }
    assert(no_newline(foot)) by {
        assert forall|i: int| 0 <= i < foot.len() implies foot[i] != 10 by {
            if i >= 9 && i < 9 + tag.len() {
                assert(foot[i] == tag[i - 9]);
            }
        }
    }
    assert(no_newline(b64)) by {
        assert forall|i: int| 0 <= i < b64.len() implies b64[i] != 10 by {
            assert(is_base64_byte(b64[i]));
        }
    }
    lemma_lines_first(head, wrap64(b64) + foot, 0);
    lemma_lines_wrapped(b64, foot);
    let cs = chunks64(b64);
    let lines = seq![head] + (cs + seq![foot]);
    assert(lines_of(t) == lines);
    let m = cs.len() as int;
    lemma_marker(begin_marker(), tag);
    lemma_marker(end_marker(), tag);
    lemma_chunks_plain(b64);
    assert forall|q: int| 1 <= q <= m implies end_line_from(lines, tag, q) == m + 1 by {
        lemma_end_line(lines, tag, cs, q);
    }
    assert(end_line_from(lines, tag, m + 1) == m + 1);
    assert(end_line_from(lines, tag, 1) == m + 1);
    assert forall|q: int| 0 <= q < m implies lines[q + 1] == cs[q] by {}
    lemma_payload_chunks(lines, b64, m);
    assert(cs.subrange(0, m) == cs);
    lemma_chunks_concat(b64);
    assert(payload(lines, 1, m + 1) == b64);
    assert(blocks_from(lines, m + 2) == Seq::<(Seq<u8>, Seq<u8>)>::empty());
    assert(seq![(tag, der)] + Seq::<(Seq<u8>, Seq<u8>)>::empty() == seq![(tag, der)]);
}

proof fn lemma_end_line(lines: Seq<Seq<u8>>, tag: Seq<u8>, cs: Seq<Seq<u8>>, q: int)
    requires
        lines.len() >= cs.len() + 2,
        forall|k: int| 0 <= k < cs.len() ==> lines[k + 1] == cs[k],
        forall|k: int| 0 <= k < cs.len() ==> {
            &&& (#[trigger] cs[k]).len() > 0
            &&& forall|i: int| 0 <= i < cs[k].len() ==> is_base64_byte(#[trigger] cs[k][i])
        },
        marker_tag(lines[cs.len() as int + 1], end_marker()) == Some(tag),
        1 <= q <= cs.len() + 1,
    ensures
        end_line_from(lines, tag, q) == cs.len() + 1,
    decreases cs.len() + 1 - q,
{
    if q <= cs.len() {
        let c = cs[q - 1];
        assert(lines[q] == c);
        assert(is_base64_byte(c[0]) && is_base64_byte(c[c.len() - 1]));
        lemma_trim_plain(c);
        assert(!has_prefix(c, end_marker())) by {
            if c.len() >= end_marker().len() {
                assert(c.subrange(0, end_marker().len() as int)[0] == c[0]);
            }
        }
        lemma_end_line(lines, tag, cs, q + 1);
    }
}

/// A byte of base64 text or a line break.
pub open spec fn is_payload_byte(c: u8) -> bool {
    is_base64_byte(c) || c == 10
}

proof fn lemma_lines_wrapped_then(s: Seq<u8>, rest: Seq<u8>)
    requires
        no_newline(s),
    ensures
        lines_of(wrap64(s) + rest) == chunks64(s) + lines_of(rest),
    decreases s.len(),
{
    if s.len() == 0 {
        assert(wrap64(s) + rest == rest);
    } else if s.len() <= 64 {
        assert(wrap64(s) + rest == s + seq![10u8] + rest);
        lemma_lines_first(s, rest, 0);
    } else {
        let h = s.subrange(0, 64);
        let t = s.subrange(64, s.len() as int);
        lemma_lines_wrapped_then(t, rest);
        assert(wrap64(s) + rest == h + seq![10u8] + (wrap64(t) + rest));
        lemma_lines_first(h, wrap64(t) + rest, 0);
    }
}

proof fn lemma_lines_payload_bytes(t: Seq<u8>, i: int, s: int)
    requires
        0 <= s <= i <= t.len(),
        forall|k: int| 0 <= k < t.len() ==> is_payload_byte(#[trigger] t[k]),
        forall|k: int| s <= k < i ==> #[trigger] t[k] != 10,
    ensures
        forall|k: int, b: int| 0 <= k < lines_from(t, i, s).len() && 0 <= b < lines_from(t, i, s)[k].len()
            ==> is_base64_byte(#[trigger] lines_from(t, i, s)[k][b]),
    decreases t.len() - i,
{
    if i >= t.len() {
        if s < t.len() {
            let l = t.subrange(s, t.len() as int);
            assert forall|k: int, b: int| 0 <= k < lines_from(t, i, s).len() && 0 <= b < lines_from(t, i, s)[k].len()
                implies is_base64_byte(#[trigger] lines_from(t, i, s)[k][b]) by {
                assert(lines_from(t, i, s)[k] == l);
                assert(l[b] == t[s + b]);
                assert(is_payload_byte(t[s + b]));
                assert(t[s + b] != 10);
            }
        }
    } else if t[i] == 10 {
        lemma_lines_payload_bytes(t, i + 1, i + 1);
        let l = t.subrange(s, i);
        let rest = lines_from(t, i + 1, i + 1);
        assert forall|k: int, b: int| 0 <= k < lines_from(t, i, s).len() && 0 <= b < lines_from(t, i, s)[k].len()
            implies is_base64_byte(#[trigger] lines_from(t, i, s)[k][b]) by {
            if k == 0 {
                assert(lines_from(t, i, s)[k] == l);
                assert(l[b] == t[s + b]);
                assert(is_payload_byte(t[s + b]));
                assert(t[s + b] != 10);
            } else {
                assert(lines_from(t, i, s)[k] == rest[k - 1]);
            }
        }
    } else {
        lemma_lines_payload_bytes(t, i + 1, s);
        assert(lines_from(t, i, s) == lines_from(t, i + 1, s));
    }
}

proof fn lemma_plain_line_no_marker(l: Seq<u8>, prefix: Seq<u8>)
    requires
        forall|b: int| 0 <= b < l.len() ==> is_base64_byte(#[trigger] l[b]),
        prefix.len() > 0 && prefix[0] == 45,
    ensures
        marker_tag(l, prefix) is None,
{
    if l.len() > 0 {
        assert(is_base64_byte(l[0]) && is_base64_byte(l[l.len() - 1]));
        lemma_trim_plain(l);
        if l.len() >= prefix.len() {
            assert(l.subrange(0, prefix.len() as int)[0] == l[0]);
        }
    } else {
        assert(trim_start_bytes(l) == l);
        assert(trim_end_bytes(l) == l);
    }
}

proof fn lemma_plain_lines_no_blocks(lines: Seq<Seq<u8>>, tag: Seq<u8>, from: int)
    requires
        0 <= from,
        forall|k: int, b: int| from <= k < lines.len() && 0 <= b < lines[k].len() ==> is_base64_byte(#[trigger] lines[k][b]),
    ensures
        blocks_from(lines, from) == Seq::<(Seq<u8>, Seq<u8>)>::empty(),
        end_line_from(lines, tag, from) == lines.len(),
    decreases lines.len() - from,
{
    if from < lines.len() {
        lemma_plain_line_no_marker(lines[from], begin_marker());
        lemma_plain_line_no_marker(lines[from], end_marker());
        lemma_plain_lines_no_blocks(lines, tag, from + 1);
    }
}

/// A well-formed CERTIFICATE block followed by a BEGIN line whose END line
/// never comes (only base64 lines follow) reads as that one block: the
/// unterminated block is dropped without disturbing the first.
pub proof fn lemma_unterminated_block_dropped(b64: Seq<u8>, der: Seq<u8>, x: Seq<u8>)
    requires
        forall|i: int| 0 <= i < b64.len() ==> is_base64_byte(#[trigger] b64[i]),
        base64_decoded(b64) == Some(der),
        forall|i: int| 0 <= i < x.len() ==> is_payload_byte(#[trigger] x[i]),
    ensures
        pem_blocks(pem_text(certificate_tag(), b64) + seq![10u8] + (begin_marker() + certificate_tag() + dashes())
            + seq![10u8] + x) == seq![(certificate_tag(), der)],
{
    let tag = certificate_tag();
    lemma_certificate_tag_plain();
    let head = begin_marker() + tag + dashes();
    let foot = end_marker() + tag + dashes();
    let t = pem_text(tag, b64) + seq![10u8] + head + seq![10u8] + x;
    let after = foot + seq![10u8] + (head + seq![10u8] + x);
    assert(t == head + seq![10u8] + (wrap64(b64) + after));
    assert(no_newline(head)) by {
        assert forall|i: int| 0 <= i < head.len() implies head[i] != 10 by {
            if i >= 11 && i < 11 + tag.len() {
                assert(head[i] == tag[i - 11]);
            }
        }
    }
    assert(no_newline(foot)) by {
        assert forall|i: int| 0 <= i < foot.len() implies foot[i] != 10 by {
            if i >= 9 && i < 9 + tag.len() {
                assert(foot[i] == tag[i - 9]);
            }
        }
    }
    assert(no_newline(b64)) by {
        assert forall|i: int| 0 <= i < b64.len() implies b64[i] != 10 by {
            assert(is_base64_byte(b64[i]));
        }
    }
    lemma_lines_first(head, wrap64(b64) + after, 0);
    lemma_lines_wrapped_then(b64, after);
    lemma_lines_first(foot, head + seq![10u8] + x, 0);
    lemma_lines_first(head, x, 0);
    lemma_lines_payload_bytes(x, 0, 0);
    let cs = chunks64(b64);
    let xs = lines_of(x);
    let lines = seq![head] + (cs + (seq![foot] + (seq![head] + xs)));
    assert(lines_of(t) == lines);
    let m = cs.len() as int;
    lemma_marker(begin_marker(), tag);
    lemma_marker(end_marker(), tag);
    lemma_chunks_plain(b64);
    assert(lines[m + 1] == foot);
    assert(lines[m + 2] == head);
    assert forall|q: int| 1 <= q <= m implies end_line_from(lines, tag, q) == m + 1 by {
        lemma_end_line(lines, tag, cs, q);
    }
    assert(end_line_from(lines, tag, m + 1) == m + 1);
    assert(end_line_from(lines, tag, 1) == m + 1);
    assert forall|q: int| 0 <= q < m implies lines[q + 1] == cs[q] by {}
    lemma_payload_chunks(lines, b64, m);
    assert(cs.subrange(0, m) == cs);
    lemma_chunks_concat(b64);
    assert(payload(lines, 1, m + 1) == b64);
    assert forall|k: int, b: int| m + 3 <= k < lines.len() && 0 <= b < lines[k].len()
        implies is_base64_byte(#[trigger] lines[k][b]) by {
        assert(lines[k] == xs[k - m - 3]);
    }
    lemma_plain_lines_no_blocks(lines, tag, m + 3);
    assert(end_line_from(lines, tag, m + 3) == lines.len());
    assert(blocks_from(lines, m + 2) == blocks_from(lines, m + 3));
    assert(seq![(tag, der)] + Seq::<(Seq<u8>, Seq<u8>)>::empty() == seq![(tag, der)]);
}

} // verus!
