//! Properties of parsing and renaming, stated over the model.

use vstd::prelude::*;
use crate::layout::{
    byte_at, field_range, first_in, is_marker, is_unit, lemma_first_in, lemma_first_in_facts,
    lemma_last_in, lemma_parse_wf, lemma_renamed_tail, lemma_first_in_skip,
    lemma_first_in_shift, next_marker, shift, marker_at, marker_of, parse_layout, type_sep, PduLayout,
    AT, COLON, HASH, PIPE,
};

verus! {

/// Every well-formed unit parses to a well-formed layout, and its name, a
/// `:`, its value, a `|` and its type spell out the unit up to the end of
/// the type.
pub proof fn lemma_unit_fields(s: Seq<u8>)
    requires
        is_unit(s),
    ensures
        parse_layout(s).wf(),
        parse_layout(s).name() + seq![COLON] + parse_layout(s).value() + seq![PIPE]
            + parse_layout(s).pdu_type() == s.subrange(0, parse_layout(s).type_end),
{
    let l = parse_layout(s);
    lemma_parse_wf(s);
    assert(l.name() + seq![COLON] + l.value() + seq![PIPE] + l.pdu_type() =~= s.subrange(
        0,
        l.type_end,
    ));
}

/// A line `name:value|type` whose name, value and type hold no `|`, and
/// whose value holds no `:`, is a unit with exactly those fields and no
/// optional ones.
pub proof fn lemma_plain_unit(name: Seq<u8>, value: Seq<u8>, ty: Seq<u8>)
    requires
        forall|k: int| 0 <= k < name.len() ==> name[k] != PIPE,
        forall|k: int| 0 <= k < value.len() ==> value[k] != PIPE && value[k] != COLON,
        forall|k: int| 0 <= k < ty.len() ==> ty[k] != PIPE,
    ensures
        is_unit(name + seq![COLON] + value + seq![PIPE] + ty),
        parse_layout(name + seq![COLON] + value + seq![PIPE] + ty).name() == name,
        parse_layout(name + seq![COLON] + value + seq![PIPE] + ty).value() == value,
        parse_layout(name + seq![COLON] + value + seq![PIPE] + ty).pdu_type() == ty,
        parse_layout(name + seq![COLON] + value + seq![PIPE] + ty).sample_rate is None,
        parse_layout(name + seq![COLON] + value + seq![PIPE] + ty).tags is None,
{
    let s = name + seq![COLON] + value + seq![PIPE] + ty;
    let c = name.len() as int;
    let t = c + 1 + value.len();
    assert(s[c] == COLON);
    assert(s[t] == PIPE);
    assert forall|k: int| 0 <= k < t implies !#[trigger] byte_at(s, PIPE)(k) by {
        if k < c {
            assert(s[k] == name[k]);
        } else if k > c {
            assert(s[k] == value[k - c - 1]);
        }
    }
    lemma_first_in(0, s.len() as int, byte_at(s, PIPE), t);
    assert forall|k: int| c < k < t implies !#[trigger] byte_at(s, COLON)(k) by {
        assert(s[k] == value[k - c - 1]);
    }
    lemma_last_in(0, t, byte_at(s, COLON), c);
    assert forall|p: int| #![trigger is_marker(s, p)] t < p < s.len() implies !is_marker(s, p) by {
        assert(s[p] == ty[p - t - 1]);
    }
    lemma_first_in(t + 1, s.len() as int, marker_at(s), s.len() as int);
    lemma_first_in(0, s.len() as int, marker_of(s, AT), s.len() as int);
    lemma_first_in(0, s.len() as int, marker_of(s, HASH), s.len() as int);
    let l = parse_layout(s);
    assert(l.name() =~= name);
    assert(l.value() =~= value);
    assert(l.pdu_type() =~= ty);
}

/// A line with no `|` has no type field and is not a unit.
pub proof fn lemma_no_type_sep_rejected(s: Seq<u8>)
    requires
        forall|k: int| 0 <= k < s.len() ==> s[k] != PIPE,
    ensures
        !is_unit(s),
{
    lemma_first_in(0, s.len() as int, byte_at(s, PIPE), s.len() as int);
}

/// A line with no `:` before its first `|` has no value separator and is
/// not a unit.
pub proof fn lemma_no_value_sep_rejected(s: Seq<u8>, i: int)
    requires
        0 <= i < s.len(),
        s[i] == PIPE,
        forall|k: int| 0 <= k < i ==> s[k] != COLON,
    ensures
        !is_unit(s),
{
    lemma_first_in_facts(0, s.len() as int, byte_at(s, PIPE));
    assert(!byte_at(s, PIPE)(i) || type_sep(s) <= i);
    lemma_last_in(0, type_sep(s), byte_at(s, COLON), -1);
}

/// Two markers of the same kind make a line that is not a unit.
pub proof fn lemma_repeated_marker_rejected(s: Seq<u8>, p: int, q: int)
    requires
        is_marker(s, p),
        is_marker(s, q),
        p != q,
        s[p + 1] == s[q + 1],
    ensures
        !is_unit(s),
{
}

/// Renaming puts the prefix and suffix around the name and keeps the
/// bytes of every other field.
pub proof fn lemma_rename_fields(l: PduLayout, prefix: Seq<u8>, suffix: Seq<u8>)
    requires
        l.wf(),
    ensures
        l.renamed(prefix, suffix).name() == prefix + l.name() + suffix,
        l.renamed(prefix, suffix).value() == l.value(),
        l.renamed(prefix, suffix).pdu_type() == l.pdu_type(),
        l.renamed(prefix, suffix).sample_rate_bytes() == l.sample_rate_bytes(),
        l.renamed(prefix, suffix).tags_bytes() == l.tags_bytes(),
{
    let r = l.renamed(prefix, suffix);
    assert(r.name() =~= prefix + l.name() + suffix);
    assert(r.value() =~= l.value());
    assert(r.pdu_type() =~= l.pdu_type());
    if let Some((a, e)) = l.sample_rate {
        assert(r.raw.subrange(r.sample_rate.unwrap().0, r.sample_rate.unwrap().1) =~= l.raw.subrange(a, e));
    }
    if let Some((a, e)) = l.tags {
        assert(r.raw.subrange(r.tags.unwrap().0, r.tags.unwrap().1) =~= l.raw.subrange(a, e));
    }
}

/// Renaming lengthens the unit by exactly the prefix and the suffix.
pub proof fn lemma_rename_len(l: PduLayout, prefix: Seq<u8>, suffix: Seq<u8>)
    requires
        l.wf(),
    ensures
        l.renamed(prefix, suffix).raw.len() == l.raw.len() + prefix.len() + suffix.len(),
{
}

/// Renaming with empty affixes gives back the same layout.
pub proof fn lemma_rename_empty(l: PduLayout)
    requires
        l.wf(),
    ensures
        l.renamed(Seq::empty(), Seq::empty()) == l,
{
    let r = l.renamed(Seq::empty(), Seq::empty());
    assert(r.raw =~= l.raw);
    assert(r.sample_rate == l.sample_rate);
    assert(r.tags == l.tags);
}

/// Renaming twice is one renaming with the prefixes and the suffixes
/// joined, the later prefix outermost.
pub proof fn lemma_rename_twice(
    l: PduLayout,
    p1: Seq<u8>,
    s1: Seq<u8>,
    p2: Seq<u8>,
    s2: Seq<u8>,
)
    requires
        l.wf(),
    ensures
        l.renamed(p1, s1).renamed(p2, s2) == l.renamed(p2 + p1, s1 + s2),
{
    let r1 = l.renamed(p1, s1);
    let head = p1 + l.name() + s1;
    let tail = l.raw.subrange(l.value_index - 1, l.raw.len() as int);
    assert(r1.raw == head + tail);
    assert(head.len() == r1.value_index - 1);
    assert(r1.name() =~= head);
    assert(r1.raw.subrange(r1.value_index - 1, r1.raw.len() as int) =~= tail);
    let a = r1.renamed(p2, s2);
    let b = l.renamed(p2 + p1, s1 + s2);
    assert(a.raw =~= b.raw);
    assert(a.sample_rate == b.sample_rate);
    assert(a.tags == b.tags);
}
/// Renaming a parsed unit with affixes that hold no `|` gives exactly the
/// unit that parsing the renamed bytes gives.
pub proof fn lemma_rename_reparses(s: Seq<u8>, prefix: Seq<u8>, suffix: Seq<u8>)
    requires
        is_unit(s),
        forall|k: int| 0 <= k < prefix.len() ==> prefix[k] != PIPE,
        forall|k: int| 0 <= k < suffix.len() ==> suffix[k] != PIPE,
    ensures
        is_unit(parse_layout(s).renamed(prefix, suffix).raw),
        parse_layout(parse_layout(s).renamed(prefix, suffix).raw) == parse_layout(s).renamed(
            prefix,
            suffix,
        ),
{
    let l = parse_layout(s);
    lemma_parse_wf(s);
    let r = l.renamed(prefix, suffix);
    let n = r.raw;
    let off = (prefix.len() + suffix.len()) as int;
    let ts = type_sep(s);
    let pl = prefix.len() as int;
    let nl = l.value_index - 1;
    let h = nl + off;
    lemma_first_in_facts(0, s.len() as int, byte_at(s, PIPE));
    lemma_renamed_tail(l, prefix, suffix, nl);
    assert forall|q: int| h <= q < n.len() implies #[trigger] n[q] == s[q - off] by {
        lemma_renamed_tail(l, prefix, suffix, q - off);
    }
    assert forall|k: int| 0 <= k < ts + off implies !#[trigger] byte_at(n, PIPE)(k) by {
        if k < pl {
            assert(n[k] == prefix[k]);
        } else if k < pl + nl {
            assert(n[k] == s[k - pl]);
            assert(!byte_at(s, PIPE)(k - pl));
        } else if k < h {
            assert(n[k] == suffix[k - pl - nl]);
        } else {
            assert(n[k] == s[k - off]);
            assert(!byte_at(s, PIPE)(k - off));
        }
    }
    assert(n[ts + off] == s[ts]);
    lemma_first_in(0, n.len() as int, byte_at(n, PIPE), ts + off);
    assert forall|k: int| h < k < ts + off implies !#[trigger] byte_at(n, COLON)(k) by {
        assert(n[k] == s[k - off]);
    }
    assert(n[h] == s[nl]);
    lemma_last_in(0, ts + off, byte_at(n, COLON), h);
    assert forall|q: int| ts + off < q < n.len() implies #[trigger] is_marker(n, q) == is_marker(
        s,
        q - off,
    ) && (q + 1 < n.len() ==> n[q + 1] == s[q - off + 1]) by {
        assert(n[q] == s[q - off]);
        if q + 1 < n.len() {
            assert(n[q + 1] == s[q + 1 - off]);
        }
    }
    assert forall|p: int| #[trigger] is_marker(n, p) implies n[p + 1] == AT || n[p + 1] == HASH by {
        assert(is_marker(s, p - off));
    }
    assert forall|p: int, q: int|
        #[trigger] is_marker(n, p) && #[trigger] is_marker(n, q) && n[p + 1] == n[q + 1] implies p
        == q by {
        assert(is_marker(s, p - off) && is_marker(s, q - off));
    }
    lemma_next_marker_shift(s, n, off, ts + 1);
    lemma_range_reparses(s, n, off, AT);
    lemma_range_reparses(s, n, off, HASH);
    assert(parse_layout(n).raw == r.raw);
}

/// The markers of the renamed bytes are those of the original, moved right
/// by `off`, so the next marker moves with them.
proof fn lemma_next_marker_shift(s: Seq<u8>, n: Seq<u8>, off: int, x: int)
    requires
        0 <= type_sep(s),
        type_sep(n) == type_sep(s) + off,
        n.len() == s.len() + off,
        type_sep(s) < x <= s.len(),
        forall|q: int| type_sep(s) + off < q < n.len() ==> #[trigger] is_marker(n, q) == is_marker(s, q - off),
    ensures
        next_marker(n, x + off) == next_marker(s, x) + off,
{
    assert forall|k: int| x <= k < s.len() implies #[trigger] marker_at(n)(k + off) == marker_at(s)(k) by {
        assert(is_marker(n, k + off) == is_marker(s, k + off - off));
    }
    lemma_first_in_shift(x, s.len() as int, marker_at(s), marker_at(n), off);
}

/// The optional ranges of the renamed bytes are those of the original,
/// moved right by `off`.
proof fn lemma_range_reparses(s: Seq<u8>, n: Seq<u8>, off: int, kind: u8)
    requires
        0 <= type_sep(s) < s.len(),
        0 <= off,
        type_sep(n) == type_sep(s) + off,
        n.len() == s.len() + off,
        forall|q: int| type_sep(s) + off < q < n.len() ==> #[trigger] is_marker(n, q) == is_marker(s, q - off)
            && (q + 1 < n.len() ==> n[q + 1] == s[q - off + 1]),
    ensures
        field_range(n, kind) == shift(field_range(s, kind), off),
{
    let ts = type_sep(s);
    assert forall|k: int| 0 <= k < ts + 1 + off implies !#[trigger] marker_of(n, kind)(k) by {}
    lemma_first_in_skip(0, ts + 1 + off, n.len() as int, marker_of(n, kind));
    assert forall|k: int| 0 <= k < ts + 1 implies !#[trigger] marker_of(s, kind)(k) by {}
    lemma_first_in_skip(0, ts + 1, s.len() as int, marker_of(s, kind));
    assert forall|k: int| ts + 1 <= k < s.len() implies #[trigger] marker_of(n, kind)(k + off)
        == marker_of(s, kind)(k) by {
        assert(is_marker(n, k + off) == is_marker(s, k + off - off));
    }
    lemma_first_in_shift(ts + 1, s.len() as int, marker_of(s, kind), marker_of(n, kind), off);
    let p = first_in(0, s.len() as int, marker_of(s, kind));
    lemma_first_in_facts(ts + 1, s.len() as int, marker_of(s, kind));
    if p < s.len() {
        assert forall|q: int| type_sep(s) + off < q < n.len() implies #[trigger] is_marker(n, q)
            == is_marker(s, q - off) by {}
        lemma_next_marker_shift(s, n, off, p + 1);
    }
}
} // verus!
