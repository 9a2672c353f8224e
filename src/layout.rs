//! The mathematical model of a protocol unit: where its fields lie in the
//! raw bytes, and which byte sequences are well-formed units.

use vstd::prelude::*;

verus! {

/// The byte `:` that ends the name.
pub const COLON: u8 = 0x3a;

/// The byte `|` that opens the type field and each optional field.
pub const PIPE: u8 = 0x7c;

/// The kind byte `@` of a sample-rate field.
pub const AT: u8 = 0x40;

/// The kind byte `#` of a tags field.
pub const HASH: u8 = 0x23;

/// The least `k` in `[lo, hi)` with `f(k)`, or `hi` when there is none.
pub open spec fn first_in(lo: int, hi: int, f: spec_fn(int) -> bool) -> int
    decreases hi - lo,
{
    if lo >= hi {
        hi
    } else if f(lo) {
        lo
    } else {
        first_in(lo + 1, hi, f)
    }
}

/// The greatest `k` in `[lo, hi)` with `f(k)`, or `lo - 1` when there is none.
pub open spec fn last_in(lo: int, hi: int, f: spec_fn(int) -> bool) -> int
    decreases hi - lo,
{
    if hi <= lo {
        lo - 1
    } else if f(hi - 1) {
        hi - 1
    } else {
        last_in(lo, hi - 1, f)
    }
}

/// The positions of `s` that hold byte `b`.
pub open spec fn byte_at(s: Seq<u8>, b: u8) -> spec_fn(int) -> bool {
    |k: int| s[k] == b
}

/// The position of the first `|`, which separates the value from the type;
/// `s.len()` when there is none.
pub open spec fn type_sep(s: Seq<u8>) -> int {
    first_in(0, s.len() as int, byte_at(s, PIPE))
}

/// The position of the last `:` before the type separator, which separates
/// the name from the value; `-1` when there is none.
pub open spec fn value_sep(s: Seq<u8>) -> int {
    last_in(0, type_sep(s), byte_at(s, COLON))
}

/// A `|` after the type separator that leaves room for a kind byte and at
/// least one more byte: it opens an optional field.
pub open spec fn is_marker(s: Seq<u8>, p: int) -> bool {
    type_sep(s) < p && p + 2 < s.len() && s[p] == PIPE
}

/// The marker positions of `s`.
pub open spec fn marker_at(s: Seq<u8>) -> spec_fn(int) -> bool {
    |p: int| is_marker(s, p)
}

/// The marker positions of `s` whose kind byte is `kind`.
pub open spec fn marker_of(s: Seq<u8>, kind: u8) -> spec_fn(int) -> bool {
    |p: int| is_marker(s, p) && s[p + 1] == kind
}

/// The first marker at or after `from`, or `s.len()` when there is none.
pub open spec fn next_marker(s: Seq<u8>, from: int) -> int {
    first_in(from, s.len() as int, marker_at(s))
}

/// Whether `s` is a well-formed unit: it has a type separator, a `:` before
/// it, and each marker is `@` or `#`, with no kind appearing twice.
pub open spec fn is_unit(s: Seq<u8>) -> bool {
    &&& type_sep(s) < s.len()
    &&& value_sep(s) >= 0
    &&& forall|p: int| #[trigger] is_marker(s, p) ==> s[p + 1] == AT || s[p + 1] == HASH
    &&& forall|p: int, q: int|
        #[trigger] is_marker(s, p) && #[trigger] is_marker(s, q) && s[p + 1] == s[q + 1] ==> p == q
}

/// The payload range of the optional field of the given kind: from just
/// after its kind byte up to the next marker, or to the end of `s`.
pub open spec fn field_range(s: Seq<u8>, kind: u8) -> Option<(int, int)> {
    let p = first_in(0, s.len() as int, marker_of(s, kind));
    if p < s.len() {
        Some((p + 2, next_marker(s, p + 1)))
    } else {
        None
    }
}

/// The field offsets of a unit over its raw bytes.
pub struct PduLayout {
    pub raw: Seq<u8>,
    /// First byte of the value, just after the name's `:`.
    pub value_index: int,
    /// First byte of the type, just after the first `|`.
    pub type_index: int,
    /// One past the last byte of the type.
    pub type_end: int,
    /// Half-open range of the sample-rate payload.
    pub sample_rate: Option<(int, int)>,
    /// Half-open range of the tags payload.
    pub tags: Option<(int, int)>,
}

/// The layout that parsing `s` records.
pub open spec fn parse_layout(s: Seq<u8>) -> PduLayout {
    PduLayout {
        raw: s,
        value_index: value_sep(s) + 1,
        type_index: type_sep(s) + 1,
        type_end: next_marker(s, type_sep(s) + 1),
        sample_rate: field_range(s, AT),
        tags: field_range(s, HASH),
    }
}

/// A range shifted right by `off` bytes.
pub open spec fn shift(r: Option<(int, int)>, off: int) -> Option<(int, int)> {
    match r {
        Some((a, e)) => Some((a + off, e + off)),
        None => None,
    }
}

impl PduLayout {
    /// An optional range of the given kind lies after the type, just past a
    /// `|` and its kind byte, and ends at a `|` or at the end of the bytes.
    pub open spec fn range_ok(self, r: Option<(int, int)>, kind: u8) -> bool {
        match r {
            Some((a, e)) => {
                &&& self.type_end + 2 <= a <= e <= self.raw.len()
                &&& self.raw[a - 2] == PIPE
                &&& self.raw[a - 1] == kind
                &&& (e == self.raw.len() || self.raw[e] == PIPE)
            },
            None => true,
        }
    }

    /// Offsets are ordered and in bounds; the name ends at a `:`, the value
    /// holds neither `:` nor `|` and ends at a `|`, the type ends at a `|`
    /// or at the end of the bytes, and each optional field follows its
    /// marker.
    pub open spec fn wf(self) -> bool {
        &&& 0 < self.value_index < self.type_index <= self.type_end <= self.raw.len()
        &&& self.raw[self.value_index - 1] == COLON
        &&& self.raw[self.type_index - 1] == PIPE
        &&& forall|k: int|
            self.value_index <= k < self.type_index - 1 ==> #[trigger] self.raw[k] != COLON
                && self.raw[k] != PIPE
        &&& (self.type_end == self.raw.len() || self.raw[self.type_end] == PIPE)
        &&& self.range_ok(self.sample_rate, AT)
        &&& self.range_ok(self.tags, HASH)
    }

    /// The bytes before the name's `:`.
    pub open spec fn name(self) -> Seq<u8> {
        self.raw.subrange(0, self.value_index - 1)
    }

    pub open spec fn value(self) -> Seq<u8> {
        self.raw.subrange(self.value_index, self.type_index - 1)
    }

    pub open spec fn pdu_type(self) -> Seq<u8> {
        self.raw.subrange(self.type_index, self.type_end)
    }

    /// The bytes an optional range covers.
    pub open spec fn bytes_of(self, r: Option<(int, int)>) -> Option<Seq<u8>> {
        match r {
            Some((a, e)) => Some(self.raw.subrange(a, e)),
            None => None,
        }
    }

    pub open spec fn sample_rate_bytes(self) -> Option<Seq<u8>> {
        self.bytes_of(self.sample_rate)
    }

    pub open spec fn tags_bytes(self) -> Option<Seq<u8>> {
        self.bytes_of(self.tags)
    }

    /// The layout with `prefix` and `suffix` put around the name; everything
    /// from the name's `:` on moves right by their total length.
    pub open spec fn renamed(self, prefix: Seq<u8>, suffix: Seq<u8>) -> PduLayout {
        let off = (prefix.len() + suffix.len()) as int;
        PduLayout {
            raw: prefix + self.name() + suffix + self.raw.subrange(self.value_index - 1, self.raw.len() as int),
            value_index: self.value_index + off,
            type_index: self.type_index + off,
            type_end: self.type_end + off,
            sample_rate: shift(self.sample_rate, off),
            tags: shift(self.tags, off),
        }
    }
}

/// A well-formed unit parses to a well-formed layout.
pub proof fn lemma_parse_wf(s: Seq<u8>)
    requires
        is_unit(s),
    ensures
        parse_layout(s).wf(),
{
    let t = type_sep(s) + 1;
    lemma_first_in_facts(0, s.len() as int, byte_at(s, PIPE));
    lemma_last_in_facts(0, type_sep(s), byte_at(s, COLON));
    lemma_first_in_facts(t, s.len() as int, marker_at(s));
    let te = next_marker(s, t);
    if te < s.len() {
        assert(marker_at(s)(te));
    }
    assert forall|k: int| value_sep(s) + 1 <= k < type_sep(s) implies #[trigger] s[k] != COLON
        && s[k] != PIPE by {
        assert(!byte_at(s, COLON)(k));
        assert(!byte_at(s, PIPE)(k));
    }
    lemma_range_wf(s, AT);
    lemma_range_wf(s, HASH);
}

/// The range of an optional field follows its marker, after the type, and
/// ends at the next marker or at the end.
proof fn lemma_range_wf(s: Seq<u8>, kind: u8)
    requires
        is_unit(s),
        kind != PIPE,
    ensures
        parse_layout(s).range_ok(field_range(s, kind), kind),
{
    let t = type_sep(s) + 1;
    lemma_first_in_facts(0, s.len() as int, byte_at(s, PIPE));
    lemma_first_in_facts(t, s.len() as int, marker_at(s));
    let p = first_in(0, s.len() as int, marker_of(s, kind));
    lemma_first_in_facts(0, s.len() as int, marker_of(s, kind));
    if p < s.len() {
        assert(marker_of(s, kind)(p));
        assert(!marker_at(s)(p) ==> p < next_marker(s, t));
        lemma_first_in_facts(p + 1, s.len() as int, marker_at(s));
        let e = first_in(p + 1, s.len() as int, marker_at(s));
        if e < s.len() {
            assert(marker_at(s)(e));
        }
    }
}

/// Renaming keeps a layout well-formed.
pub proof fn lemma_renamed_wf(l: PduLayout, prefix: Seq<u8>, suffix: Seq<u8>)
    requires
        l.wf(),
    ensures
        l.renamed(prefix, suffix).wf(),
{
    let r = l.renamed(prefix, suffix);
    let off = (prefix.len() + suffix.len()) as int;
    assert forall|k: int| l.value_index - 1 <= k < l.raw.len() implies r.raw[k + off] == l.raw[k] by {
        lemma_renamed_tail(l, prefix, suffix, k);
    }
    assert forall|k: int| r.value_index <= k < r.type_index - 1 implies #[trigger] r.raw[k] != COLON
        && r.raw[k] != PIPE by {
        lemma_renamed_tail(l, prefix, suffix, k - off);
    }
    assert(r.raw[r.value_index - 1] == l.raw[l.value_index - 1]);
    assert(r.raw[r.type_index - 1] == l.raw[l.type_index - 1]);
    if l.type_end < l.raw.len() {
        assert(r.raw[r.type_end] == l.raw[l.type_end]);
    }
    lemma_renamed_range(l, prefix, suffix, l.sample_rate, AT);
    lemma_renamed_range(l, prefix, suffix, l.tags, HASH);
}

/// Past the name, each byte of a renamed layout is the original byte moved
/// right by the length of the affixes.
pub proof fn lemma_renamed_tail(l: PduLayout, prefix: Seq<u8>, suffix: Seq<u8>, k: int)
    requires
        l.wf(),
        l.value_index - 1 <= k < l.raw.len(),
    ensures
        l.renamed(prefix, suffix).raw.len() == l.raw.len() + prefix.len() + suffix.len(),
        l.renamed(prefix, suffix).raw[k + prefix.len() + suffix.len()] == l.raw[k],
{
}

proof fn lemma_renamed_range(
    l: PduLayout,
    prefix: Seq<u8>,
    suffix: Seq<u8>,
    rg: Option<(int, int)>,
    kind: u8,
)
    requires
        l.wf(),
        l.range_ok(rg, kind),
    ensures
        l.renamed(prefix, suffix).range_ok(shift(rg, (prefix.len() + suffix.len()) as int), kind),
{
    let r = l.renamed(prefix, suffix);
    let off = (prefix.len() + suffix.len()) as int;
    if let Some((a, e)) = rg {
        lemma_renamed_tail(l, prefix, suffix, a - 2);
        lemma_renamed_tail(l, prefix, suffix, a - 1);
        if e < l.raw.len() {
            lemma_renamed_tail(l, prefix, suffix, e);
        }
    }
}

/// `first_in` is the `x` before which `f` never holds and at which it holds
/// (or which is the end).
pub proof fn lemma_first_in(lo: int, hi: int, f: spec_fn(int) -> bool, x: int)
    requires
        lo <= x <= hi,
        forall|k: int| lo <= k < x ==> !#[trigger] f(k),
        x == hi || f(x),
    ensures
        first_in(lo, hi, f) == x,
    decreases x - lo,
{
    if lo < x {
        lemma_first_in(lo + 1, hi, f, x);
    }
}

/// Positions before `mid` where `f` never holds do not change `first_in`.
pub proof fn lemma_first_in_skip(lo: int, mid: int, hi: int, f: spec_fn(int) -> bool)
    requires
        lo <= mid <= hi,
        forall|k: int| lo <= k < mid ==> !#[trigger] f(k),
    ensures
        first_in(lo, hi, f) == first_in(mid, hi, f),
    decreases mid - lo,
{
    if lo < mid {
        lemma_first_in_skip(lo + 1, mid, hi, f);
    }
}

/// Moving a predicate right by `off` moves `first_in` right by `off`.
pub proof fn lemma_first_in_shift(
    lo: int,
    hi: int,
    f: spec_fn(int) -> bool,
    g: spec_fn(int) -> bool,
    off: int,
)
    requires
        lo <= hi,
        forall|k: int| lo <= k < hi ==> #[trigger] g(k + off) == f(k),
    ensures
        first_in(lo + off, hi + off, g) == first_in(lo, hi, f) + off,
    decreases hi - lo,
{
    if lo < hi {
        assert(g(lo + off) == f(lo));
        lemma_first_in_shift(lo + 1, hi, f, g, off);
        assert(lo + 1 + off == lo + off + 1);
    }
}

/// What `first_in` returns lies in range, satisfies `f` unless it is the
/// end, and no earlier position does.
pub proof fn lemma_first_in_facts(lo: int, hi: int, f: spec_fn(int) -> bool)
    requires
        lo <= hi,
    ensures
        lo <= first_in(lo, hi, f) <= hi,
        first_in(lo, hi, f) < hi ==> f(first_in(lo, hi, f)),
        forall|k: int| lo <= k < first_in(lo, hi, f) ==> !#[trigger] f(k),
    decreases hi - lo,
{
    if lo < hi && !f(lo) {
        lemma_first_in_facts(lo + 1, hi, f);
    }
}

/// `last_in` is the `x` after which `f` never holds and at which it holds
/// (or which is `lo - 1`).
pub proof fn lemma_last_in(lo: int, hi: int, f: spec_fn(int) -> bool, x: int)
    requires
        lo - 1 <= x < hi,
        forall|k: int| x < k < hi ==> !#[trigger] f(k),
        x == lo - 1 || f(x),
    ensures
        last_in(lo, hi, f) == x,
    decreases hi - x,
{
    if x < hi - 1 {
        lemma_last_in(lo, hi - 1, f, x);
    }
}

/// What `last_in` returns lies in range and satisfies `f` unless it is
/// `lo - 1`, and no later position does.
pub proof fn lemma_last_in_facts(lo: int, hi: int, f: spec_fn(int) -> bool)
    requires
        lo <= hi,
    ensures
        lo - 1 <= last_in(lo, hi, f) < hi,
        last_in(lo, hi, f) >= lo ==> f(last_in(lo, hi, f)),
        forall|k: int| last_in(lo, hi, f) < k < hi ==> !#[trigger] f(k),
    decreases hi - lo,
{
    if lo < hi && !f(hi - 1) {
        lemma_last_in_facts(lo, hi - 1, f);
    }
}

} // verus!
