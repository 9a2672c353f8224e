//! The protocol unit: a shared buffer and the field offsets found in it.

use vstd::prelude::*;
use vstd::slice::slice_subrange;
use bytes::{Bytes, BytesMut};
use memchr::memchr;
use crate::buffers::{bytes_as_slice, bytes_view};
use crate::layout::{
    byte_at, field_range, is_marker, is_unit, lemma_first_in, lemma_last_in, marker_at, marker_of,
    lemma_parse_wf, lemma_renamed_wf, next_marker, parse_layout, type_sep, value_sep, PduLayout, AT, COLON, HASH, PIPE,
};

verus! {

/// An incoming StatsD protocol unit. It owns the message and hands out
/// references to its fields; only the field boundaries are parsed.
#[derive(Debug)]
pub struct StatsdPDU {
    underlying: Bytes,
    value_index: usize,
    type_index: usize,
    type_index_end: usize,
    sample_rate_index: Option<(usize, usize)>,
    tags_index: Option<(usize, usize)>,
}

/// A pair of offsets as integers.
pub open spec fn range_view(r: Option<(usize, usize)>) -> Option<(int, int)> {
    match r {
        Some((a, e)) => Some((a as int, e as int)),
        None => None,
    }
}

/// No marker of `s` lies in `[a, b)`.
spec fn no_marker(s: Seq<u8>, a: int, b: int) -> bool {
    forall|p: int| a <= p < b ==> !#[trigger] is_marker(s, p)
}

/// No marker of `s` with kind byte `kind` lies in `[a, b)`.
spec fn no_marker_of(s: Seq<u8>, kind: u8, a: int, b: int) -> bool {
    forall|p: int| a <= p < b ==> !(#[trigger] is_marker(s, p) && s[p + 1] == kind)
}

/// Each marker in `[a, b)` has a known kind.
spec fn kinds_known(s: Seq<u8>, a: int, b: int) -> bool {
    forall|p: int| a <= p < b && #[trigger] is_marker(s, p) ==> s[p + 1] == AT || s[p + 1] == HASH
}

/// The end of the type field as recorded once the markers before `scan`
/// have been seen: the first of them, or the end of `s`.
spec fn type_end_scanned(s: Seq<u8>, te: int, scan: int) -> bool {
    let t = type_sep(s) + 1;
    ||| te == s.len() && no_marker(s, t, scan)
    ||| t <= te < scan && is_marker(s, te) && no_marker(s, t, te)
}

/// The range recorded for the optional field of kind `kind` once the
/// markers before `scan` have been seen: it opens at the one marker of that
/// kind, and ends at the next marker seen, or at the end of `s`.
spec fn field_scanned(s: Seq<u8>, kind: u8, r: Option<(usize, usize)>, scan: int) -> bool {
    let t = type_sep(s) + 1;
    match r {
        None => no_marker_of(s, kind, t, scan),
        Some((a, e)) => {
            let p = a - 2;
            &&& t <= p < scan
            &&& is_marker(s, p)
            &&& s[p + 1] == kind
            &&& no_marker_of(s, kind, t, p)
            &&& no_marker_of(s, kind, p + 1, scan)
            &&& {
                ||| e == s.len() && no_marker(s, p + 1, scan)
                ||| p < e < scan && is_marker(s, e as int) && no_marker(s, p + 1, e as int)
            }
        },
    }
}

/// Once no marker is left past `scan`, the end of the type recorded by the
/// scan is the one the model gives.
proof fn lemma_type_end_complete(s: Seq<u8>, te: int, scan: int)
    requires
        0 <= type_sep(s) < s.len(),
        type_sep(s) + 1 <= scan <= s.len(),
        type_end_scanned(s, te, scan),
        no_marker(s, scan, s.len() as int),
    ensures
        te == next_marker(s, type_sep(s) + 1),
{
    lemma_first_in(type_sep(s) + 1, s.len() as int, marker_at(s), te);
}

/// Once no marker is left past `scan`, the range recorded for a field is
/// the one the model gives.
proof fn lemma_field_complete(s: Seq<u8>, kind: u8, r: Option<(usize, usize)>, scan: int)
    requires
        0 <= type_sep(s) < s.len(),
        type_sep(s) + 1 <= scan <= s.len(),
        field_scanned(s, kind, r, scan),
        no_marker(s, scan, s.len() as int),
    ensures
        range_view(r) == field_range(s, kind),
        forall|p: int, q: int|
            #[trigger] is_marker(s, p) && #[trigger] is_marker(s, q) && s[p + 1] == kind && s[q + 1] == kind ==> p == q,
{
    match r {
        Some((a, e)) => {
            let p = a as int - 2;
            assert forall|k: int| 0 <= k < p implies !#[trigger] marker_of(s, kind)(k) by {
                if type_sep(s) < k {
                    assert(!(is_marker(s, k) && s[k + 1] == kind));
                }
            }
            assert(marker_of(s, kind)(p));
            lemma_first_in(0, s.len() as int, marker_of(s, kind), p);
            lemma_first_in(p + 1, s.len() as int, marker_at(s), e as int);
        },
        None => {
            lemma_first_in(0, s.len() as int, marker_of(s, kind), s.len() as int);
        },
    }
}

impl Clone for StatsdPDU {
    /// Another handle to the same unit; the bytes are shared, not copied.
    fn clone(&self) -> (r: Self)
        ensures
            r@ == self@,
            r@.wf(),
    {
        proof {
            use_type_invariant(self);
        }
        StatsdPDU {
            underlying: self.underlying.clone(),
            value_index: self.value_index,
            type_index: self.type_index,
            type_index_end: self.type_index_end,
            sample_rate_index: self.sample_rate_index,
            tags_index: self.tags_index,
        }
    }
}

impl View for StatsdPDU {
    type V = PduLayout;

    closed spec fn view(&self) -> PduLayout {
        PduLayout {
            raw: bytes_view(self.underlying),
            value_index: self.value_index as int,
            type_index: self.type_index as int,
            type_end: self.type_index_end as int,
            sample_rate: range_view(self.sample_rate_index),
            tags: range_view(self.tags_index),
        }
    }
}

impl StatsdPDU {
    #[verifier::type_invariant]
    spec fn inv(&self) -> bool {
        self@.wf()
    }

    /// The metric name: everything before the `:` that opens the value.
    pub fn name(&self) -> (r: &[u8])
        ensures
            self@.wf(),
            r@ == self@.name(),
    {
        proof {
            use_type_invariant(self);
        }
        slice_subrange(bytes_as_slice(&self.underlying), 0, self.value_index - 1)
    }

    /// The value, between the name's `:` and the first `|`.
    pub fn value(&self) -> (r: &[u8])
        ensures
            self@.wf(),
            r@ == self@.value(),
    {
        proof {
            use_type_invariant(self);
        }
        slice_subrange(bytes_as_slice(&self.underlying), self.value_index, self.type_index - 1)
    }

    /// The type, after the first `|` up to the first marker.
    pub fn pdu_type(&self) -> (r: &[u8])
        ensures
            self@.wf(),
            r@ == self@.pdu_type(),
    {
        proof {
            use_type_invariant(self);
        }
        slice_subrange(bytes_as_slice(&self.underlying), self.type_index, self.type_index_end)
    }

    /// The payload of the tags field, if the unit has one.
    pub fn tags(&self) -> (r: Option<&[u8]>)
        ensures
            match r {
                Some(b) => self@.tags_bytes() == Some(b@),
                None => self@.tags_bytes() is None,
            },
            self@.wf(),
    {
        proof {
            use_type_invariant(self);
        }
        match self.tags_index {
            Some((a, e)) => Some(slice_subrange(bytes_as_slice(&self.underlying), a, e)),
            None => None,
        }
    }

    /// The payload of the sample-rate field, if the unit has one.
    pub fn sample_rate(&self) -> (r: Option<&[u8]>)
        ensures
            match r {
                Some(b) => self@.sample_rate_bytes() == Some(b@),
                None => self@.sample_rate_bytes() is None,
            },
            self@.wf(),
    {
        proof {
            use_type_invariant(self);
        }
        match self.sample_rate_index {
            Some((a, e)) => Some(slice_subrange(bytes_as_slice(&self.underlying), a, e)),
            None => None,
        }
    }

    /// The length in bytes of the whole unit.
    pub fn len(&self) -> (r: usize)
        ensures
            self@.wf(),
            r == self@.raw.len(),
    {
        proof {
            use_type_invariant(self);
        }
        self.underlying.len()
    }

    /// The raw bytes of the whole unit.
    pub fn as_ref(&self) -> (r: &[u8])
        ensures
            self@.wf(),
            r@ == self@.raw,
    {
        proof {
            use_type_invariant(self);
        }
        bytes_as_slice(&self.underlying)
    }

    /// A copy of the unit whose name has `prefix` before it and `suffix`
    /// after it; every other field keeps its bytes.
    pub fn with_prefix_suffix(&self, prefix: &[u8], suffix: &[u8]) -> (r: Self)
        requires
            self@.raw.len() + prefix@.len() + suffix@.len() <= isize::MAX,
        ensures
            self@.wf(),
            r@ == self@.renamed(prefix@, suffix@),
            r@.wf(),
    {
        proof {
            use_type_invariant(self);
            lemma_renamed_wf(self@, prefix@, suffix@);
        }
        let offset = suffix.len() + prefix.len();
        let length = self.len();
        let mut buf = BytesMut::with_capacity(length + offset);
        buf.extend_from_slice(prefix);
        buf.extend_from_slice(self.name());
        buf.extend_from_slice(suffix);
        buf.extend_from_slice(slice_subrange(self.as_ref(), self.value_index - 1, length));
        let sample_rate_index = match self.sample_rate_index {
            Some((b, e)) => Some((b + offset, e + offset)),
            None => None,
        };
        let tags_index = match self.tags_index {
            Some((b, e)) => Some((b + offset, e + offset)),
            None => None,
        };
        let r = StatsdPDU {
            underlying: buf.freeze(),
            value_index: self.value_index + offset,
            type_index: self.type_index + offset,
            type_index_end: self.type_index_end + offset,
            sample_rate_index,
            tags_index,
        };
        assert(r@.raw =~= self@.renamed(prefix@, suffix@).raw);
        r
    }

    /// Parses one protocol unit, recording where its fields lie. Returns
    /// `None` when `line` is not a well-formed unit.
    pub fn new(line: Bytes) -> (r: Option<Self>)
        ensures
            r is Some <==> is_unit(bytes_view(line)),
            r matches Some(u) ==> u@ == parse_layout(bytes_view(line)) && u@.wf(),
    {
        let ghost s = bytes_view(line);
        let length = line.len();
        let buf = bytes_as_slice(&line);
        let mut value_index: usize = 0;
        // Names may hold ':' themselves: find the type separator first, then
        // walk to the last ':' before it.
        let type_index = match memchr(PIPE, buf) {
            Some(i) => i + 1,
            None => {
                proof {
                    lemma_first_in(0, s.len() as int, byte_at(s, PIPE), s.len() as int);
                }
                return None;
            },
        };
        proof {
            lemma_first_in(0, s.len() as int, byte_at(s, PIPE), type_index - 1);
        }
        loop
            invariant
                buf@ == s,
                s == bytes_view(line),
                length == s.len(),
                type_index == type_sep(s) + 1,
                type_sep(s) < s.len(),
                s[type_sep(s)] == PIPE,
                value_index < type_index,
                value_index == 0 || s[value_index - 1] == COLON,
            ensures
                0 < value_index < type_index,
                value_index == value_sep(s) + 1,
            decreases type_index - value_index,
        {
            let rest = slice_subrange(buf, value_index, type_index);
            let found = memchr(COLON, rest);
            match found {
                None => {
                    proof {
                        assert forall|k: int| value_index - 1 < k < type_sep(s) implies
                            !#[trigger] byte_at(s, COLON)(k) by {
                            assert(rest@[k - value_index] == s[k]);
                        }
                    }
                    if value_index == 0 {
                        proof {
                            lemma_last_in(0, type_sep(s), byte_at(s, COLON), -1);
                        }
                        return None;
                    }
                    proof {
                        lemma_last_in(0, type_sep(s), byte_at(s, COLON), value_index - 1);
                    }
                    break;
                },
                Some(j) => {
                    assert(rest@[j as int] == s[j + value_index]);
                    value_index = j + value_index + 1;
                },
            }
        }
        let mut type_index_end = length;
        let mut sample_rate_index: Option<(usize, usize)> = None;
        let mut tags_index: Option<(usize, usize)> = None;
        let mut scan_index = type_index;
        loop
            invariant
                buf@ == s,
                s == bytes_view(line),
                length == s.len(),
                type_index == type_sep(s) + 1,
                type_sep(s) < s.len(),
                s[type_sep(s)] == PIPE,
                0 < value_index < type_index,
                value_index == value_sep(s) + 1,
                type_index <= scan_index <= length,
                type_end_scanned(s, type_index_end as int, scan_index as int),
                kinds_known(s, type_index as int, scan_index as int),
                field_scanned(s, AT, sample_rate_index, scan_index as int),
                field_scanned(s, HASH, tags_index, scan_index as int),
            ensures
                0 < value_index < type_index <= scan_index <= length,
                value_index == value_sep(s) + 1,
                type_end_scanned(s, type_index_end as int, scan_index as int),
                kinds_known(s, type_index as int, scan_index as int),
                field_scanned(s, AT, sample_rate_index, scan_index as int),
                field_scanned(s, HASH, tags_index, scan_index as int),
                no_marker(s, scan_index as int, length as int),
            decreases length - scan_index,
        {
            let rest = slice_subrange(buf, scan_index, length);
            let index = match memchr(PIPE, rest) {
                Some(j) => j + scan_index,
                None => {
                    proof {
                        assert forall|p: int| scan_index <= p < length implies
                            !#[trigger] is_marker(s, p) by {
                            assert(rest@[p - scan_index] == s[p]);
                        }
                    }
                    break;
                },
            };
            assert(rest@[index - scan_index] == s[index as int]);
            assert forall|p: int| scan_index <= p < index implies !#[trigger] is_marker(s, p) by {
                assert(rest@[p - scan_index] == s[p]);
            }
            // A '|' too close to the end to open a field belongs to what
            // precedes it.
            if length - index <= 2 {
                break;
            }
            assert(is_marker(s, index as int));
            if index < type_index_end {
                type_index_end = index;
            }
            let kind = buf[index + 1];
            if kind == AT {
                if sample_rate_index.is_some() {
                    return None;
                }
                sample_rate_index = Some((index + 2, length));
                tags_index = match tags_index {
                    Some((v, _end)) => Some((v, index)),
                    None => None,
                };
            } else if kind == HASH {
                if tags_index.is_some() {
                    return None;
                }
                tags_index = Some((index + 2, length));
                sample_rate_index = match sample_rate_index {
                    Some((v, _end)) => Some((v, index)),
                    None => None,
                };
            } else {
                return None;
            }
            scan_index = index + 1;
        }
        proof {
            lemma_type_end_complete(s, type_index_end as int, scan_index as int);
            lemma_field_complete(s, AT, sample_rate_index, scan_index as int);
            lemma_field_complete(s, HASH, tags_index, scan_index as int);
            assert(is_unit(s));
            lemma_parse_wf(s);
        }
        Some(StatsdPDU {
            underlying: line,
            value_index,
            type_index,
            type_index_end,
            sample_rate_index,
            tags_index,
        })
    }
}

} // verus!
