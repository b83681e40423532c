//! Splitting a query into decoded `(name, value)` pairs, as form-urlencoded
//! parsing does: pairs are separated by `&`, empty ones are skipped, and the
//! name ends at the first `=`.
use vstd::prelude::*;
use crate::form::{form_decode, form_decode_range};

verus! {

/// The position of the first `b` in `s`, or the length of `s` if there is none.
pub open spec fn index_of(s: Seq<u8>, b: u8) -> nat
    decreases s.len(),
{
    if s.len() == 0 {
        0
    } else if s[0] == b {
        0
    } else {
        1 + index_of(s.drop_first(), b)
    }
}

pub proof fn lemma_index_of(s: Seq<u8>, b: u8)
    ensures
        index_of(s, b) <= s.len(),
        forall|j: int| 0 <= j < index_of(s, b) ==> s[j] != b,
        index_of(s, b) < s.len() ==> s[index_of(s, b) as int] == b,
    decreases s.len(),
{
    if s.len() > 0 && s[0] != b {
        lemma_index_of(s.drop_first(), b);
        assert forall|j: int| 0 <= j < index_of(s, b) implies s[j] != b by {
            if j > 0 {
                assert(s[j] == s.drop_first()[j - 1]);
            }
        }
    }
}

/// One decoded pair: the bytes before the first `=` and those after it.
pub open spec fn decode_pair(seg: Seq<u8>) -> (Seq<u8>, Seq<u8>) {
    let i = index_of(seg, 61);
    if i < seg.len() {
        (form_decode(seg.subrange(0, i as int)), form_decode(seg.subrange(i as int + 1, seg.len() as int)))
    } else {
        (form_decode(seg), seq![])
    }
}

/// The decoded pairs of a query, in order.
pub open spec fn query_pairs(q: Seq<u8>) -> Seq<(Seq<u8>, Seq<u8>)>
    decreases q.len(),
{
    let i = index_of(q, 38);
    let head: Seq<(Seq<u8>, Seq<u8>)> = if i == 0 {
        seq![]
    } else {
        seq![decode_pair(q.subrange(0, i as int))]
    };
    if i < q.len() {
        head + query_pairs(q.subrange(i as int + 1, q.len() as int))
    } else {
        head
    }
}

pub open spec fn pairs_view(v: Seq<(Vec<u8>, Vec<u8>)>) -> Seq<(Seq<u8>, Seq<u8>)> {
    v.map_values(|p: (Vec<u8>, Vec<u8>)| (p.0@, p.1@))
}

/// The position of the first `b` in `s[start..end]`, or `end`.
pub fn find_byte(s: &[u8], start: usize, end: usize, b: u8) -> (r: usize)
    requires
        start <= end <= s@.len(),
    ensures
        r == start + index_of(s@.subrange(start as int, end as int), b),
        start <= r <= end,
{
    let mut j: usize = start;
    while j < end && s[j] != b
        invariant
            start <= j <= end <= s@.len(),
            forall|k: int| start <= k < j ==> s@[k] != b,
        decreases end - j,
    {
        j = j + 1;
    }
    proof {
        let sub = s@.subrange(start as int, end as int);
        lemma_index_of(sub, b);
        let i = index_of(sub, b);
        if i < j - start {
            assert(sub[i as int] == s@[start + i]);
        }
        if i > j - start {
            assert(sub[j - start] == s@[j as int]);
        }
    }
    j
}

/// Splits and decodes the query `s[start..end]`.
pub fn parse_query(s: &[u8], start: usize, end: usize) -> (r: Vec<(Vec<u8>, Vec<u8>)>)
    requires
        start <= end <= s@.len(),
    ensures
        pairs_view(r@) == query_pairs(s@.subrange(start as int, end as int)),
{
    let mut out: Vec<(Vec<u8>, Vec<u8>)> = Vec::new();
    let mut pos: usize = start;
    while pos < end
        invariant
            start <= pos <= end <= s@.len(),
            pairs_view(out@) + query_pairs(s@.subrange(pos as int, end as int)) == query_pairs(
                s@.subrange(start as int, end as int),
            ),
        decreases end - pos,
    {
        let ghost q = s@.subrange(pos as int, end as int);
        let ghost before = out@;
        let amp = find_byte(s, pos, end, 38);
        if amp > pos {
            let eq = find_byte(s, pos, amp, 61);
            let pair = if eq < amp {
                (form_decode_range(s, pos, eq), form_decode_range(s, eq + 1, amp))
            } else {
                (form_decode_range(s, pos, amp), Vec::new())
            };
            out.push(pair);
            proof {
                let seg = q.subrange(0, amp - pos);
                assert(seg =~= s@.subrange(pos as int, amp as int));
                let i = index_of(seg, 61);
                if eq < amp {
                    assert(seg.subrange(0, i as int) =~= s@.subrange(pos as int, eq as int));
                    assert(seg.subrange(i as int + 1, seg.len() as int) =~= s@.subrange(
                        eq + 1,
                        amp as int,
                    ));
                }
                assert(pairs_view(out@) =~= pairs_view(before).push(decode_pair(seg)));
            }
        }
        let next = if amp < end { amp + 1 } else { end };
        proof {
            if amp < end {
                assert(q.subrange(amp - pos + 1, q.len() as int) =~= s@.subrange(
                    next as int,
                    end as int,
                ));
            } else {
                assert(s@.subrange(next as int, end as int) =~= seq![]);
                assert(query_pairs(seq![]) =~= seq![]);
            }
            if amp == pos {
                assert(pairs_view(out@) =~= pairs_view(before));
            }
        }
        pos = next;
    }
    proof {
        assert(s@.subrange(pos as int, end as int) =~= seq![]);
        assert(query_pairs(seq![]) =~= seq![]);
        assert(pairs_view(out@) + seq![] =~= pairs_view(out@));
    }
    out
}

} // verus!
