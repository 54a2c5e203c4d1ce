//! Ordering of the distinct capture instants and their output indices.
use vstd::prelude::*;
use crate::datetime::{precedes, PhotoDate};

verus! {

/// Strictly increasing in time, hence without repeats.
pub open spec fn strictly_ascending(s: Seq<PhotoDate>) -> bool {
    forall|i: int, j: int| 0 <= i < j < s.len() ==> precedes(#[trigger] s[i], #[trigger] s[j])
}

proof fn lemma_ascending_len(s: Seq<PhotoDate>)
    requires
        strictly_ascending(s),
    ensures
        s.no_duplicates(),
        s.len() == s.to_set().len(),
{
    assert forall|i: int, j: int| 0 <= i < s.len() && 0 <= j < s.len() && i != j implies s[i] != s[j] by {
        if i < j {
            assert(precedes(s[i], s[j]));
        } else {
            assert(precedes(s[j], s[i]));
        }
    }
    s.unique_seq_to_set();
}

/// Only one strictly ascending sequence holds a given set of keys.
pub proof fn lemma_ascending_unique(s1: Seq<PhotoDate>, s2: Seq<PhotoDate>)
    requires
        strictly_ascending(s1),
        strictly_ascending(s2),
        s1.to_set() == s2.to_set(),
    ensures
        s1 == s2,
{
    lemma_ascending_len(s1);
    lemma_ascending_len(s2);
    if s1 != s2 {
        assert(exists|i: int| 0 <= i < s1.len() && s1[i] != s2[i]) by {
            if forall|i: int| 0 <= i < s1.len() ==> s1[i] == s2[i] {
                assert(s1 =~= s2);
            }
        }
        lemma_first_difference(s1, s2);
        let i = choose|i: int| 0 <= i < s1.len() && s1[i] != s2[i] && forall|j: int| 0 <= j < i ==> s1[j] == s2[j];
        lemma_not_before_place(s1, s2, i);
        lemma_not_before_place(s2, s1, i);
    }
}

proof fn lemma_first_difference(s1: Seq<PhotoDate>, s2: Seq<PhotoDate>)
    requires
        s1.len() == s2.len(),
        exists|i: int| 0 <= i < s1.len() && s1[i] != s2[i],
    ensures
        exists|i: int| 0 <= i < s1.len() && s1[i] != s2[i] && forall|j: int| 0 <= j < i ==> s1[j] == s2[j],
    decreases s1.len(),
{
    let k = choose|i: int| 0 <= i < s1.len() && s1[i] != s2[i];
    if exists|i: int| 0 <= i < k && s1[i] != s2[i] {
        let w = choose|i: int| 0 <= i < k && s1[i] != s2[i];
        assert(s1.subrange(0, k)[w] != s2.subrange(0, k)[w]);
        lemma_first_difference(s1.subrange(0, k), s2.subrange(0, k));
        let i = choose|i: int| 0 <= i < k && s1.subrange(0, k)[i] != s2.subrange(0, k)[i] && forall|j: int|
            0 <= j < i ==> s1.subrange(0, k)[j] == s2.subrange(0, k)[j];
        assert forall|j: int| 0 <= j < i implies s1[j] == s2[j] by {
            assert(s1.subrange(0, k)[j] == s2.subrange(0, k)[j]);
        }
        assert(s1[i] != s2[i]);
    } else {
        assert forall|j: int| 0 <= j < k implies s1[j] == s2[j] by {}
    }
}

proof fn lemma_not_before_place(a: Seq<PhotoDate>, b: Seq<PhotoDate>, i: int)
    requires
        strictly_ascending(a),
        strictly_ascending(b),
        a.to_set() == b.to_set(),
        a.len() == b.len(),
        0 <= i < a.len(),
        forall|j: int| 0 <= j < i ==> a[j] == b[j],
    ensures
        !precedes(a[i], b[i]),
{
    assert(a.to_set().contains(a[i]));
    assert(b.to_set().contains(a[i]));
    let j = choose|j: int| 0 <= j < b.len() && b[j] == a[i];
    if j < i {
        assert(a[j] == b[j]);
        assert(precedes(a[j], a[i]));
    } else if j > i {
        assert(precedes(b[i], b[j]));
    }
}

/// `r` numbers the distinct keys of `keys` in ascending order from `start`.
pub open spec fn assignment_of(keys: Seq<PhotoDate>, start: int, r: Seq<(usize, PhotoDate)>) -> bool {
    &&& strictly_ascending(r.map_values(|p: (usize, PhotoDate)| p.1))
    &&& r.map_values(|p: (usize, PhotoDate)| p.1).to_set() == keys.to_set()
    &&& forall|i: int| 0 <= i < r.len() ==> (#[trigger] r[i]).0 == start + i
}

/// The distinct keys of `keys`, in ascending order.
pub fn sorted_distinct(keys: &Vec<PhotoDate>) -> (r: Vec<PhotoDate>)
    ensures
        strictly_ascending(r@),
        r@.to_set() == keys@.to_set(),
        r@.len() <= keys@.len(),
{
    let mut out: Vec<PhotoDate> = Vec::new();
    let mut i: usize = 0;
    while i < keys.len()
        invariant
            i <= keys@.len(),
            strictly_ascending(out@),
            out@.to_set() == keys@.subrange(0, i as int).to_set(),
            out@.len() <= i,
        decreases keys@.len() - i,
    {
        let k = keys[i];
        let mut pos: usize = 0;
        while pos < out.len() && out[pos].is_before(&k)
            invariant
                pos <= out@.len(),
                forall|a: int| 0 <= a < pos ==> precedes(#[trigger] out@[a], k),
            decreases out@.len() - pos,
        {
            pos = pos + 1;
        }
        let ghost before = out@;
        proof {
            assert(keys@.subrange(0, i + 1) =~= keys@.subrange(0, i as int).push(k));
            keys@.subrange(0, i as int).lemma_push_to_set_commute(k);
        }
        if pos < out.len() && out[pos] == k {
            assert(out@.to_set().contains(k));
            assert(out@.to_set() =~= out@.to_set().insert(k));
        } else {
            out.insert(pos, k);
            assert(out@ =~= before.insert(pos as int, k));
            assert forall|a: int, b: int| 0 <= a < b < out@.len() implies precedes(
                #[trigger] out@[a],
                #[trigger] out@[b],
            ) by {
                if b == pos {
                    assert(precedes(before[a], k));
                } else if a == pos {
                    assert(out@[b] == before[b - 1]);
                    assert(!precedes(before[pos as int], k));
                    if b - 1 > pos {
                        assert(precedes(before[pos as int], before[b - 1]));
                    }
                } else if a < pos && b > pos {
                    assert(out@[b] == before[b - 1]);
                    assert(precedes(before[a], before[b - 1]));
                }
            }
            assert(out@.to_set() =~= before.to_set().insert(k)) by {
                assert forall|x: PhotoDate| out@.to_set().contains(x) <==> before.to_set().insert(k).contains(
                    x,
                ) by {
                    if out@.to_set().contains(x) {
                        let a = choose|a: int| 0 <= a < out@.len() && out@[a] == x;
                        if a < pos {
                            assert(before[a] == x);
                        } else if a > pos {
                            assert(before[a - 1] == x);
                        }
                    }
                    if before.to_set().contains(x) {
                        let a = choose|a: int| 0 <= a < before.len() && before[a] == x;
                        if a < pos {
                            assert(out@[a] == x);
                        } else {
                            assert(out@[a + 1] == x);
                        }
                    }
                    if x == k {
                        assert(out@[pos as int] == k);
                    }
                }
            }
        }
        i = i + 1;
    }
    assert(keys@.subrange(0, keys@.len() as int) =~= keys@);
    out
}

/// Numbers each distinct key of `keys`, in ascending order, from `start`.
pub fn assign(keys: &Vec<PhotoDate>, start: usize) -> (r: Vec<(usize, PhotoDate)>)
    requires
        start + keys@.to_set().len() <= usize::MAX + 1,
    ensures
        assignment_of(keys@, start as int, r@),
{
    let sorted = sorted_distinct(keys);
    proof {
        lemma_ascending_len(sorted@);
    }
    let mut r: Vec<(usize, PhotoDate)> = Vec::new();
    let mut i: usize = 0;
    while i < sorted.len()
        invariant
            i <= sorted@.len(),
            start + sorted@.len() <= usize::MAX + 1,
            r@.len() == i,
            forall|a: int| 0 <= a < i ==> (#[trigger] r@[a]).0 == start + a && r@[a].1 == sorted@[a],
        decreases sorted@.len() - i,
    {
        r.push((start + i, sorted[i]));
        i = i + 1;
    }
    assert(r@.map_values(|p: (usize, PhotoDate)| p.1) =~= sorted@);
    r
}

/// Given keys without repeats, in any order, the assignment has exactly one
/// entry per key, numbered `start`, `start + 1`, ... in ascending key order.
pub proof fn lemma_distinct_keys_numbered(keys: Seq<PhotoDate>, start: int, r: Seq<(usize, PhotoDate)>)
    requires
        keys.no_duplicates(),
        assignment_of(keys, start, r),
    ensures
        r.len() == keys.len(),
        forall|i: int| 0 <= i < r.len() ==> (#[trigger] r[i]).0 == start + i,
        forall|i: int, j: int| 0 <= i < j < r.len() ==> (#[trigger] r[i]).0 < (#[trigger] r[j]).0 && precedes(r[i].1, r[j].1),
        forall|k: PhotoDate| keys.contains(k) ==> exists|i: int| 0 <= i < r.len() && (#[trigger] r[i]).1 == k,
{
    let s = r.map_values(|p: (usize, PhotoDate)| p.1);
    lemma_ascending_len(s);
    keys.unique_seq_to_set();
    assert forall|i: int, j: int| 0 <= i < j < r.len() implies (#[trigger] r[i]).0 < (#[trigger] r[j]).0 && precedes(r[i].1, r[j].1) by {
        assert(precedes(s[i], s[j]));
    }
    assert forall|k: PhotoDate| keys.contains(k) implies exists|i: int| 0 <= i < r.len() && (#[trigger] r[i]).1 == k by {
        assert(keys.to_set().contains(k));
        assert(s.to_set().contains(k));
        let i = choose|i: int| 0 <= i < s.len() && s[i] == k;
        assert(r[i].1 == k);
    }
}

} // verus!
