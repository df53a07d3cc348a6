//! Sorting of integer vectors (by `slice::sort`) and de-duplication of runs of equal neighbours.
use vstd::prelude::*;

verus! {

pub open spec fn sorted(s: Seq<i128>) -> bool {
    forall|i: int, j: int| 0 <= i <= j < s.len() ==> s[i] <= s[j]
}

pub open spec fn strictly_increasing(s: Seq<i128>) -> bool {
    forall|i: int, j: int| 0 <= i < j < s.len() ==> s[i] < s[j]
}

/// What `Vec::dedup` leaves of `s`: each run of equal neighbours collapsed to one.
pub open spec fn dedup_spec(s: Seq<i128>) -> Seq<i128>
    decreases s.len(),
{
    if s.len() <= 1 {
        s
    } else if s.last() == s[s.len() - 2] {
        dedup_spec(s.drop_last())
    } else {
        dedup_spec(s.drop_last()).push(s.last())
    }
}

/// Calls `slice::sort` (stable sort): the result is sorted and a permutation.
#[verifier::external_body]
pub(crate) fn sort_i128(v: &mut Vec<i128>)
    ensures
        sorted(final(v)@),
        final(v)@.to_multiset() == old(v)@.to_multiset(),
        final(v)@.len() == old(v)@.len(),
        forall|x: i128| final(v)@.contains(x) <==> old(v)@.contains(x),
{
    v.sort()
}

/// The last element survives de-duplication.
proof fn lemma_dedup_last(s: Seq<i128>)
    requires
        s.len() > 0,
    ensures
        dedup_spec(s).len() > 0,
        dedup_spec(s).last() == s.last(),
    decreases s.len(),
{
    if s.len() > 1 {
        lemma_dedup_last(s.drop_last());
    }
}

/// Removes consecutive equal elements, keeping the first of each run.
pub(crate) fn dedup_i128(v: &mut Vec<i128>)
    ensures
        final(v)@ == dedup_spec(old(v)@),
{
    let mut out: Vec<i128> = Vec::new();
    let mut i: usize = 0;
    assert(v@.take(0) =~= Seq::<i128>::empty());
    while i < v.len()
        invariant
            i <= v@.len(),
            out@ == dedup_spec(v@.take(i as int)),
        decreases v@.len() - i,
    {
        let x = v[i];
        let ghost t = v@.take(i + 1);
        proof {
            assert(t.drop_last() =~= v@.take(i as int));
            assert(t.last() == x);
            if i > 0 {
                lemma_dedup_last(v@.take(i as int));
                assert(t[t.len() - 2] == v@.take(i as int).last());
            }
        }
        if out.len() == 0 || out[out.len() - 1] != x {
            out.push(x);
        }
        i = i + 1;
    }
    assert(v@.take(v@.len() as int) =~= v@);
    *v = out;
}

/// On a sorted sequence, de-duplication gives a strictly increasing sequence with
/// the same elements, ending with the same last element.
pub proof fn lemma_dedup_sorted(s: Seq<i128>)
    requires
        sorted(s),
    ensures
        strictly_increasing(dedup_spec(s)),
        forall|x: i128| dedup_spec(s).contains(x) <==> s.contains(x),
        s.len() > 0 ==> dedup_spec(s).len() > 0 && dedup_spec(s).last() == s.last(),
    decreases s.len(),
{
    if s.len() <= 1 {
    } else {
        let init = s.drop_last();
        assert(sorted(init));
        lemma_dedup_sorted(init);
        let d = dedup_spec(init);
        if s.last() == s[s.len() - 2] {
            assert forall|x: i128| dedup_spec(s).contains(x) <==> s.contains(x) by {
                if s.contains(x) {
                    let i = choose|i: int| 0 <= i < s.len() && s[i] == x;
                    if i == s.len() - 1 {
                        assert(init[s.len() - 2] == x);
                    } else {
                        assert(init[i] == x);
                    }
                }
                if init.contains(x) {
                    let i = choose|i: int| 0 <= i < init.len() && init[i] == x;
                    assert(s[i] == x);
                }
            }
        } else {
            let r = d.push(s.last());
            assert(d.last() == init.last());
            assert(s.last() > init.last());
            assert forall|i: int, j: int| 0 <= i < j < r.len() implies r[i] < r[j] by {
                if j == r.len() - 1 {
                    if i < d.len() - 1 {
                        assert(d[i] < d[d.len() - 1]);
                    }
                }
            }
            assert forall|x: i128| r.contains(x) <==> s.contains(x) by {
                if s.contains(x) {
                    let i = choose|i: int| 0 <= i < s.len() && s[i] == x;
                    if i == s.len() - 1 {
                        assert(r[r.len() - 1] == x);
                    } else {
                        assert(init[i] == x);
                        assert(init.contains(x));
                        assert(d.contains(x));
                        let k = choose|k: int| 0 <= k < d.len() && d[k] == x;
                        assert(r[k] == x);
                    }
                }
                if r.contains(x) {
                    let k = choose|k: int| 0 <= k < r.len() && r[k] == x;
                    if k == r.len() - 1 {
                        assert(s[s.len() - 1] == x);
                    } else {
                        assert(d[k] == x);
                        assert(d.contains(x));
                        assert(init.contains(x));
                        let i = choose|i: int| 0 <= i < init.len() && init[i] == x;
                        assert(s[i] == x);
                    }
                }
            }
        }
    }
}

} // verus!
