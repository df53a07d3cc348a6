//! Committee votes and the choice of a shard's leader: members gain a vote for
//! each block they sign and lose one for each empty block they refuse, and the
//! leader is the member with the most votes among those not about to leave and
//! not overthrown.
use crate::curve::{compressed_bytes, compressed_view};
use curve25519_dalek::ristretto::CompressedRistretto;
use std::collections::VecDeque;
use vstd::prelude::*;

verus! {

/// How many entries of `s` equal `x`.
pub open spec fn count_eq(s: Seq<u64>, x: u64) -> int
    decreases s.len(),
{
    if s.len() == 0 {
        0
    } else {
        count_eq(s.drop_last(), x) + if s.last() == x {
            1int
        } else {
            0int
        }
    }
}

/// How many listed seats hold the staker `x`.
pub open spec fn seats_of(committee: Seq<usize>, group: Seq<u8>, x: usize) -> int
    decreases group.len(),
{
    if group.len() == 0 {
        0
    } else {
        seats_of(committee, group.drop_last(), x) + if committee[group.last() as int] == x {
            1int
        } else {
            0int
        }
    }
}

proof fn lemma_count_bounds(s: Seq<u64>, x: u64)
    ensures
        0 <= count_eq(s, x) <= s.len(),
    decreases s.len(),
{
    if s.len() > 0 {
        lemma_count_bounds(s.drop_last(), x);
    }
}

proof fn lemma_seats_bounds(committee: Seq<usize>, group: Seq<u8>, x: usize)
    ensures
        0 <= seats_of(committee, group, x) <= group.len(),
    decreases group.len(),
{
    if group.len() > 0 {
        lemma_seats_bounds(committee, group.drop_last(), x);
    }
}

fn count_signatures(pks: &Vec<u64>, x: u64) -> (c: usize)
    ensures
        c == count_eq(pks@, x),
{
    let mut c: usize = 0;
    let mut i: usize = 0;
    while i < pks.len()
        invariant
            i <= pks@.len(),
            c == count_eq(pks@.take(i as int), x),
            c <= i,
        decreases pks@.len() - i,
    {
        proof {
            assert(pks@.take(i + 1).drop_last() =~= pks@.take(i as int));
        }
        if pks[i] == x {
            c = c + 1;
        }
        i = i + 1;
    }
    assert(pks@.take(pks@.len() as int) =~= pks@);
    c
}

/// Votes after a block with validator signatures: seat `j` gains one vote per
/// signature by the staker it holds, the count taken as an `i32` (seats beyond
/// the shorter list are dropped).
pub fn votes_after_signed(votes: &Vec<i32>, committee: &Vec<usize>, signers: &Vec<u64>) -> (r: Vec<i32>)
    requires
        forall|j: int|
            0 <= j < votes@.len() && j < committee@.len() ==> i32::MIN <= #[trigger] votes@[j] + (count_eq(signers@, committee@[j] as u64) as i32)
                <= i32::MAX,
    ensures
        r@.len() == if votes@.len() < committee@.len() {
            votes@.len()
        } else {
            committee@.len()
        },
        forall|j: int| 0 <= j < r@.len() ==> #[trigger] r@[j] == votes@[j] + (count_eq(signers@, committee@[j] as u64) as i32),
{
    let mut r: Vec<i32> = Vec::new();
    let mut j: usize = 0;
    while j < votes.len() && j < committee.len()
        invariant
            j <= votes@.len(),
            j <= committee@.len(),
            r@.len() == j,
            forall|q: int|
                0 <= q < votes@.len() && q < committee@.len() ==> i32::MIN <= #[trigger] votes@[q] + (count_eq(
                    signers@,
                    committee@[q] as u64,
                ) as i32) <= i32::MAX,
            forall|q: int| 0 <= q < j ==> #[trigger] r@[q] == votes@[q] + (count_eq(signers@, committee@[q] as u64) as i32),
        decreases votes@.len() - j,
    {
        let c = count_signatures(signers, committee[j] as u64);
        proof {
            lemma_count_bounds(signers@, committee@[j as int] as u64);
        }
        let ci: i32 = c as i32;
        assert(ci == (count_eq(signers@, committee@[j as int] as u64) as i32));
        r.push(votes[j] + ci);
        j = j + 1;
    }
    r
}

/// Votes after an empty block: seat `j` loses one vote per listing in the group
/// (which lists seats) of a seat holding the same staker, the count taken as an
/// `i32`.
pub fn votes_after_empty(votes: &Vec<i32>, committee: &Vec<usize>, group: &Vec<u8>) -> (r: Vec<i32>)
    requires
        forall|i: int| 0 <= i < group@.len() ==> (#[trigger] group@[i] as int) < committee@.len(),
        forall|j: int|
            0 <= j < votes@.len() && j < committee@.len() ==> i32::MIN <= #[trigger] votes@[j] - (seats_of(committee@, group@, committee@[j]) as i32)
                <= i32::MAX,
    ensures
        r@.len() == if votes@.len() < committee@.len() {
            votes@.len()
        } else {
            committee@.len()
        },
        forall|j: int| 0 <= j < r@.len() ==> #[trigger] r@[j] == votes@[j] - (seats_of(committee@, group@, committee@[j]) as i32),
{
    let mut r: Vec<i32> = Vec::new();
    let mut j: usize = 0;
    while j < votes.len() && j < committee.len()
        invariant
            j <= votes@.len(),
            j <= committee@.len(),
            r@.len() == j,
            forall|i: int| 0 <= i < group@.len() ==> (#[trigger] group@[i] as int) < committee@.len(),
            forall|q: int|
                0 <= q < votes@.len() && q < committee@.len() ==> i32::MIN <= #[trigger] votes@[q] - (seats_of(
                    committee@,
                    group@,
                    committee@[q],
                ) as i32) <= i32::MAX,
            forall|q: int| 0 <= q < j ==> #[trigger] r@[q] == votes@[q] - (seats_of(committee@, group@, committee@[q]) as i32),
        decreases votes@.len() - j,
    {
        let x = committee[j];
        let mut c: usize = 0;
        let mut g: usize = 0;
        while g < group.len()
            invariant
                g <= group@.len(),
                forall|i: int| 0 <= i < group@.len() ==> (#[trigger] group@[i] as int) < committee@.len(),
                c == seats_of(committee@, group@.take(g as int), x),
                c <= g,
            decreases group@.len() - g,
        {
            proof {
                assert(group@.take(g + 1).drop_last() =~= group@.take(g as int));
            }
            if committee[group[g] as usize] == x {
                c = c + 1;
            }
            g = g + 1;
        }
        assert(group@.take(group@.len() as int) =~= group@);
        proof {
            lemma_seats_bounds(committee@, group@, x);
        }
        let ci: i32 = c as i32;
        assert(ci == (seats_of(committee@, group@, committee@[j as int]) as i32));
        r.push(votes[j] - ci);
        j = j + 1;
    }
    r
}

/// The stakers about to leave a committee: those holding the seats named by the
/// first ten entries of its exit queue.
pub open spec fn about_to_leave(exitqueue: Seq<usize>, committee: Seq<usize>) -> Seq<usize> {
    Seq::new(10, |k: int| committee[exitqueue[k] as int])
}

/// The score a seat competes with for leadership: its votes, or `i32::MIN` when
/// its staker is about to leave or was overthrown.
pub open spec fn leader_score(
    committee: Seq<usize>,
    votes: Seq<i32>,
    stkinfo: Seq<(CompressedRistretto, u64)>,
    leaving: Seq<usize>,
    overthrown: Seq<CompressedRistretto>,
    j: int,
) -> i32 {
    let x = committee[j];
    if leaving.contains(x) || (exists|o: int|
        0 <= o < overthrown.len() && compressed_view(#[trigger] overthrown[o]) == compressed_view(stkinfo[x as int].0)) {
        i32::MIN
    } else {
        votes[j]
    }
}

fn same32(a: &[u8; 32], b: &[u8; 32]) -> (r: bool)
    ensures
        r == (a@ == b@),
{
    let mut i: usize = 0;
    while i < 32
        invariant
            i <= 32,
            a@.len() == 32,
            b@.len() == 32,
            forall|k: int| 0 <= k < i ==> a@[k] == b@[k],
        decreases 32 - i,
    {
        if a[i] != b[i] {
            return false;
        }
        i = i + 1;
    }
    assert(a@ =~= b@);
    true
}

/// The staker holding seat `j` was named overthrown (by key).
pub open spec fn overthrown_at(
    committee: Seq<usize>,
    stkinfo: Seq<(CompressedRistretto, u64)>,
    overthrown: Seq<CompressedRistretto>,
    j: int,
) -> bool {
    exists|o: int|
        0 <= o < overthrown.len() && compressed_view(#[trigger] overthrown[o]) == compressed_view(
            stkinfo[committee[j] as int].0,
        )
}

/// `w` is the staker of the last seat with the highest leader score.
pub open spec fn elected(
    committee: Seq<usize>,
    votes: Seq<i32>,
    stkinfo: Seq<(CompressedRistretto, u64)>,
    exitqueue: Seq<usize>,
    overthrown: Seq<CompressedRistretto>,
    w: usize,
) -> bool {
    let leaving = about_to_leave(exitqueue, committee);
    exists|j: int|
        0 <= j < committee.len() && j < votes.len() && w == committee[j] && (forall|q: int|
            0 <= q < committee.len() && q < votes.len() ==> #[trigger] leader_score(
                committee,
                votes,
                stkinfo,
                leaving,
                overthrown,
                q,
            ) <= leader_score(committee, votes, stkinfo, leaving, overthrown, j)) && (forall|q: int|
            j < q < committee.len() && q < votes.len() ==> #[trigger] leader_score(
                committee,
                votes,
                stkinfo,
                leaving,
                overthrown,
                q,
            ) < leader_score(committee, votes, stkinfo, leaving, overthrown, j))
}

/// While some seat with votes above `i32::MIN` holds a staker that none of the
/// first ten exit-queue entries names and that was not overthrown, the elected
/// staker is not named by any of the first ten exit-queue entries and was not
/// overthrown.
pub proof fn law_leader_is_not_leaving(
    committee: Seq<usize>,
    votes: Seq<i32>,
    stkinfo: Seq<(CompressedRistretto, u64)>,
    exitqueue: Seq<usize>,
    overthrown: Seq<CompressedRistretto>,
    w: usize,
    j: int,
)
    requires
        exitqueue.len() >= 10,
        forall|k: int| 0 <= k < 10 ==> (#[trigger] exitqueue[k] as int) < committee.len(),
        forall|q: int| 0 <= q < committee.len() ==> (#[trigger] committee[q] as int) < stkinfo.len(),
        elected(committee, votes, stkinfo, exitqueue, overthrown, w),
        0 <= j < committee.len(),
        j < votes.len(),
        votes[j] > i32::MIN,
        forall|k: int| 0 <= k < 10 ==> committee[j] != #[trigger] committee[exitqueue[k] as int],
        !overthrown_at(committee, stkinfo, overthrown, j),
    ensures
        forall|k: int| 0 <= k < 10 ==> w != #[trigger] committee[exitqueue[k] as int],
        forall|o: int|
            0 <= o < overthrown.len() ==> compressed_view(#[trigger] overthrown[o]) != compressed_view(
                stkinfo[w as int].0,
            ),
{
    let leaving = about_to_leave(exitqueue, committee);
    let b = choose|b: int|
        0 <= b < committee.len() && b < votes.len() && w == committee[b] && (forall|q: int|
            0 <= q < committee.len() && q < votes.len() ==> #[trigger] leader_score(
                committee,
                votes,
                stkinfo,
                leaving,
                overthrown,
                q,
            ) <= leader_score(committee, votes, stkinfo, leaving, overthrown, b)) && (forall|q: int|
            b < q < committee.len() && q < votes.len() ==> #[trigger] leader_score(
                committee,
                votes,
                stkinfo,
                leaving,
                overthrown,
                q,
            ) < leader_score(committee, votes, stkinfo, leaving, overthrown, b));
    assert(!leaving.contains(committee[j])) by {
        if leaving.contains(committee[j]) {
            let k = choose|k: int| 0 <= k < leaving.len() && leaving[k] == committee[j];
            assert(committee[j] == committee[exitqueue[k] as int]);
        }
    }
    assert(leader_score(committee, votes, stkinfo, leaving, overthrown, j) == votes[j]);
    let sb = leader_score(committee, votes, stkinfo, leaving, overthrown, b);
    assert(sb >= votes[j]);
    assert(sb > i32::MIN);
    assert forall|k: int| 0 <= k < 10 implies w != #[trigger] committee[exitqueue[k] as int] by {
        if w == committee[exitqueue[k] as int] {
            assert(leaving[k] == w);
            assert(leaving.contains(w));
        }
    }
    assert forall|o: int|
        0 <= o < overthrown.len() implies compressed_view(#[trigger] overthrown[o]) != compressed_view(
        stkinfo[w as int].0,
    ) by {
        if compressed_view(overthrown[o]) == compressed_view(stkinfo[w as int].0) {
            assert(overthrown_at(committee, stkinfo, overthrown, b));
        }
    }
}

/// The seat of the new leader: among the seats paired with votes, the last one
/// with the highest score (as `Iterator::max_by_key` picks it). Returns the
/// staker it holds.
pub fn elect_leader(
    committee: &Vec<usize>,
    votes: &Vec<i32>,
    stkinfo: &Vec<(CompressedRistretto, u64)>,
    exitqueue: &VecDeque<usize>,
    overthrown: &Vec<CompressedRistretto>,
) -> (w: usize)
    requires
        committee@.len() > 0,
        votes@.len() > 0,
        exitqueue@.len() >= 10,
        forall|k: int| 0 <= k < 10 ==> (#[trigger] exitqueue@[k] as int) < committee@.len(),
        forall|j: int| 0 <= j < committee@.len() ==> (#[trigger] committee@[j] as int) < stkinfo@.len(),
    ensures
        exists|j: int|
            0 <= j < committee@.len() && j < votes@.len() && w == committee@[j] && (forall|q: int|
                0 <= q < committee@.len() && q < votes@.len() ==> #[trigger] leader_score(
                    committee@,
                    votes@,
                    stkinfo@,
                    about_to_leave(exitqueue@, committee@),
                    overthrown@,
                    q,
                ) <= leader_score(
                    committee@,
                    votes@,
                    stkinfo@,
                    about_to_leave(exitqueue@, committee@),
                    overthrown@,
                    j,
                )) && (forall|q: int|
                j < q < committee@.len() && q < votes@.len() ==> #[trigger] leader_score(
                    committee@,
                    votes@,
                    stkinfo@,
                    about_to_leave(exitqueue@, committee@),
                    overthrown@,
                    q,
                ) < leader_score(
                    committee@,
                    votes@,
                    stkinfo@,
                    about_to_leave(exitqueue@, committee@),
                    overthrown@,
                    j,
                )),
        forall|j: int|
            0 <= j < committee@.len() && j < votes@.len() && votes@[j] > i32::MIN && (forall|k: int|
                0 <= k < 10 ==> committee@[j] != #[trigger] committee@[exitqueue@[k] as int]) && !overthrown_at(
                committee@,
                stkinfo@,
                overthrown@,
                j,
            ) ==> forall|k: int| 0 <= k < 10 ==> w != #[trigger] committee@[exitqueue@[k] as int],
{
    let ghost leaving = about_to_leave(exitqueue@, committee@);
    let mut leave: Vec<usize> = Vec::new();
    let mut k: usize = 0;
    while k < 10
        invariant
            k <= 10,
            exitqueue@.len() >= 10,
            forall|q: int| 0 <= q < 10 ==> (#[trigger] exitqueue@[q] as int) < committee@.len(),
            leaving == about_to_leave(exitqueue@, committee@),
            leave@ == leaving.take(k as int),
        decreases 10 - k,
    {
        let seat = exitqueue[k];
        let staker = committee[seat];
        leave.push(staker);
        proof {
            assert(leaving[k as int] == staker);
            assert(leave@ =~= leaving.take(k + 1));
        }
        k = k + 1;
    }
    assert(leave@ =~= leaving);
    let n: usize = if committee.len() < votes.len() {
        committee.len()
    } else {
        votes.len()
    };
    let mut best: usize = 0;
    let mut best_score: i32 = 0;
    let mut j: usize = 0;
    while j < n
        invariant
            n > 0,
            n <= committee@.len(),
            n <= votes@.len(),
            n == committee@.len() || n == votes@.len(),
            j <= n,
            leave@ == leaving,
            forall|q: int| 0 <= q < committee@.len() ==> (#[trigger] committee@[q] as int) < stkinfo@.len(),
            j > 0 ==> best < j,
            j > 0 ==> best_score == leader_score(committee@, votes@, stkinfo@, leaving, overthrown@, best as int),
            forall|q: int|
                0 <= q < j ==> #[trigger] leader_score(committee@, votes@, stkinfo@, leaving, overthrown@, q)
                    <= best_score,
            forall|q: int|
                best < q < j ==> #[trigger] leader_score(committee@, votes@, stkinfo@, leaving, overthrown@, q)
                    < best_score,
        decreases n - j,
    {
        let x = committee[j];
        // Is the staker about to leave?
        let mut out = false;
        let mut a: usize = 0;
        while a < leave.len()
            invariant
                a <= leave@.len(),
                out == exists|c: int| 0 <= c < a && leave@[c] == x,
            decreases leave@.len() - a,
        {
            if leave[a] == x {
                out = true;
            }
            a = a + 1;
        }
        // Was the staker overthrown?
        let kb = compressed_bytes(&stkinfo[x].0);
        let mut gone = false;
        let mut o: usize = 0;
        while o < overthrown.len()
            invariant
                o <= overthrown@.len(),
                kb@ == compressed_view(stkinfo@[x as int].0),
                gone == exists|c: int| 0 <= c < o && compressed_view(#[trigger] overthrown@[c]) == compressed_view(stkinfo@[x as int].0),
            decreases overthrown@.len() - o,
        {
            let ob = compressed_bytes(&overthrown[o]);
            if same32(&ob, &kb) {
                gone = true;
            }
            o = o + 1;
        }
        let score: i32 = if out || gone {
            i32::MIN
        } else {
            votes[j]
        };
        proof {
            assert(leaving.contains(x) == out) by {
                if out {
                    let c = choose|c: int| 0 <= c < leave@.len() && leave@[c] == x;
                    assert(leaving[c] == x);
                }
            }
            assert(score == leader_score(committee@, votes@, stkinfo@, leaving, overthrown@, j as int));
        }
        if j == 0 || score >= best_score {
            best = j;
            best_score = score;
        }
        j = j + 1;
    }
    let w = committee[best];
    proof {
        assert(elected(committee@, votes@, stkinfo@, exitqueue@, overthrown@, w));
        assert forall|j: int|
            0 <= j < committee@.len() && j < votes@.len() && votes@[j] > i32::MIN && (forall|k: int|
                0 <= k < 10 ==> committee@[j] != #[trigger] committee@[exitqueue@[k] as int]) && !overthrown_at(
                committee@,
                stkinfo@,
                overthrown@,
                j,
            ) implies forall|k: int| 0 <= k < 10 ==> w != #[trigger] committee@[exitqueue@[k] as int] by {
            law_leader_is_not_leaving(committee@, votes@, stkinfo@, exitqueue@, overthrown@, w, j);
        }
    }
    w
}

} // verus!
