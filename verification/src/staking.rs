//! Settling a block on the staker table: paying and punishing committee members,
//! removing stakers that left (and re-pointing every queue and committee at the
//! stakers that stay), refilling queues and committees, and dropping forkers.
use crate::codec::{le_bytes, le_decode, le_encode, lemma_le_encode_len};
use crate::curve::{compressed_bytes, compressed_view, group_order, scalar_bytes, scalar_from_wide};
use crate::sha::{sha3_512, sha3_512_spec};
use crate::validation::{
    stake_prefix, stakes, total_stake, NUMBER_OF_VALIDATORS, PUNISHMENT_FRACTION, QUEUE_LENGTH,
};
use curve25519_dalek::ristretto::CompressedRistretto;
use std::collections::VecDeque;
use vstd::prelude::*;

verus! {

// ---------------------------------------------------------------------------
// Re-pointing staker indices when a staker leaves.

/// Where the staker at index `z` moves when the staker at `x` leaves the table:
/// later stakers move down one place; `x` itself has no place any more.
pub open spec fn shifted_index(z: usize, x: usize) -> Option<usize> {
    if z > x {
        Some((z - 1) as usize)
    } else if z == x {
        None
    } else {
        Some(z)
    }
}

pub open spec fn shift_fn(x: usize) -> spec_fn(usize) -> Option<usize> {
    |z: usize| shifted_index(z, x)
}

/// A list of staker indices after the staker at `x` leaves: entries for `x` are
/// dropped, later ones move down, and a list left empty becomes `[0]`.
pub open spec fn without_staker(s: Seq<usize>, x: usize) -> Seq<usize> {
    let t = s.filter_map(shift_fn(x));
    if t.len() == 0 {
        seq![0usize]
    } else {
        t
    }
}

/// Removing the staker at `x` from a table keeps every other staker reachable: its
/// shifted index in the new table names the same entry as its old index did.
pub proof fn law_shift_keeps_staker<T>(v: Seq<T>, x: usize, z: usize)
    requires
        x < v.len(),
        z < v.len(),
        z != x,
    ensures
        shifted_index(z, x) is Some,
        shifted_index(z, x)->0 < v.remove(x as int).len(),
        v.remove(x as int)[shifted_index(z, x)->0 as int] == v[z as int],
{
}

/// An entry that `f` maps to `Some(y)` leaves `y` in the mapped list.
proof fn lemma_filter_map_keeps<A, B>(s: Seq<A>, f: spec_fn(A) -> Option<B>, i: int)
    requires
        0 <= i < s.len(),
        f(s[i]) is Some,
    ensures
        s.filter_map(f).contains(f(s[i])->0),
    decreases s.len(),
{
    let rest = s.drop_last();
    if i == s.len() - 1 {
        let t = rest.filter_map(f) + seq![f(s[i])->0];
        assert(t[t.len() - 1] == f(s[i])->0);
    } else {
        assert(rest[i] == s[i]);
        lemma_filter_map_keeps(rest, f, i);
        let k = choose|k: int| 0 <= k < rest.filter_map(f).len() && rest.filter_map(f)[k] == f(s[i])->0;
        match f(s.last()) {
            Some(y) => {
                assert((rest.filter_map(f) + seq![y])[k] == f(s[i])->0);
            },
            None => {},
        }
    }
}

/// A re-pointed list holds exactly the shifted indices of the other stakers it held
/// (or the fallback `[0]`), so every entry stays inside the shrunk table.
pub proof fn law_without_staker_members(s: Seq<usize>, x: usize, n: nat)
    requires
        forall|i: int| 0 <= i < s.len() ==> #[trigger] s[i] < n,
        x < n,
        n > 1,
    ensures
        forall|i: int|
            0 <= i < s.len() && s[i] != x ==> without_staker(s, x).contains(
                #[trigger] shifted_index(s[i], x)->0,
            ),
        forall|i: int|
            0 <= i < without_staker(s, x).len() ==> #[trigger] without_staker(s, x)[i] < n - 1,
{
    let t = s.filter_map(shift_fn(x));
    assert forall|i: int| 0 <= i < s.len() && s[i] != x implies without_staker(s, x).contains(
        #[trigger] shifted_index(s[i], x)->0,
    ) by {
        lemma_filter_map_keeps(s, shift_fn(x), i);
    }
    assert forall|i: int| 0 <= i < t.len() implies #[trigger] t[i] < n - 1 by {
        s.lemma_filter_map_contains(shift_fn(x), t[i]);
        assert(t.contains(t[i]));
    }
}

/// The queue after the staker at `x` leaves.
pub fn queue_without(q: &VecDeque<usize>, x: usize) -> (r: VecDeque<usize>)
    ensures
        r@ == without_staker(q@, x),
{
    let mut z: VecDeque<usize> = VecDeque::new();
    let mut i: usize = 0;
    while i < q.len()
        invariant
            i <= q@.len(),
            z@ == q@.take(i as int).filter_map(shift_fn(x)),
        decreases q@.len() - i,
    {
        let e = q[i];
        proof {
            q@.lemma_filter_map_take_succ(shift_fn(x), i as int);
        }
        if e > x {
            z.push_back(e - 1);
        } else if e != x {
            z.push_back(e);
        }
        i = i + 1;
    }
    assert(q@.take(q@.len() as int) =~= q@);
    if z.len() == 0 {
        z.push_back(0);
        assert(z@ =~= seq![0usize]);
    }
    z
}

/// The committee after the staker at `x` leaves.
pub fn committee_without(c: &Vec<usize>, x: usize) -> (r: Vec<usize>)
    ensures
        r@ == without_staker(c@, x),
{
    let mut z: Vec<usize> = Vec::new();
    let mut i: usize = 0;
    while i < c.len()
        invariant
            i <= c@.len(),
            z@ == c@.take(i as int).filter_map(shift_fn(x)),
        decreases c@.len() - i,
    {
        let e = c[i];
        proof {
            c@.lemma_filter_map_take_succ(shift_fn(x), i as int);
        }
        if e > x {
            z.push(e - 1);
        } else if e != x {
            z.push(e);
        }
        i = i + 1;
    }
    assert(c@.take(c@.len() as int) =~= c@);
    if z.len() == 0 {
        z.push(0);
        assert(z@ =~= seq![0usize]);
    }
    z
}


/// Every list of a family, re-pointed after the staker at `x` leaves.
pub open spec fn all_without(ls: Seq<Seq<usize>>, x: usize) -> Seq<Seq<usize>> {
    Seq::new(ls.len(), |i: int| without_staker(ls[i], x))
}

/// The index lists held by a family of queues.
pub open spec fn queues_view(qs: Seq<VecDeque<usize>>) -> Seq<Seq<usize>> {
    Seq::new(qs.len(), |i: int| qs[i]@)
}

/// The index lists held by a family of committees.
pub open spec fn committees_view(cs: Seq<Vec<usize>>) -> Seq<Seq<usize>> {
    Seq::new(cs.len(), |i: int| cs[i]@)
}

/// Every queue re-pointed after the staker at `x` leaves.
pub fn queues_without(qs: &Vec<VecDeque<usize>>, x: usize) -> (r: Vec<VecDeque<usize>>)
    ensures
        queues_view(r@) == all_without(queues_view(qs@), x),
{
    let mut r: Vec<VecDeque<usize>> = Vec::new();
    let mut i: usize = 0;
    while i < qs.len()
        invariant
            i <= qs@.len(),
            r@.len() == i,
            forall|k: int| 0 <= k < i ==> #[trigger] r@[k]@ == without_staker(qs@[k]@, x),
        decreases qs@.len() - i,
    {
        let q = queue_without(&qs[i], x);
        r.push(q);
        i = i + 1;
    }
    assert(queues_view(r@) =~= all_without(queues_view(qs@), x));
    r
}

/// Every committee re-pointed after the staker at `x` leaves.
pub fn committees_without(cs: &Vec<Vec<usize>>, x: usize) -> (r: Vec<Vec<usize>>)
    ensures
        committees_view(r@) == all_without(committees_view(cs@), x),
{
    let mut r: Vec<Vec<usize>> = Vec::new();
    let mut i: usize = 0;
    while i < cs.len()
        invariant
            i <= cs@.len(),
            r@.len() == i,
            forall|k: int| 0 <= k < i ==> #[trigger] r@[k]@ == without_staker(cs@[k]@, x),
        decreases cs@.len() - i,
    {
        let c = committee_without(&cs[i], x);
        r.push(c);
        i = i + 1;
    }
    assert(committees_view(r@) =~= all_without(committees_view(cs@), x));
    r
}

/// The staker table together with the queues, exit queues and committees.
pub type StakerBooks = (Seq<(CompressedRistretto, u64)>, Seq<Seq<usize>>, Seq<Seq<usize>>, Seq<Seq<usize>>);

/// The books after the staker at `x` leaves.
pub open spec fn book_without(b: StakerBooks, x: usize) -> StakerBooks {
    (b.0.remove(x as int), all_without(b.1, x), all_without(b.2, x), all_without(b.3, x))
}

/// The books after the stakers at positions `out` leave, the last listed leaving
/// first (so an ascending `out` names positions of the table before any leaves).
pub open spec fn after_exits(b: StakerBooks, out: Seq<u64>) -> StakerBooks
    decreases out.len(),
{
    if out.len() == 0 {
        b
    } else {
        after_exits(book_without(b, out.last() as usize), out.drop_last())
    }
}

/// Each departure, taken last first, names a staker still in a table of `n`.
pub open spec fn exits_valid(n: nat, out: Seq<u64>) -> bool
    decreases out.len(),
{
    if out.len() == 0 {
        true
    } else {
        (out.last() as usize) < n && exits_valid((n - 1) as nat, out.drop_last())
    }
}

/// Removes the stakers at positions `stkout` (last first) from the table, and
/// re-points every queue, exit queue and committee after each removal.
pub fn remove_stakers(
    valinfo: &mut Vec<(CompressedRistretto, u64)>,
    queue: &mut Vec<VecDeque<usize>>,
    exitqueue: &mut Vec<VecDeque<usize>>,
    comittee: &mut Vec<Vec<usize>>,
    stkout: &Vec<u64>,
)
    requires
        exits_valid(old(valinfo)@.len(), stkout@),
    ensures
        (final(valinfo)@, queues_view(final(queue)@), queues_view(final(exitqueue)@), committees_view(
            final(comittee)@,
        )) == after_exits(
            (
                old(valinfo)@,
                queues_view(old(queue)@),
                queues_view(old(exitqueue)@),
                committees_view(old(comittee)@),
            ),
            stkout@,
        ),
{
    let ghost start: StakerBooks = (
        valinfo@,
        queues_view(queue@),
        queues_view(exitqueue@),
        committees_view(comittee@),
    );
    let mut k: usize = stkout.len();
    assert(stkout@.take(k as int) =~= stkout@);
    while k > 0
        invariant
            k <= stkout@.len(),
            exits_valid(valinfo@.len(), stkout@.take(k as int)),
            after_exits(
                (valinfo@, queues_view(queue@), queues_view(exitqueue@), committees_view(comittee@)),
                stkout@.take(k as int),
            ) == after_exits(start, stkout@),
        decreases k,
    {
        let x: usize = stkout[k - 1] as usize;
        proof {
            assert(stkout@.take(k as int).last() == stkout@[k - 1]);
            assert(stkout@.take(k as int).drop_last() =~= stkout@.take(k - 1));
        }
        valinfo.remove(x);
        let nq = queues_without(queue, x);
        *queue = nq;
        let ne = queues_without(exitqueue, x);
        *exitqueue = ne;
        let nc = committees_without(comittee, x);
        *comittee = nc;
        k = k - 1;
    }
    assert(stkout@.take(0) =~= Seq::<u64>::empty());
}


// ---------------------------------------------------------------------------
// Paying and punishing.

/// How often `k` occurs in `s`.
pub open spec fn occurrences(s: Seq<usize>, k: int) -> nat
    decreases s.len(),
{
    if s.len() == 0 {
        0
    } else {
        occurrences(s.drop_last(), k) + if s.last() == k {
            1nat
        } else {
            0nat
        }
    }
}

/// The keys of a staker table.
pub open spec fn stake_keys(v: Seq<(CompressedRistretto, u64)>) -> Seq<CompressedRistretto> {
    v.map_values(|e: (CompressedRistretto, u64)| e.0)
}

proof fn lemma_occurrences_step(s: Seq<usize>, i: int, k: int)
    requires
        0 <= i < s.len(),
    ensures
        occurrences(s.take(i + 1), k) == occurrences(s.take(i), k) + if s[i] == k {
            1nat
        } else {
            0nat
        },
{
    assert(s.take(i + 1).drop_last() =~= s.take(i));
}

proof fn lemma_occurrences_prefix(s: Seq<usize>, i: int, k: int)
    requires
        0 <= i <= s.len(),
    ensures
        occurrences(s.take(i), k) <= occurrences(s, k),
    decreases s.len() - i,
{
    if i == s.len() {
        assert(s.take(i) =~= s);
    } else {
        lemma_occurrences_step(s, i, k);
        lemma_occurrences_prefix(s, i + 1, k);
    }
}

/// Changing one stake changes the total by the difference.
pub proof fn lemma_total_update(y: Seq<u64>, w: int, v: u64)
    requires
        0 <= w < y.len(),
    ensures
        total_stake(y.update(w, v)) == total_stake(y) - y[w] + v,
{
    lemma_prefix_update(y, w, v, y.len() as int);
}

proof fn lemma_prefix_update(y: Seq<u64>, w: int, v: u64, n: int)
    requires
        0 <= w < y.len(),
        0 <= n <= y.len(),
    ensures
        stake_prefix(y.update(w, v), n) == stake_prefix(y, n) + if w < n {
            v - y[w]
        } else {
            0
        },
    decreases n,
{
    if n > 0 {
        lemma_prefix_update(y, w, v, n - 1);
    }
}

/// Adds `amount` to the stake at each index listed in `who` (once per listing).
pub fn reward(valinfo: &mut Vec<(CompressedRistretto, u64)>, who: &Vec<usize>, amount: u64)
    requires
        forall|i: int| 0 <= i < who@.len() ==> #[trigger] who@[i] < old(valinfo)@.len(),
        forall|k: int|
            0 <= k < old(valinfo)@.len() ==> old(valinfo)@[k].1 + #[trigger] occurrences(who@, k) * amount
                <= u64::MAX,
    ensures
        final(valinfo)@.len() == old(valinfo)@.len(),
        stake_keys(final(valinfo)@) == stake_keys(old(valinfo)@),
        forall|k: int|
            0 <= k < old(valinfo)@.len() ==> #[trigger] final(valinfo)@[k].1 == old(valinfo)@[k].1
                + occurrences(who@, k) * amount,
        total_stake(stakes(final(valinfo)@)) == total_stake(stakes(old(valinfo)@)) + who@.len()
            * amount,
{
    let ghost v0 = valinfo@;
    let mut i: usize = 0;
    while i < who.len()
        invariant
            i <= who@.len(),
            valinfo@.len() == v0.len(),
            forall|j: int| 0 <= j < who@.len() ==> #[trigger] who@[j] < v0.len(),
            forall|k: int| 0 <= k < v0.len() ==> v0[k].1 + #[trigger] occurrences(who@, k) * amount <= u64::MAX,
            forall|k: int| 0 <= k < v0.len() ==> #[trigger] valinfo@[k].0 == v0[k].0,
            forall|k: int|
                0 <= k < v0.len() ==> #[trigger] valinfo@[k].1 == v0[k].1 + occurrences(
                    who@.take(i as int),
                    k,
                ) * amount,
            total_stake(stakes(valinfo@)) == total_stake(stakes(v0)) + i * amount,
        decreases who@.len() - i,
    {
        let w = who[i];
        let (key, st) = valinfo[w];
        proof {
            lemma_occurrences_step(who@, i as int, w as int);
            lemma_occurrences_prefix(who@, i + 1, w as int);
            let a = occurrences(who@.take(i as int), w as int);
            let b = occurrences(who@, w as int);
            assert((a + 1) * amount <= b * amount) by (nonlinear_arith)
                requires
                    a + 1 <= b,
            ;
            assert((a + 1) * amount == a * amount + amount) by (nonlinear_arith);
            assert forall|k: int| 0 <= k < v0.len() && k != w implies occurrences(
                who@.take(i + 1),
                k,
            ) == occurrences(who@.take(i as int), k) by {
                lemma_occurrences_step(who@, i as int, k);
            }
            lemma_total_update(stakes(valinfo@), w as int, (st + amount) as u64);
        }
        let ghost before = valinfo@;
        valinfo.set(w, (key, st + amount));
        proof {
            assert(stakes(valinfo@) =~= stakes(before).update(w as int, (st + amount) as u64));
            assert forall|k: int| 0 <= k < v0.len() implies #[trigger] valinfo@[k].1 == v0[k].1
                + occurrences(who@.take(i + 1), k) * amount by {
                lemma_occurrences_step(who@, i as int, k);
                if k == w {
                    let a = occurrences(who@.take(i as int), k);
                    assert((a + 1) * amount == a * amount + amount) by (nonlinear_arith);
                }
            }
            assert((i + 1) * amount == i * amount + amount) by (nonlinear_arith);
        }
        i = i + 1;
    }
    proof {
        assert(who@.take(who@.len() as int) =~= who@);
        assert(stake_keys(valinfo@) =~= stake_keys(v0));
    }
}

/// The stakes after each listed member in turn loses a `PUNISHMENT_FRACTION`-th
/// (rounded down) of its current stake.
pub open spec fn after_punish(y: Seq<u64>, who: Seq<usize>) -> Seq<u64>
    decreases who.len(),
{
    if who.len() == 0 {
        y
    } else {
        let p = after_punish(y, who.drop_last());
        let w = who.last() as int;
        p.update(w, (p[w] - p[w] / PUNISHMENT_FRACTION) as u64)
    }
}

/// What the punishments of `who` take away in total.
pub open spec fn punish_pot(y: Seq<u64>, who: Seq<usize>) -> int
    decreases who.len(),
{
    if who.len() == 0 {
        0
    } else {
        let p = after_punish(y, who.drop_last());
        punish_pot(y, who.drop_last()) + (p[who.last() as int] / PUNISHMENT_FRACTION) as int
    }
}

proof fn lemma_punish_len(y: Seq<u64>, who: Seq<usize>)
    requires
        forall|i: int| 0 <= i < who.len() ==> #[trigger] who[i] < y.len(),
    ensures
        after_punish(y, who).len() == y.len(),
        punish_pot(y, who) >= 0,
    decreases who.len(),
{
    if who.len() > 0 {
        lemma_punish_len(y, who.drop_last());
    }
}

proof fn lemma_pot_prefix(y: Seq<u64>, who: Seq<usize>, i: int)
    requires
        0 <= i <= who.len(),
    ensures
        punish_pot(y, who.take(i)) <= punish_pot(y, who),
    decreases who.len() - i,
{
    if i == who.len() {
        assert(who.take(i) =~= who);
    } else {
        assert(who.take(i + 1).drop_last() =~= who.take(i));
        lemma_pot_prefix(y, who, i + 1);
    }
}

/// Each listed member in turn loses a `PUNISHMENT_FRACTION`-th of its stake; what
/// they lose is returned, so that nothing is created or lost.
pub fn punish(valinfo: &mut Vec<(CompressedRistretto, u64)>, who: &Vec<usize>) -> (pot: u64)
    requires
        forall|i: int| 0 <= i < who@.len() ==> #[trigger] who@[i] < old(valinfo)@.len(),
        punish_pot(stakes(old(valinfo)@), who@) <= u64::MAX,
    ensures
        stake_keys(final(valinfo)@) == stake_keys(old(valinfo)@),
        stakes(final(valinfo)@) == after_punish(stakes(old(valinfo)@), who@),
        pot == punish_pot(stakes(old(valinfo)@), who@),
        total_stake(stakes(final(valinfo)@)) + pot == total_stake(stakes(old(valinfo)@)),
{
    let ghost v0 = valinfo@;
    let ghost y0 = stakes(v0);
    let mut pot: u64 = 0;
    let mut i: usize = 0;
    proof {
        assert(who@.take(0) =~= Seq::<usize>::empty());
    }
    while i < who.len()
        invariant
            i <= who@.len(),
            valinfo@.len() == v0.len(),
            y0 == stakes(v0),
            forall|j: int| 0 <= j < who@.len() ==> #[trigger] who@[j] < v0.len(),
            punish_pot(y0, who@) <= u64::MAX,
            forall|k: int| 0 <= k < v0.len() ==> #[trigger] valinfo@[k].0 == v0[k].0,
            stakes(valinfo@) == after_punish(y0, who@.take(i as int)),
            pot == punish_pot(y0, who@.take(i as int)),
            total_stake(stakes(valinfo@)) + pot == total_stake(y0),
        decreases who@.len() - i,
    {
        let w = who[i];
        let (key, st) = valinfo[w];
        let cut: u64 = st / PUNISHMENT_FRACTION;
        proof {
            let t = who@.take(i + 1);
            assert(t.drop_last() =~= who@.take(i as int));
            assert(t.last() == w);
            lemma_pot_prefix(y0, who@, i + 1);
            lemma_punish_len(y0, who@.take(i as int));
            assert(stakes(valinfo@)[w as int] == st);
            lemma_total_update(stakes(valinfo@), w as int, (st - cut) as u64);
        }
        pot = pot + cut;
        let ghost before = valinfo@;
        valinfo.set(w, (key, st - cut));
        proof {
            assert(stakes(valinfo@) =~= stakes(before).update(w as int, (st - cut) as u64));
        }
        i = i + 1;
    }
    proof {
        assert(who@.take(who@.len() as int) =~= who@);
        assert(stake_keys(valinfo@) =~= stake_keys(v0));
    }
    pot
}


// ---------------------------------------------------------------------------
// Who is paid and who is punished.

/// Staker `y` is among the signers' positions.
pub open spec fn signed_by(signers: Seq<u64>, y: usize) -> bool {
    exists|i: int| 0 <= i < signers.len() && signers[i] as usize == y
}

pub open spec fn side_fn(signers: Seq<u64>, want: bool) -> spec_fn(usize) -> bool {
    |y: usize| signed_by(signers, y) == want
}

fn is_signer(signers: &Vec<u64>, y: usize) -> (r: bool)
    ensures
        r == signed_by(signers@, y),
{
    let mut i: usize = 0;
    while i < signers.len()
        invariant
            i <= signers@.len(),
            forall|k: int| 0 <= k < i ==> signers@[k] as usize != y,
        decreases signers@.len() - i,
    {
        if signers[i] as usize == y {
            return true;
        }
        i = i + 1;
    }
    false
}

/// Splits a committee, in order, into the members whose signing status is `want`
/// and the others.
pub fn split_committee(committee: &Vec<usize>, signers: &Vec<u64>, want: bool) -> (res: (
    Vec<usize>,
    Vec<usize>,
))
    ensures
        res.0@ == committee@.filter(side_fn(signers@, want)),
        res.1@ == committee@.filter(side_fn(signers@, !want)),
{
    let mut yes: Vec<usize> = Vec::new();
    let mut no: Vec<usize> = Vec::new();
    let mut i: usize = 0;
    proof {
        reveal(Seq::filter);
        assert(committee@.take(0) =~= Seq::<usize>::empty());
    }
    while i < committee.len()
        invariant
            i <= committee@.len(),
            yes@ == committee@.take(i as int).filter(side_fn(signers@, want)),
            no@ == committee@.take(i as int).filter(side_fn(signers@, !want)),
        decreases committee@.len() - i,
    {
        let y = committee[i];
        let signed = is_signer(signers, y);
        proof {
            assert(committee@.take(i + 1) =~= committee@.take(i as int).push(y));
            committee@.take(i as int).lemma_filter_push(y, side_fn(signers@, want));
            committee@.take(i as int).lemma_filter_push(y, side_fn(signers@, !want));
        }
        if signed == want {
            yes.push(y);
        } else {
            no.push(y);
        }
        i = i + 1;
    }
    assert(committee@.take(committee@.len() as int) =~= committee@);
    (yes, no)
}

/// The committees of the listed shards, one after the other.
pub open spec fn gathered(cs: Seq<Seq<usize>>, shards: Seq<u16>) -> Seq<usize>
    decreases shards.len(),
{
    if shards.len() == 0 {
        Seq::empty()
    } else {
        gathered(cs, shards.drop_last()) + cs[shards.last() as int]
    }
}

/// Who shares the fees: with validator signatures, the members of every other
/// involved shard's committee and then the winners; otherwise the winners alone.
pub open spec fn fee_sharers(cs: Seq<Seq<usize>>, shards: Seq<u16>, winners: Seq<usize>, validated: bool) -> Seq<usize> {
    if validated {
        gathered(cs, shards.skip(1)) + winners
    } else {
        winners
    }
}

pub fn fee_recipients(
    comittee: &Vec<Vec<usize>>,
    shards: &Vec<u16>,
    winners: &Vec<usize>,
    validated: bool,
) -> (r: Vec<usize>)
    requires
        shards@.len() >= 1,
        forall|k: int| 0 <= k < shards@.len() ==> (#[trigger] shards@[k] as int) < comittee@.len(),
    ensures
        r@ == fee_sharers(committees_view(comittee@), shards@, winners@, validated),
{
    let ghost cs = committees_view(comittee@);
    let mut r: Vec<usize> = Vec::new();
    if validated {
        let mut k: usize = 1;
        assert(shards@.skip(1).take(0) =~= Seq::<u16>::empty());
        while k < shards.len()
            invariant
                1 <= k <= shards@.len(),
                cs == committees_view(comittee@),
                forall|q: int| 0 <= q < shards@.len() ==> (#[trigger] shards@[q] as int) < comittee@.len(),
                r@ == gathered(cs, shards@.skip(1).take(k - 1)),
            decreases shards@.len() - k,
        {
            let c = &comittee[shards[k] as usize];
            proof {
                let t = shards@.skip(1).take(k as int);
                assert(t.drop_last() =~= shards@.skip(1).take(k - 1));
                assert(t.last() == shards@[k as int]);
            }
            let mut m: usize = 0;
            let ghost r0 = r@;
            while m < c.len()
                invariant
                    m <= c@.len(),
                    r@ == r0 + c@.take(m as int),
                decreases c@.len() - m,
            {
                r.push(c[m]);
                proof {
                    assert(c@.take(m + 1) =~= c@.take(m as int).push(c@[m as int]));
                    assert(r@ =~= r0 + c@.take(m + 1));
                }
                m = m + 1;
            }
            assert(c@.take(c@.len() as int) =~= c@);
            k = k + 1;
        }
        assert(shards@.skip(1).take(shards@.len() - 1) =~= shards@.skip(1));
    }
    let ghost r1 = r@;
    let mut m: usize = 0;
    while m < winners.len()
        invariant
            m <= winners@.len(),
            r@ == r1 + winners@.take(m as int),
        decreases winners@.len() - m,
    {
        r.push(winners[m]);
        proof {
            assert(winners@.take(m + 1) =~= winners@.take(m as int).push(winners@[m as int]));
            assert(r@ =~= r1 + winners@.take(m + 1));
        }
        m = m + 1;
    }
    assert(winners@.take(winners@.len() as int) =~= winners@);
    assert(r@ =~= fee_sharers(cs, shards@, winners@, validated));
    r
}

/// The largest shard number listed.
pub open spec fn max_shard(shards: Seq<u16>) -> u16
    decreases shards.len(),
{
    if shards.len() <= 1 {
        shards[0]
    } else {
        let m = max_shard(shards.drop_last());
        if shards.last() > m {
            shards.last()
        } else {
            m
        }
    }
}

pub fn largest_shard(shards: &Vec<u16>) -> (m: u16)
    requires
        shards@.len() >= 1,
    ensures
        m == max_shard(shards@),
        forall|k: int| 0 <= k < shards@.len() ==> #[trigger] shards@[k] <= m,
        exists|k: int| 0 <= k < shards@.len() && shards@[k] == m,
{
    let mut m: u16 = shards[0];
    let mut k: usize = 1;
    assert(shards@.take(1) =~= seq![shards@[0]]);
    while k < shards.len()
        invariant
            1 <= k <= shards@.len(),
            m == max_shard(shards@.take(k as int)),
            forall|q: int| 0 <= q < k ==> #[trigger] shards@[q] <= m,
            exists|q: int| 0 <= q < k && shards@[q] == m,
        decreases shards@.len() - k,
    {
        proof {
            assert(shards@.take(k + 1).drop_last() =~= shards@.take(k as int));
        }
        if shards[k] > m {
            m = shards[k];
        }
        k = k + 1;
    }
    assert(shards@.take(shards@.len() as int) =~= shards@);
    m
}


// ---------------------------------------------------------------------------
// Refilling queues and committees.

/// The entries of an index list, each as 8 little-endian bytes.
pub open spec fn index_bytes(s: Seq<usize>) -> Seq<u8>
    decreases s.len(),
{
    if s.len() == 0 {
        Seq::empty()
    } else {
        index_bytes(s.drop_last()) + le_encode(s.last() as nat, 8)
    }
}

/// `bincode`'s encoding of a list of indices: the length as 8 little-endian bytes,
/// then each entry as 8 little-endian bytes.
pub open spec fn index_list_bytes(s: Seq<usize>) -> Seq<u8> {
    le_encode(s.len(), 8) + index_bytes(s)
}

/// `b` written `k` times in a row.
pub open spec fn repeated(b: Seq<u8>, k: nat) -> Seq<u8>
    decreases k,
{
    if k == 0 {
        Seq::empty()
    } else {
        repeated(b, (k - 1) as nat) + b
    }
}

/// The scalar (as bytes) of the SHA3-512 digest of `b`, as `Scalar::from_hash` makes it.
pub open spec fn scalar_of_hash(b: Seq<u8>) -> Seq<u8> {
    le_encode(le_decode(sha3_512_spec(b)) % group_order(), 32)
}

/// The 128 bytes that refilling a list draws from: the scalars of the digests of
/// the list's encoding written once, twice, three and four times.
pub open spec fn refill_draws(s: Seq<usize>) -> Seq<u8> {
    let b = index_list_bytes(s);
    scalar_of_hash(repeated(b, 1)) + scalar_of_hash(repeated(b, 2)) + scalar_of_hash(repeated(b, 3))
        + scalar_of_hash(repeated(b, 4))
}

/// A list grown to `target` entries, draw `i` picking entry `d[i] % len` of the
/// list as it was.
pub open spec fn refilled(s: Seq<usize>, target: nat) -> Seq<usize> {
    let d = refill_draws(s);
    s + Seq::new((target - s.len()) as nat, |i: int| s[(d[i] as int) % (s.len() as int)])
}

/// A list may be refilled to `target`: it is not empty, not longer than `target`,
/// and needs no more draws than there are.
pub open spec fn refillable(s: Seq<usize>, target: nat) -> bool {
    1 <= s.len() <= target && target - s.len() <= 128
}

/// `bincode`'s encoding of the index list.
pub fn index_list_encoding(s: &Vec<usize>) -> (r: Vec<u8>)
    ensures
        r@ == index_list_bytes(s@),
{
    let mut r = le_bytes(s.len() as u128, 8);
    let ghost head = r@;
    let mut i: usize = 0;
    assert(s@.take(0) =~= Seq::<usize>::empty());
    while i < s.len()
        invariant
            i <= s@.len(),
            head == le_encode(s@.len(), 8),
            r@ == head + index_bytes(s@.take(i as int)),
        decreases s@.len() - i,
    {
        let mut b = le_bytes(s[i] as u128, 8);
        proof {
            assert(s@.take(i + 1).drop_last() =~= s@.take(i as int));
        }
        r.append(&mut b);
        proof {
            assert(r@ =~= head + index_bytes(s@.take(i + 1)));
        }
        i = i + 1;
    }
    assert(s@.take(s@.len() as int) =~= s@);
    r
}

/// The 128 draw bytes for an index list.
fn draw_bytes(s: &Vec<usize>) -> (d: Vec<u8>)
    ensures
        d@ == refill_draws(s@),
        d@.len() == 128,
{
    let b = index_list_encoding(s);
    let mut acc: Vec<u8> = Vec::new();
    let mut d: Vec<u8> = Vec::new();
    let mut k: usize = 0;
    let ghost bb = b@;
    while k < 4
        invariant
            k <= 4,
            b@ == bb,
            acc@ == repeated(bb, k as nat),
            d@.len() == 32 * k,
            k >= 1 ==> d@.subrange(0, 32) == scalar_of_hash(repeated(bb, 1)),
            k >= 2 ==> d@.subrange(32, 64) == scalar_of_hash(repeated(bb, 2)),
            k >= 3 ==> d@.subrange(64, 96) == scalar_of_hash(repeated(bb, 3)),
            k >= 4 ==> d@.subrange(96, 128) == scalar_of_hash(repeated(bb, 4)),
        decreases 4 - k,
    {
        let mut c = b.clone();
        acc.append(&mut c);
        proof {
            assert(acc@ =~= repeated(bb, (k + 1) as nat));
        }
        let h = sha3_512(acc.as_slice());
        let scalar = scalar_from_wide(h.as_slice());
        let sb = scalar_bytes(&scalar);
        proof {
            lemma_le_encode_len(le_decode(h@) % group_order(), 32);
        }
        let ghost d0 = d@;
        let mut t: usize = 0;
        while t < 32
            invariant
                t <= 32,
                sb@.len() == 32,
                d@ == d0 + sb@.take(t as int),
            decreases 32 - t,
        {
            d.push(sb[t]);
            proof {
                assert(sb@.take(t + 1) =~= sb@.take(t as int).push(sb@[t as int]));
                assert(d@ =~= d0 + sb@.take(t + 1));
            }
            t = t + 1;
        }
        assert(sb@.take(32) =~= sb@);
        proof {
            assert(d@.subrange(32 * k, 32 * k + 32) =~= scalar_of_hash(repeated(bb, (k + 1) as nat)));
            if k >= 1 {
                assert(d@.subrange(0, 32) =~= d0.subrange(0, 32));
            }
            if k >= 2 {
                assert(d@.subrange(32, 64) =~= d0.subrange(32, 64));
            }
            if k >= 3 {
                assert(d@.subrange(64, 96) =~= d0.subrange(64, 96));
            }
        }
        k = k + 1;
    }
    assert(d@ =~= d@.subrange(0, 32) + d@.subrange(32, 64) + d@.subrange(64, 96) + d@.subrange(96, 128));
    d
}

/// The entries a list is grown by when refilled to `target`.
fn refill_extra(s: &Vec<usize>, target: usize) -> (y: Vec<usize>)
    requires
        refillable(s@, target as nat),
    ensures
        s@ + y@ == refilled(s@, target as nat),
{
    let d = draw_bytes(s);
    let n = s.len();
    let mut y: Vec<usize> = Vec::new();
    let mut i: usize = 0;
    while i < target - n
        invariant
            n == s@.len(),
            refillable(s@, target as nat),
            d@ == refill_draws(s@),
            d@.len() == 128,
            i <= target - n,
            y@.len() == i,
            forall|k: int| 0 <= k < i ==> #[trigger] y@[k] == s@[(d@[k] as int) % (n as int)],
        decreases target - n - i,
    {
        let e = s[d[i] as usize % n];
        y.push(e);
        i = i + 1;
    }
    assert(s@ + y@ =~= refilled(s@, target as nat));
    y
}

/// A refilled list keeps its entries in front, has `target` entries, and holds
/// only stakers the list already held.
pub proof fn law_refill_keeps_members(s: Seq<usize>, target: nat)
    requires
        refillable(s, target),
    ensures
        refilled(s, target).len() == target,
        refilled(s, target).take(s.len() as int) == s,
        forall|i: int| 0 <= i < target ==> s.contains(#[trigger] refilled(s, target)[i]),
{
    let r = refilled(s, target);
    assert(r.take(s.len() as int) =~= s);
    assert forall|i: int| 0 <= i < target implies s.contains(#[trigger] r[i]) by {
        if i < s.len() {
            assert(r[i] == s[i]);
        } else {
            let d = refill_draws(s);
            let j = (d[i - s.len()] as int) % (s.len() as int);
            assert(r[i] == s[j]);
        }
    }
}

/// A queue refilled to `target`.
pub fn queue_refilled(q: &VecDeque<usize>, target: usize) -> (r: VecDeque<usize>)
    requires
        refillable(q@, target as nat),
    ensures
        r@ == refilled(q@, target as nat),
{
    let mut v: Vec<usize> = Vec::new();
    let mut r: VecDeque<usize> = VecDeque::new();
    let mut i: usize = 0;
    while i < q.len()
        invariant
            i <= q@.len(),
            v@ == q@.take(i as int),
            r@ == q@.take(i as int),
        decreases q@.len() - i,
    {
        v.push(q[i]);
        r.push_back(q[i]);
        proof {
            assert(q@.take(i + 1) =~= q@.take(i as int).push(q@[i as int]));
        }
        i = i + 1;
    }
    assert(q@.take(q@.len() as int) =~= q@);
    let y = refill_extra(&v, target);
    let mut k: usize = 0;
    while k < y.len()
        invariant
            k <= y@.len(),
            r@ == q@ + y@.take(k as int),
        decreases y@.len() - k,
    {
        r.push_back(y[k]);
        proof {
            assert(y@.take(k + 1) =~= y@.take(k as int).push(y@[k as int]));
            assert(r@ =~= q@ + y@.take(k + 1));
        }
        k = k + 1;
    }
    assert(y@.take(y@.len() as int) =~= y@);
    r
}

/// A committee refilled to `target`.
pub fn committee_refilled(c: &Vec<usize>, target: usize) -> (r: Vec<usize>)
    requires
        refillable(c@, target as nat),
    ensures
        r@ == refilled(c@, target as nat),
{
    let mut y = refill_extra(c, target);
    let mut r = c.clone();
    assert(r@ == c@);
    r.append(&mut y);
    r
}

/// Every list of a family refilled to `target`.
pub open spec fn all_refilled(ls: Seq<Seq<usize>>, target: nat) -> Seq<Seq<usize>> {
    Seq::new(ls.len(), |i: int| refilled(ls[i], target))
}

pub open spec fn all_refillable(ls: Seq<Seq<usize>>, target: nat) -> bool {
    forall|i: int| 0 <= i < ls.len() ==> refillable(#[trigger] ls[i], target)
}

/// Every queue refilled to `target`.
pub fn queues_refilled(qs: &Vec<VecDeque<usize>>, target: usize) -> (r: Vec<VecDeque<usize>>)
    requires
        all_refillable(queues_view(qs@), target as nat),
    ensures
        queues_view(r@) == all_refilled(queues_view(qs@), target as nat),
{
    let mut r: Vec<VecDeque<usize>> = Vec::new();
    let mut i: usize = 0;
    while i < qs.len()
        invariant
            i <= qs@.len(),
            all_refillable(queues_view(qs@), target as nat),
            r@.len() == i,
            forall|k: int| 0 <= k < i ==> #[trigger] r@[k]@ == refilled(qs@[k]@, target as nat),
        decreases qs@.len() - i,
    {
        assert(queues_view(qs@)[i as int] == qs@[i as int]@);
        let q = queue_refilled(&qs[i], target);
        r.push(q);
        i = i + 1;
    }
    assert(queues_view(r@) =~= all_refilled(queues_view(qs@), target as nat));
    r
}

/// Every committee refilled to `target`.
pub fn committees_refilled(cs: &Vec<Vec<usize>>, target: usize) -> (r: Vec<Vec<usize>>)
    requires
        all_refillable(committees_view(cs@), target as nat),
    ensures
        committees_view(r@) == all_refilled(committees_view(cs@), target as nat),
{
    let mut r: Vec<Vec<usize>> = Vec::new();
    let mut i: usize = 0;
    while i < cs.len()
        invariant
            i <= cs@.len(),
            all_refillable(committees_view(cs@), target as nat),
            r@.len() == i,
            forall|k: int| 0 <= k < i ==> #[trigger] r@[k]@ == refilled(cs@[k]@, target as nat),
        decreases cs@.len() - i,
    {
        assert(committees_view(cs@)[i as int] == cs@[i as int]@);
        let c = committee_refilled(&cs[i], target);
        r.push(c);
        i = i + 1;
    }
    assert(committees_view(r@) =~= all_refilled(committees_view(cs@), target as nat));
    r
}


// ---------------------------------------------------------------------------
// Forkers.

pub open spec fn other_key_fn(key: CompressedRistretto) -> spec_fn((CompressedRistretto, u64)) -> bool {
    |e: (CompressedRistretto, u64)| compressed_view(e.0) != compressed_view(key)
}

/// The table without every entry holding `key`.
pub open spec fn without_key(v: Seq<(CompressedRistretto, u64)>, key: CompressedRistretto) -> Seq<
    (CompressedRistretto, u64),
> {
    v.filter(other_key_fn(key))
}

fn same_bytes(a: &[u8; 32], b: &[u8; 32]) -> (r: bool)
    ensures
        r == (a@ == b@),
{
    let mut i: usize = 0;
    while i < 32
        invariant
            i <= 32,
            a@.len() == 32,
            b@.len() == 32,
            forall|k: int| 0 <= k < i ==> a@[k] == b@[k],
        decreases 32 - i,
    {
        if a[i] != b[i] {
            return false;
        }
        i = i + 1;
    }
    assert(a@ =~= b@);
    true
}

/// Drops every entry of the table whose key is the key of the entry at `pk` (a
/// staker caught signing two blocks at one height, under all its positions).
pub fn remove_forker(valinfo: &mut Vec<(CompressedRistretto, u64)>, pk: u64)
    requires
        (pk as usize) < old(valinfo)@.len(),
    ensures
        final(valinfo)@ == without_key(old(valinfo)@, old(valinfo)@[pk as usize as int].0),
{
    let key = valinfo[pk as usize].0;
    let kb = compressed_bytes(&key);
    let mut kept: Vec<(CompressedRistretto, u64)> = Vec::new();
    let mut i: usize = 0;
    proof {
        reveal(Seq::filter);
        assert(valinfo@.take(0) =~= Seq::<(CompressedRistretto, u64)>::empty());
    }
    while i < valinfo.len()
        invariant
            i <= valinfo@.len(),
            kb@ == compressed_view(key),
            kept@ == valinfo@.take(i as int).filter(other_key_fn(key)),
        decreases valinfo@.len() - i,
    {
        let e = valinfo[i];
        let eb = compressed_bytes(&e.0);
        proof {
            assert(valinfo@.take(i + 1) =~= valinfo@.take(i as int).push(e));
            valinfo@.take(i as int).lemma_filter_push(e, other_key_fn(key));
        }
        if !same_bytes(&eb, &kb) {
            kept.push(e);
        }
        i = i + 1;
    }
    assert(valinfo@.take(valinfo@.len() as int) =~= valinfo@);
    *valinfo = kept;
}

// ---------------------------------------------------------------------------
// Settling a block.

/// What settling a block needs to know of it.
pub struct BlockOutcome {
    /// The shards the block covers; the first is the shard that made it.
    pub shards: Vec<u16>,
    /// Whether validators signed the block (otherwise a group declared it empty).
    pub validated: bool,
    /// Table positions of the validators that signed, or of the group members that
    /// declared the block empty.
    pub signers: Vec<u64>,
    /// The fees the block's transactions pay.
    pub fees: u64,
    /// The stake minted with the block, before it is split among the winners.
    pub minted: u64,
    /// Table positions of the stakers leaving, ascending.
    pub stkout: Vec<u64>,
    /// The stakers joining.
    pub stkin: Vec<(CompressedRistretto, u64)>,
    /// Table position of a staker caught forking, if any.
    pub forker: Option<u64>,
}

/// The table with `amount` added to each listed stake, once per listing.
pub open spec fn rewarded(v: Seq<(CompressedRistretto, u64)>, who: Seq<usize>, amount: int) -> Seq<
    (CompressedRistretto, u64),
> {
    Seq::new(v.len(), |k: int| (v[k].0, (v[k].1 + occurrences(who, k) * amount) as u64))
}

/// The table after each listed member in turn is punished.
pub open spec fn punished(v: Seq<(CompressedRistretto, u64)>, who: Seq<usize>) -> Seq<
    (CompressedRistretto, u64),
> {
    Seq::new(v.len(), |k: int| (v[k].0, after_punish(stakes(v), who)[k]))
}

/// The winners, the punished, the fee sharers and the lucky committee of a block.
pub open spec fn payees(cs: Seq<Seq<usize>>, o: BlockOutcome) -> (Seq<usize>, Seq<usize>, Seq<usize>, Seq<usize>) {
    let c0 = cs[o.shards@[0] as int];
    let winners = c0.filter(side_fn(o.signers@, o.validated));
    let masochists = c0.filter(side_fn(o.signers@, !o.validated));
    let feelovers = fee_sharers(cs, o.shards@, winners, o.validated);
    let lucky = cs[max_shard(o.shards@) + 1];
    (winners, masochists, feelovers, lucky)
}

/// The largest listed shard is listed and no listed shard exceeds it.
proof fn lemma_max_shard(shards: Seq<u16>)
    requires
        shards.len() >= 1,
    ensures
        exists|m: int| 0 <= m < shards.len() && shards[m] == max_shard(shards),
        forall|k: int| 0 <= k < shards.len() ==> #[trigger] shards[k] <= max_shard(shards),
    decreases shards.len(),
{
    if shards.len() > 1 {
        let d = shards.drop_last();
        lemma_max_shard(d);
        let m = choose|m: int| 0 <= m < d.len() && d[m] == max_shard(d);
        assert(shards[m] == d[m]);
        assert forall|k: int| 0 <= k < shards.len() implies #[trigger] shards[k] <= max_shard(shards) by {
            if k < d.len() {
                assert(shards[k] == d[k]);
            }
        }
        if shards.last() <= max_shard(d) {
            assert(shards[m] == max_shard(shards));
        } else {
            assert(shards[shards.len() - 1] == max_shard(shards));
        }
    } else {
        assert(shards[0] == max_shard(shards));
    }
}

/// The committee that shares what the punished lose is the one after the
/// largest shard the block lists, whatever the order of the shards: it is
/// `cs[m + 1]` for a listed shard `m` that no listed shard exceeds.
pub proof fn law_lucky_committee_follows_largest_shard(cs: Seq<Seq<usize>>, o: BlockOutcome)
    requires
        o.shards@.len() >= 1,
    ensures
        exists|m: int|
            0 <= m < o.shards@.len() && (forall|k: int| 0 <= k < o.shards@.len() ==> #[trigger] o.shards@[k]
                <= o.shards@[m]) && payees(cs, o).3 == cs[o.shards@[m] + 1],
{
    lemma_max_shard(o.shards@);
    let m = choose|m: int| 0 <= m < o.shards@.len() && o.shards@[m] == max_shard(o.shards@);
    assert(payees(cs, o).3 == cs[o.shards@[m] + 1]);
}

pub open spec fn indices_below(s: Seq<usize>, n: nat) -> bool {
    forall|i: int| 0 <= i < s.len() ==> #[trigger] s[i] < n
}

pub open spec fn rewards_fit(v: Seq<(CompressedRistretto, u64)>, who: Seq<usize>, amount: int) -> bool {
    forall|k: int| 0 <= k < v.len() ==> v[k].1 + #[trigger] occurrences(who, k) * amount <= u64::MAX
}

proof fn lemma_rewarded_total(v: Seq<(CompressedRistretto, u64)>, who: Seq<usize>, amount: int)
    requires
        indices_below(who, v.len()),
        amount >= 0,
        rewards_fit(v, who, amount),
    ensures
        total_stake(stakes(rewarded(v, who, amount))) == total_stake(stakes(v)) + who.len() * amount,
    decreases who.len(),
{
    if who.len() == 0 {
        assert(stakes(rewarded(v, who, amount)) =~= stakes(v));
    } else {
        let w1 = who.drop_last();
        let x = who.last() as int;
        assert forall|k: int| 0 <= k < v.len() implies v[k].1 + #[trigger] occurrences(w1, k) * amount <= u64::MAX by {
            let a = occurrences(w1, k);
            let b = occurrences(who, k);
            assert(b >= a);
            assert(a * amount <= b * amount) by (nonlinear_arith)
                requires
                    a <= b,
                    amount >= 0,
            ;
            assert(v[k].1 + occurrences(who, k) * amount <= u64::MAX);
        }
        assert(indices_below(w1, v.len())) by {
            assert forall|i: int| 0 <= i < w1.len() implies #[trigger] w1[i] < v.len() by {
                assert(w1[i] == who[i]);
            }
        }
        lemma_rewarded_total(v, w1, amount);
        assert(who[who.len() - 1] < v.len());
        let y1 = stakes(rewarded(v, w1, amount));
        let nv = (y1[x] + amount) as u64;
        assert(occurrences(who, x) == occurrences(w1, x) + 1);
        assert((occurrences(w1, x) + 1) * amount == occurrences(w1, x) * amount + amount) by (nonlinear_arith);
        assert(stakes(rewarded(v, who, amount)) =~= y1.update(x, nv)) by {
            assert forall|k: int| 0 <= k < v.len() implies #[trigger] stakes(rewarded(v, who, amount))[k] == y1.update(
                x,
                nv,
            )[k] by {
                if k != x {
                    assert(occurrences(who, k) == occurrences(w1, k));
                }
            }
        }
        lemma_total_update(y1, x, nv);
        assert((w1.len() + 1) * amount == w1.len() * amount + amount) by (nonlinear_arith);
    }
}

proof fn lemma_after_punish_total(y: Seq<u64>, who: Seq<usize>)
    requires
        indices_below(who, y.len()),
    ensures
        after_punish(y, who).len() == y.len(),
        total_stake(after_punish(y, who)) + punish_pot(y, who) == total_stake(y),
    decreases who.len(),
{
    if who.len() > 0 {
        let w1 = who.drop_last();
        assert(indices_below(w1, y.len())) by {
            assert forall|i: int| 0 <= i < w1.len() implies #[trigger] w1[i] < y.len() by {
                assert(w1[i] == who[i]);
            }
        }
        lemma_after_punish_total(y, w1);
        let p = after_punish(y, w1);
        let x = who.last() as int;
        assert(who[who.len() - 1] < y.len());
        lemma_total_update(p, x, (p[x] - p[x] / PUNISHMENT_FRACTION) as u64);
    }
}

/// Settling a block's payments creates no stake beyond the minted stake and the
/// fees, and loses at most one unit per payee to rounding: the winners share
/// the minted stake, the fee sharers the fees, and what the punished lose goes
/// back to the lucky committee, each share rounded down.
pub proof fn law_payments_conserve_stake(v: Seq<(CompressedRistretto, u64)>, cs: Seq<Seq<usize>>, o: BlockOutcome)
    requires
        payable(v, cs, o),
    ensures
        total_stake(stakes(paid(v, cs, o))) <= total_stake(stakes(v)) + o.minted + o.fees,
        total_stake(stakes(paid(v, cs, o))) + payees(cs, o).0.len() + payees(cs, o).2.len() + payees(cs, o).3.len()
            > total_stake(stakes(v)) + o.minted + o.fees,
{
    let (w, m, f, l) = payees(cs, o);
    let a = (o.minted as int) / (w.len() as int);
    let b = (o.fees as int) / (f.len() as int);
    let v1 = rewarded(v, w, a);
    let v2 = rewarded(v1, f, b);
    let v3 = punished(v2, m);
    let pot = punish_pot(stakes(v2), m);
    let c = pot / (l.len() as int);
    lemma_rewarded_total(v, w, a);
    assert(indices_below(f, v1.len()));
    lemma_rewarded_total(v1, f, b);
    assert(indices_below(m, stakes(v2).len()));
    lemma_after_punish_total(stakes(v2), m);
    lemma_punish_len(stakes(v2), m);
    assert(stakes(v3) =~= after_punish(stakes(v2), m));
    assert(indices_below(l, v3.len()));
    assert(pot >= 0);
    lemma_rewarded_total(v3, l, c);
    let wl = w.len() as int;
    let fl = f.len() as int;
    let ll = l.len() as int;
    assert(wl * a <= o.minted && o.minted < wl * a + wl) by (nonlinear_arith)
        requires
            wl > 0,
            a == (o.minted as int) / wl,
    ;
    assert(fl * b <= o.fees && o.fees < fl * b + fl) by (nonlinear_arith)
        requires
            fl > 0,
            b == (o.fees as int) / fl,
    ;
    assert(ll * c <= pot && pot < ll * c + ll) by (nonlinear_arith)
        requires
            ll > 0,
            c == pot / ll,
    ;
}

/// The table after the block's payments: the winners share the minted stake, the
/// fee sharers the fees, the non-winners of the shard are punished, and what
/// they lose is shared by the lucky committee.
pub open spec fn paid(v: Seq<(CompressedRistretto, u64)>, cs: Seq<Seq<usize>>, o: BlockOutcome) -> Seq<
    (CompressedRistretto, u64),
> {
    let (w, m, f, l) = payees(cs, o);
    let v1 = rewarded(v, w, (o.minted as int) / (w.len() as int));
    let v2 = rewarded(v1, f, (o.fees as int) / (f.len() as int));
    let v3 = punished(v2, m);
    let pot = punish_pot(stakes(v2), m);
    rewarded(v3, l, pot / (l.len() as int))
}

/// The payments can be made: the shards and the lucky committee exist, every
/// payee is nonempty and in the table, and no stake or pot overflows.
pub open spec fn payable(v: Seq<(CompressedRistretto, u64)>, cs: Seq<Seq<usize>>, o: BlockOutcome) -> bool {
    &&& o.shards@.len() >= 1
    &&& forall|k: int| 0 <= k < o.shards@.len() ==> (#[trigger] o.shards@[k] as int) < cs.len()
    &&& max_shard(o.shards@) + 1 < cs.len()
    &&& {
        let (w, m, f, l) = payees(cs, o);
        let v1 = rewarded(v, w, (o.minted as int) / (w.len() as int));
        let v2 = rewarded(v1, f, (o.fees as int) / (f.len() as int));
        let v3 = punished(v2, m);
        let pot = punish_pot(stakes(v2), m);
        &&& w.len() > 0 && f.len() > 0 && l.len() > 0
        &&& indices_below(w, v.len()) && indices_below(m, v.len())
        &&& indices_below(f, v.len()) && indices_below(l, v.len())
        &&& rewards_fit(v, w, (o.minted as int) / (w.len() as int))
        &&& rewards_fit(v1, f, (o.fees as int) / (f.len() as int))
        &&& pot <= u64::MAX
        &&& rewards_fit(v3, l, pot / (l.len() as int))
    }
}

/// The books after a block's payments, departures (re-pointing every list) and
/// refills: queues and exit queues refilled to `QUEUE_LENGTH`, committees to
/// `NUMBER_OF_VALIDATORS`.
pub open spec fn settled_lists(b: StakerBooks, o: BlockOutcome) -> StakerBooks {
    let v4 = paid(b.0, b.3, o);
    let e = after_exits((v4, b.1, b.2, b.3), o.stkout@);
    (
        e.0,
        all_refilled(e.1, QUEUE_LENGTH as nat),
        all_refilled(e.2, QUEUE_LENGTH as nat),
        all_refilled(e.3, NUMBER_OF_VALIDATORS as nat),
    )
}

/// The payments can be made, each departing position names a staker, and every
/// list can be refilled.
pub open spec fn lists_settleable(b: StakerBooks, o: BlockOutcome) -> bool {
    let v4 = paid(b.0, b.3, o);
    let e = after_exits((v4, b.1, b.2, b.3), o.stkout@);
    &&& payable(b.0, b.3, o)
    &&& exits_valid(b.0.len(), o.stkout@)
    &&& all_refillable(e.1, QUEUE_LENGTH as nat)
    &&& all_refillable(e.2, QUEUE_LENGTH as nat)
    &&& all_refillable(e.3, NUMBER_OF_VALIDATORS as nat)
}

/// The table with the block's arrivals appended and a caught forker dropped.
pub open spec fn joined(v: Seq<(CompressedRistretto, u64)>, o: BlockOutcome) -> Seq<
    (CompressedRistretto, u64),
> {
    let v6 = v + o.stkin@;
    match o.forker {
        Some(pk) => without_key(v6, v6[pk as usize as int].0),
        None => v6,
    }
}

/// A forker's position, if any, names a staker of the table after the arrivals.
pub open spec fn joinable(v: Seq<(CompressedRistretto, u64)>, o: BlockOutcome) -> bool {
    o.forker matches Some(pk) ==> (pk as usize) < v.len() + o.stkin@.len()
}

/// The table after the stakers at positions `out` leave, the last listed first.
pub open spec fn without_positions(v: Seq<(CompressedRistretto, u64)>, out: Seq<u64>) -> Seq<
    (CompressedRistretto, u64),
>
    decreases out.len(),
{
    if out.len() == 0 {
        v
    } else {
        without_positions(v.remove(out.last() as usize as int), out.drop_last())
    }
}

/// The books after the block is settled: payments, departures, refills, then
/// arrivals appended and a caught forker dropped.
pub open spec fn settled(b: StakerBooks, o: BlockOutcome) -> StakerBooks {
    let s = settled_lists(b, o);
    (joined(s.0, o), s.1, s.2, s.3)
}

/// The block can be settled without a fault.
pub open spec fn settleable(b: StakerBooks, o: BlockOutcome) -> bool {
    lists_settleable(b, o) && joinable(settled_lists(b, o).0, o)
}

/// The books after a lightning block is settled. A lightning block takes the
/// departures out of the table a second time, after the lists are refilled and
/// before the arrivals join.
pub open spec fn settled_lightning(b: StakerBooks, o: BlockOutcome) -> StakerBooks {
    let s = settled_lists(b, o);
    (joined(without_positions(s.0, o.stkout@), o), s.1, s.2, s.3)
}

/// A lightning block can be settled without a fault: as `settleable`, and each
/// departing position also names a staker of the table at the second removal.
pub open spec fn lightning_settleable(b: StakerBooks, o: BlockOutcome) -> bool {
    let s = settled_lists(b, o);
    &&& lists_settleable(b, o)
    &&& exits_valid(s.0.len(), o.stkout@)
    &&& joinable(without_positions(s.0, o.stkout@), o)
}

/// A block settles the same way whether it comes in full or as a lightning
/// block, when no staker leaves with it.
pub proof fn law_lightning_settles_alike(b: StakerBooks, o: BlockOutcome)
    requires
        o.stkout@.len() == 0,
    ensures
        settled_lightning(b, o) == settled(b, o),
        lightning_settleable(b, o) == settleable(b, o),
{
}

/// Every index in every list is below `n`.
pub open spec fn lists_below(ls: Seq<Seq<usize>>, n: nat) -> bool {
    forall|i: int, k: int| 0 <= i < ls.len() && 0 <= k < ls[i].len() ==> #[trigger] ls[i][k] < n
}

/// Every list has `target` entries.
pub open spec fn lists_sized(ls: Seq<Seq<usize>>, target: nat) -> bool {
    forall|i: int| 0 <= i < ls.len() ==> (#[trigger] ls[i]).len() == target
}

/// Every list of the books names a staker of the table.
pub open spec fn books_sound(b: StakerBooks) -> bool {
    lists_below(b.1, b.0.len()) && lists_below(b.2, b.0.len()) && lists_below(b.3, b.0.len())
}

proof fn lemma_without_below(ls: Seq<Seq<usize>>, x: usize, n: nat)
    requires
        lists_below(ls, n),
        x < n,
        n > 1,
    ensures
        lists_below(all_without(ls, x), (n - 1) as nat),
        all_without(ls, x).len() == ls.len(),
{
    assert forall|i: int, k: int|
        0 <= i < all_without(ls, x).len() && 0 <= k < all_without(ls, x)[i].len() implies #[trigger] all_without(
        ls,
        x,
    )[i][k] < (n - 1) as nat by {
        assert forall|q: int| 0 <= q < ls[i].len() implies #[trigger] ls[i][q] < n by {
        }
        law_without_staker_members(ls[i], x, n);
    }
}

/// Departures shrink the table by one per departure and keep every list inside it.
proof fn lemma_exits_shape(b: StakerBooks, out: Seq<u64>)
    requires
        exits_valid(b.0.len(), out),
        b.0.len() > out.len(),
        books_sound(b),
    ensures
        after_exits(b, out).0.len() == b.0.len() - out.len(),
        after_exits(b, out).1.len() == b.1.len(),
        after_exits(b, out).2.len() == b.2.len(),
        after_exits(b, out).3.len() == b.3.len(),
        books_sound(after_exits(b, out)),
    decreases out.len(),
{
    if out.len() > 0 {
        let x = out.last() as usize;
        let n = b.0.len();
        lemma_without_below(b.1, x, n);
        lemma_without_below(b.2, x, n);
        lemma_without_below(b.3, x, n);
        lemma_exits_shape(book_without(b, x), out.drop_last());
    }
}

proof fn lemma_refilled_shape(ls: Seq<Seq<usize>>, target: nat, n: nat)
    requires
        all_refillable(ls, target),
        lists_below(ls, n),
    ensures
        all_refilled(ls, target).len() == ls.len(),
        lists_sized(all_refilled(ls, target), target),
        lists_below(all_refilled(ls, target), n),
{
    assert forall|i: int| 0 <= i < ls.len() implies (#[trigger] all_refilled(ls, target)[i]).len() == target by {
        assert(refillable(ls[i], target));
        law_refill_keeps_members(ls[i], target);
    }
    assert forall|i: int, k: int|
        0 <= i < all_refilled(ls, target).len() && 0 <= k < all_refilled(ls, target)[i].len() implies #[trigger] all_refilled(
        ls,
        target,
    )[i][k] < n by {
        assert(refillable(ls[i], target));
        law_refill_keeps_members(ls[i], target);
        assert(ls[i].contains(refilled(ls[i], target)[k]));
    }
}

/// Settling a block, with no forker caught and a staker left over, keeps the books
/// in shape: the table loses one entry per departure and gains the arrivals, the
/// queues and exit queues hold `QUEUE_LENGTH` entries and the committees
/// `NUMBER_OF_VALIDATORS`, none of the lists is added or lost, and every entry of
/// every list names a staker of the new table.
pub proof fn law_settle_keeps_shape(b: StakerBooks, o: BlockOutcome)
    requires
        settleable(b, o),
        o.forker is None,
        b.0.len() > o.stkout@.len(),
        books_sound(b),
    ensures
        settled(b, o).0.len() == b.0.len() - o.stkout@.len() + o.stkin@.len(),
        settled(b, o).0.subrange(settled(b, o).0.len() - o.stkin@.len(), settled(b, o).0.len() as int)
            == o.stkin@,
        settled(b, o).1.len() == b.1.len(),
        settled(b, o).2.len() == b.2.len(),
        settled(b, o).3.len() == b.3.len(),
        lists_sized(settled(b, o).1, QUEUE_LENGTH as nat),
        lists_sized(settled(b, o).2, QUEUE_LENGTH as nat),
        lists_sized(settled(b, o).3, NUMBER_OF_VALIDATORS as nat),
        books_sound(settled(b, o)),
{
    let v4 = paid(b.0, b.3, o);
    let p: StakerBooks = (v4, b.1, b.2, b.3);
    assert(v4.len() == b.0.len());
    lemma_exits_shape(p, o.stkout@);
    let e = after_exits(p, o.stkout@);
    let n = e.0.len();
    lemma_refilled_shape(e.1, QUEUE_LENGTH as nat, n);
    lemma_refilled_shape(e.2, QUEUE_LENGTH as nat, n);
    lemma_refilled_shape(e.3, NUMBER_OF_VALIDATORS as nat, n);
    let t = settled(b, o);
    assert(t.0 == e.0 + o.stkin@);
    assert(t.0.subrange(n as int, t.0.len() as int) =~= o.stkin@);
    let m = t.0.len();
    assert forall|i: int, k: int| 0 <= i < t.1.len() && 0 <= k < t.1[i].len() implies #[trigger] t.1[i][k] < m by {
        assert(t.1[i][k] < n);
    }
    assert forall|i: int, k: int| 0 <= i < t.2.len() && 0 <= k < t.2[i].len() implies #[trigger] t.2[i][k] < m by {
        assert(t.2[i][k] < n);
    }
    assert forall|i: int, k: int| 0 <= i < t.3.len() && 0 <= k < t.3[i].len() implies #[trigger] t.3[i][k] < m by {
        assert(t.3[i][k] < n);
    }
}

/// Pays the block's payees, removes its departures and refills every list.
fn settle_lists(
    o: &BlockOutcome,
    valinfo: &mut Vec<(CompressedRistretto, u64)>,
    queue: &mut Vec<VecDeque<usize>>,
    exitqueue: &mut Vec<VecDeque<usize>>,
    comittee: &mut Vec<Vec<usize>>,
)
    requires
        lists_settleable(
            (
                old(valinfo)@,
                queues_view(old(queue)@),
                queues_view(old(exitqueue)@),
                committees_view(old(comittee)@),
            ),
            *o,
        ),
    ensures
        (final(valinfo)@, queues_view(final(queue)@), queues_view(final(exitqueue)@), committees_view(
            final(comittee)@,
        )) == settled_lists(
            (
                old(valinfo)@,
                queues_view(old(queue)@),
                queues_view(old(exitqueue)@),
                committees_view(old(comittee)@),
            ),
            *o,
        ),
{
    let ghost v = valinfo@;
    let ghost cs = committees_view(comittee@);
    let ghost (w, m, f, l) = payees(cs, *o);
    assert(cs[o.shards@[0] as int] == comittee@[o.shards@[0] as int]@);
    let (winners, masochists) = split_committee(&comittee[o.shards[0] as usize], &o.signers, o.validated);
    let feelovers = fee_recipients(comittee, &o.shards, &winners, o.validated);
    let top = largest_shard(&o.shards);
    let lucky = comittee[top as usize + 1].clone();
    assert(lucky@ == l);
    let fees: u64 = o.fees / feelovers.len() as u64;
    let inflation: u64 = o.minted / winners.len() as u64;
    assert(winners@ == w && masochists@ == m && feelovers@ == f);
    let ghost v0 = valinfo@;
    reward(valinfo, &winners, inflation);
    let ghost v1 = rewarded(v, w, (o.minted as int) / (w.len() as int));
    proof {
        assert forall|k: int| 0 <= k < v1.len() implies #[trigger] valinfo@[k] == v1[k] by {
            assert(stake_keys(valinfo@)[k] == valinfo@[k].0);
            assert(stake_keys(v0)[k] == v0[k].0);
        }
        assert(valinfo@ =~= v1);
    }
    reward(valinfo, &feelovers, fees);
    let ghost v2 = rewarded(v1, f, (o.fees as int) / (f.len() as int));
    proof {
        assert forall|k: int| 0 <= k < v2.len() implies #[trigger] valinfo@[k] == v2[k] by {
            assert(stake_keys(valinfo@)[k] == valinfo@[k].0);
            assert(stake_keys(v1)[k] == v1[k].0);
        }
        assert(valinfo@ =~= v2);
    }
    let pot = punish(valinfo, &masochists);
    let ghost v3 = punished(v2, m);
    proof {
        lemma_punish_len(stakes(v2), m);
        assert forall|k: int| 0 <= k < v3.len() implies #[trigger] valinfo@[k] == v3[k] by {
            assert(stakes(valinfo@)[k] == valinfo@[k].1);
            assert(stake_keys(valinfo@)[k] == valinfo@[k].0);
            assert(stake_keys(v2)[k] == v2[k].0);
        }
        lemma_punish_len(stakes(v2), m);
        assert(valinfo@.len() == stakes(valinfo@).len());
        assert(valinfo@ =~= v3);
    }
    let share: u64 = pot / lucky.len() as u64;
    reward(valinfo, &lucky, share);
    proof {
        let v4 = paid(v, cs, *o);
        assert forall|k: int| 0 <= k < v4.len() implies #[trigger] valinfo@[k] == v4[k] by {
            assert(stake_keys(valinfo@)[k] == valinfo@[k].0);
            assert(stake_keys(v3)[k] == v3[k].0);
        }
        assert(valinfo@ =~= v4);
    }
    remove_stakers(valinfo, queue, exitqueue, comittee, &o.stkout);
    let nq = queues_refilled(queue, QUEUE_LENGTH);
    *queue = nq;
    let ne = queues_refilled(exitqueue, QUEUE_LENGTH);
    *exitqueue = ne;
    let nc = committees_refilled(comittee, NUMBER_OF_VALIDATORS);
    *comittee = nc;
}

/// Appends the block's arrivals to the table and drops a caught forker.
fn join_stakers(o: &BlockOutcome, valinfo: &mut Vec<(CompressedRistretto, u64)>)
    requires
        joinable(old(valinfo)@, *o),
    ensures
        final(valinfo)@ == joined(old(valinfo)@, *o),
{
    let mut k: usize = 0;
    let ghost v5 = valinfo@;
    while k < o.stkin.len()
        invariant
            k <= o.stkin@.len(),
            valinfo@ == v5 + o.stkin@.take(k as int),
        decreases o.stkin@.len() - k,
    {
        valinfo.push(o.stkin[k]);
        proof {
            assert(o.stkin@.take(k + 1) =~= o.stkin@.take(k as int).push(o.stkin@[k as int]));
            assert(valinfo@ =~= v5 + o.stkin@.take(k + 1));
        }
        k = k + 1;
    }
    assert(o.stkin@.take(o.stkin@.len() as int) =~= o.stkin@);
    match o.forker {
        Some(pk) => {
            remove_forker(valinfo, pk);
        },
        None => {},
    }
}

/// Removes the stakers at positions `stkout` from the table, last first.
fn drop_positions(valinfo: &mut Vec<(CompressedRistretto, u64)>, stkout: &Vec<u64>)
    requires
        exits_valid(old(valinfo)@.len(), stkout@),
    ensures
        final(valinfo)@ == without_positions(old(valinfo)@, stkout@),
{
    let ghost start = valinfo@;
    let mut k: usize = stkout.len();
    assert(stkout@.take(k as int) =~= stkout@);
    while k > 0
        invariant
            k <= stkout@.len(),
            exits_valid(valinfo@.len(), stkout@.take(k as int)),
            without_positions(valinfo@, stkout@.take(k as int)) == without_positions(start, stkout@),
        decreases k,
    {
        proof {
            assert(stkout@.take(k as int).last() == stkout@[k - 1]);
            assert(stkout@.take(k as int).drop_last() =~= stkout@.take(k - 1));
        }
        let x: usize = stkout[k - 1] as usize;
        valinfo.remove(x);
        k = k - 1;
    }
    assert(stkout@.take(0) =~= Seq::<u64>::empty());
}

/// Settles a block on the staker table, queues, exit queues and committees.
pub fn scan_as_noone(
    o: &BlockOutcome,
    valinfo: &mut Vec<(CompressedRistretto, u64)>,
    queue: &mut Vec<VecDeque<usize>>,
    exitqueue: &mut Vec<VecDeque<usize>>,
    comittee: &mut Vec<Vec<usize>>,
)
    requires
        settleable(
            (
                old(valinfo)@,
                queues_view(old(queue)@),
                queues_view(old(exitqueue)@),
                committees_view(old(comittee)@),
            ),
            *o,
        ),
    ensures
        (final(valinfo)@, queues_view(final(queue)@), queues_view(final(exitqueue)@), committees_view(
            final(comittee)@,
        )) == settled(
            (
                old(valinfo)@,
                queues_view(old(queue)@),
                queues_view(old(exitqueue)@),
                committees_view(old(comittee)@),
            ),
            *o,
        ),
{
    settle_lists(o, valinfo, queue, exitqueue, comittee);
    join_stakers(o, valinfo);
}

/// Settles a lightning block on the staker table, queues, exit queues and
/// committees.
pub fn scan_lightning_as_noone(
    o: &BlockOutcome,
    valinfo: &mut Vec<(CompressedRistretto, u64)>,
    queue: &mut Vec<VecDeque<usize>>,
    exitqueue: &mut Vec<VecDeque<usize>>,
    comittee: &mut Vec<Vec<usize>>,
)
    requires
        lightning_settleable(
            (
                old(valinfo)@,
                queues_view(old(queue)@),
                queues_view(old(exitqueue)@),
                committees_view(old(comittee)@),
            ),
            *o,
        ),
    ensures
        (final(valinfo)@, queues_view(final(queue)@), queues_view(final(exitqueue)@), committees_view(
            final(comittee)@,
        )) == settled_lightning(
            (
                old(valinfo)@,
                queues_view(old(queue)@),
                queues_view(old(exitqueue)@),
                committees_view(old(comittee)@),
            ),
            *o,
        ),
{
    settle_lists(o, valinfo, queue, exitqueue, comittee);
    drop_positions(valinfo, &o.stkout);
    join_stakers(o, valinfo);
}


// ---------------------------------------------------------------------------
// A staker's own records: `[position in the table, stake]` pairs.

/// Adds `amount` to every record at a listed position, once per listing.
fn credit(mine: &mut Vec<[u64; 2]>, who: &Vec<usize>, amount: u64)
    requires
        forall|k: int|
            0 <= k < old(mine)@.len() ==> old(mine)@[k]@[1] + #[trigger] occurrences(
                who@,
                old(mine)@[k]@[0] as int,
            ) * amount <= u64::MAX,
    ensures
        final(mine)@.len() == old(mine)@.len(),
        forall|k: int|
            0 <= k < old(mine)@.len() ==> #[trigger] final(mine)@[k]@ == seq![
                old(mine)@[k]@[0],
                (old(mine)@[k]@[1] + occurrences(who@, old(mine)@[k]@[0] as int) * amount) as u64,
            ],
{
    let ghost m0 = mine@;
    let mut j: usize = 0;
    proof {
        assert(who@.take(0) =~= Seq::<usize>::empty());
        assert forall|k: int| 0 <= k < m0.len() implies #[trigger] mine@[k]@ == seq![
            m0[k]@[0],
            (m0[k]@[1] + occurrences(who@.take(0), m0[k]@[0] as int) * amount) as u64,
        ] by {
            assert(occurrences(who@.take(0), m0[k]@[0] as int) == 0);
            assert(m0[k]@.len() == 2);
            assert(mine@[k]@ =~= seq![m0[k]@[0], m0[k]@[1]]);
        }
    }
    while j < who.len()
        invariant
            j <= who@.len(),
            mine@.len() == m0.len(),
            forall|k: int|
                0 <= k < m0.len() ==> m0[k]@[1] + #[trigger] occurrences(who@, m0[k]@[0] as int)
                    * amount <= u64::MAX,
            forall|k: int|
                0 <= k < m0.len() ==> #[trigger] mine@[k]@ == seq![
                    m0[k]@[0],
                    (m0[k]@[1] + occurrences(who@.take(j as int), m0[k]@[0] as int) * amount) as u64,
                ],
        decreases who@.len() - j,
    {
        let i = who[j];
        let ghost mj = mine@;
        let mut k: usize = 0;
        while k < mine.len()
            invariant
                j < who@.len(),
                i == who@[j as int],
                k <= mine@.len(),
                mine@.len() == m0.len(),
                mj.len() == m0.len(),
                forall|q: int|
                    0 <= q < m0.len() ==> m0[q]@[1] + #[trigger] occurrences(who@, m0[q]@[0] as int)
                        * amount <= u64::MAX,
                forall|q: int|
                    0 <= q < m0.len() ==> #[trigger] mj[q]@ == seq![
                        m0[q]@[0],
                        (m0[q]@[1] + occurrences(who@.take(j as int), m0[q]@[0] as int) * amount) as u64,
                    ],
                forall|q: int|
                    0 <= q < m0.len() ==> #[trigger] mine@[q]@ == if q < k && mj[q]@[0] == i as u64 {
                        seq![mj[q]@[0], (mj[q]@[1] + amount) as u64]
                    } else {
                        mj[q]@
                    },
            decreases mine@.len() - k,
        {
            let x = mine[k];
            if x[0] == i as u64 {
                proof {
                    let p = m0[k as int]@[0] as int;
                    lemma_occurrences_step(who@, j as int, p);
                    lemma_occurrences_prefix(who@, j + 1, p);
                    let a = occurrences(who@.take(j as int), p);
                    let b = occurrences(who@, p);
                    assert((a + 1) * amount <= b * amount) by (nonlinear_arith)
                        requires
                            a + 1 <= b,
                    ;
                    assert((a + 1) * amount == a * amount + amount) by (nonlinear_arith);
                }
                mine.set(k, [x[0], x[1] + amount]);
            }
            k = k + 1;
        }
        proof {
            assert forall|q: int| 0 <= q < m0.len() implies #[trigger] mine@[q]@ == seq![
                m0[q]@[0],
                (m0[q]@[1] + occurrences(who@.take(j + 1), m0[q]@[0] as int) * amount) as u64,
            ] by {
                let p = m0[q]@[0] as int;
                lemma_occurrences_step(who@, j as int, p);
                lemma_occurrences_prefix(who@, j + 1, p);
                let a = occurrences(who@.take(j as int), p);
                let b = occurrences(who@, p);
                assert((a + 1) * amount == a * amount + amount) by (nonlinear_arith);
                if p == i {
                    assert((a + 1) * amount <= b * amount) by (nonlinear_arith)
                        requires
                            a + 1 <= b,
                    ;
                    assert(mine@[q]@ =~= seq![
                        m0[q]@[0],
                        (m0[q]@[1] + occurrences(who@.take(j + 1), p) * amount) as u64,
                    ]);
                } else {
                    assert(mine@[q]@ =~= seq![
                        m0[q]@[0],
                        (m0[q]@[1] + occurrences(who@.take(j + 1), p) * amount) as u64,
                    ]);
                }
            }
        }
        j = j + 1;
    }
    assert(who@.take(who@.len() as int) =~= who@);
}

/// What punishing `who` takes, by the stakes in the table: a
/// `PUNISHMENT_FRACTION`-th of each listed member's stake, once per listing.
pub open spec fn cut_total(v: Seq<(CompressedRistretto, u64)>, who: Seq<usize>) -> int
    decreases who.len(),
{
    if who.len() == 0 {
        0
    } else {
        cut_total(v, who.drop_last()) + (v[who.last() as int].1 / PUNISHMENT_FRACTION) as int
    }
}

/// The cut a member at table position `p` takes per listing.
pub open spec fn cut_of(v: Seq<(CompressedRistretto, u64)>, p: int) -> int {
    if 0 <= p < v.len() {
        (v[p].1 / PUNISHMENT_FRACTION) as int
    } else {
        0
    }
}

proof fn lemma_cut_total_prefix(v: Seq<(CompressedRistretto, u64)>, who: Seq<usize>, i: int)
    requires
        0 <= i <= who.len(),
    ensures
        cut_total(v, who.take(i)) <= cut_total(v, who),
        cut_total(v, who.take(i)) >= 0,
    decreases who.len() - i,
{
    lemma_cut_total_nonneg(v, who.take(i));
    if i == who.len() {
        assert(who.take(i) =~= who);
    } else {
        assert(who.take(i + 1).drop_last() =~= who.take(i));
        lemma_cut_total_prefix(v, who, i + 1);
    }
}

proof fn lemma_cut_total_nonneg(v: Seq<(CompressedRistretto, u64)>, who: Seq<usize>)
    ensures
        cut_total(v, who) >= 0,
    decreases who.len(),
{
    if who.len() > 0 {
        lemma_cut_total_nonneg(v, who.drop_last());
    }
}

/// Takes each listed member's cut (by the table) off its records, once per
/// listing, and returns the sum of the cuts.
fn debit(mine: &mut Vec<[u64; 2]>, who: &Vec<usize>, valinfo: &Vec<(CompressedRistretto, u64)>) -> (pot: u64)
    requires
        forall|i: int| 0 <= i < who@.len() ==> #[trigger] who@[i] < valinfo@.len(),
        cut_total(valinfo@, who@) <= u64::MAX,
        forall|k: int|
            0 <= k < old(mine)@.len() ==> #[trigger] occurrences(who@, old(mine)@[k]@[0] as int) * cut_of(
                valinfo@,
                old(mine)@[k]@[0] as int,
            ) <= old(mine)@[k]@[1],
    ensures
        pot == cut_total(valinfo@, who@),
        final(mine)@.len() == old(mine)@.len(),
        forall|k: int|
            0 <= k < old(mine)@.len() ==> #[trigger] final(mine)@[k]@ == seq![
                old(mine)@[k]@[0],
                (old(mine)@[k]@[1] - occurrences(who@, old(mine)@[k]@[0] as int) * cut_of(
                    valinfo@,
                    old(mine)@[k]@[0] as int,
                )) as u64,
            ],
{
    let ghost m0 = mine@;
    let mut pot: u64 = 0;
    let mut j: usize = 0;
    proof {
        assert(who@.take(0) =~= Seq::<usize>::empty());
        assert forall|k: int| 0 <= k < m0.len() implies #[trigger] mine@[k]@ == seq![
            m0[k]@[0],
            (m0[k]@[1] - occurrences(who@.take(0), m0[k]@[0] as int) * cut_of(
                valinfo@,
                m0[k]@[0] as int,
            )) as u64,
        ] by {
            assert(occurrences(who@.take(0), m0[k]@[0] as int) == 0);
            assert(m0[k]@.len() == 2);
            assert(mine@[k]@ =~= seq![m0[k]@[0], m0[k]@[1]]);
        }
    }
    while j < who.len()
        invariant
            j <= who@.len(),
            mine@.len() == m0.len(),
            forall|i: int| 0 <= i < who@.len() ==> #[trigger] who@[i] < valinfo@.len(),
            cut_total(valinfo@, who@) <= u64::MAX,
            pot == cut_total(valinfo@, who@.take(j as int)),
            forall|k: int|
                0 <= k < m0.len() ==> #[trigger] occurrences(who@, m0[k]@[0] as int) * cut_of(
                    valinfo@,
                    m0[k]@[0] as int,
                ) <= m0[k]@[1],
            forall|k: int|
                0 <= k < m0.len() ==> #[trigger] mine@[k]@ == seq![
                    m0[k]@[0],
                    (m0[k]@[1] - occurrences(who@.take(j as int), m0[k]@[0] as int) * cut_of(
                        valinfo@,
                        m0[k]@[0] as int,
                    )) as u64,
                ],
        decreases who@.len() - j,
    {
        let i = who[j];
        let cut: u64 = valinfo[i].1 / PUNISHMENT_FRACTION;
        proof {
            assert(who@.take(j + 1).drop_last() =~= who@.take(j as int));
            lemma_cut_total_prefix(valinfo@, who@, j + 1);
        }
        pot = pot + cut;
        let ghost mj = mine@;
        let mut k: usize = 0;
        while k < mine.len()
            invariant
                j < who@.len(),
                i == who@[j as int],
                i < valinfo@.len(),
                cut == cut_of(valinfo@, i as int),
                k <= mine@.len(),
                mine@.len() == m0.len(),
                mj.len() == m0.len(),
                forall|q: int|
                    0 <= q < m0.len() ==> #[trigger] occurrences(who@, m0[q]@[0] as int) * cut_of(
                        valinfo@,
                        m0[q]@[0] as int,
                    ) <= m0[q]@[1],
                forall|q: int|
                    0 <= q < m0.len() ==> #[trigger] mj[q]@ == seq![
                        m0[q]@[0],
                        (m0[q]@[1] - occurrences(who@.take(j as int), m0[q]@[0] as int) * cut_of(
                            valinfo@,
                            m0[q]@[0] as int,
                        )) as u64,
                    ],
                forall|q: int|
                    0 <= q < m0.len() ==> #[trigger] mine@[q]@ == if q < k && mj[q]@[0] == i as u64 {
                        seq![mj[q]@[0], (mj[q]@[1] - cut) as u64]
                    } else {
                        mj[q]@
                    },
            decreases mine@.len() - k,
        {
            let x = mine[k];
            if x[0] == i as u64 {
                proof {
                    let p = m0[k as int]@[0] as int;
                    let c = cut_of(valinfo@, p);
                    lemma_occurrences_step(who@, j as int, p);
                    lemma_occurrences_prefix(who@, j + 1, p);
                    let a = occurrences(who@.take(j as int), p);
                    let b = occurrences(who@, p);
                    assert((a + 1) * c <= b * c) by (nonlinear_arith)
                        requires
                            a + 1 <= b,
                            c >= 0,
                    ;
                    assert((a + 1) * c == a * c + c) by (nonlinear_arith);
                    assert(a * c >= 0) by (nonlinear_arith)
                        requires
                            c >= 0,
                    ;
                }
                mine.set(k, [x[0], x[1] - cut]);
            }
            k = k + 1;
        }
        proof {
            assert forall|q: int| 0 <= q < m0.len() implies #[trigger] mine@[q]@ == seq![
                m0[q]@[0],
                (m0[q]@[1] - occurrences(who@.take(j + 1), m0[q]@[0] as int) * cut_of(
                    valinfo@,
                    m0[q]@[0] as int,
                )) as u64,
            ] by {
                let p = m0[q]@[0] as int;
                let c = cut_of(valinfo@, p);
                lemma_occurrences_step(who@, j as int, p);
                lemma_occurrences_prefix(who@, j + 1, p);
                let a = occurrences(who@.take(j as int), p);
                let b = occurrences(who@, p);
                assert((a + 1) * c == a * c + c) by (nonlinear_arith);
                if p == i {
                    assert((a + 1) * c <= b * c) by (nonlinear_arith)
                        requires
                            a + 1 <= b,
                            c >= 0,
                    ;
                    assert(a * c >= 0) by (nonlinear_arith)
                        requires
                            c >= 0,
                    ;
                    assert(mine@[q]@ =~= seq![
                        m0[q]@[0],
                        (m0[q]@[1] - occurrences(who@.take(j + 1), p) * c) as u64,
                    ]);
                } else {
                    assert(mine@[q]@ =~= seq![
                        m0[q]@[0],
                        (m0[q]@[1] - occurrences(who@.take(j + 1), p) * c) as u64,
                    ]);
                }
            }
        }
        j = j + 1;
    }
    assert(who@.take(who@.len() as int) =~= who@);
    pot
}


/// A staker's records as `[position, stake]` sequences.
pub open spec fn records(mine: Seq<[u64; 2]>) -> Seq<Seq<u64>> {
    Seq::new(mine.len(), |k: int| mine[k]@)
}

/// The records with `amount` credited at each listed position, once per listing.
pub open spec fn credited(ms: Seq<Seq<u64>>, who: Seq<usize>, amount: int) -> Seq<Seq<u64>> {
    Seq::new(ms.len(), |k: int| seq![ms[k][0], (ms[k][1] + occurrences(who, ms[k][0] as int) * amount) as u64])
}

/// The records with each listed member's cut (by the table) taken off.
pub open spec fn debited(ms: Seq<Seq<u64>>, who: Seq<usize>, v: Seq<(CompressedRistretto, u64)>) -> Seq<Seq<u64>> {
    Seq::new(
        ms.len(),
        |k: int| seq![ms[k][0], (ms[k][1] - occurrences(who, ms[k][0] as int) * cut_of(v, ms[k][0] as int)) as u64],
    )
}

pub open spec fn credits_fit(ms: Seq<Seq<u64>>, who: Seq<usize>, amount: int) -> bool {
    forall|k: int| 0 <= k < ms.len() ==> ms[k][1] + #[trigger] occurrences(who, ms[k][0] as int) * amount <= u64::MAX
}

pub open spec fn debits_fit(ms: Seq<Seq<u64>>, who: Seq<usize>, v: Seq<(CompressedRistretto, u64)>) -> bool {
    forall|k: int|
        0 <= k < ms.len() ==> #[trigger] occurrences(who, ms[k][0] as int) * cut_of(v, ms[k][0] as int) <= ms[k][1]
}

/// The records after the block's payments, as `scan_as_noone` makes them on the
/// table, except that each punishment is a cut of the stake the table had before
/// the block.
pub open spec fn records_paid(ms: Seq<Seq<u64>>, v: Seq<(CompressedRistretto, u64)>, cs: Seq<Seq<usize>>, o: BlockOutcome) -> Seq<Seq<u64>> {
    let (w, m, f, l) = payees(cs, o);
    let m1 = credited(ms, w, (o.minted as int) / (w.len() as int));
    let m2 = credited(m1, f, (o.fees as int) / (f.len() as int));
    let m3 = debited(m2, m, v);
    credited(m3, l, cut_total(v, m) / (l.len() as int))
}

pub open spec fn records_payable(ms: Seq<Seq<u64>>, v: Seq<(CompressedRistretto, u64)>, cs: Seq<Seq<usize>>, o: BlockOutcome) -> bool {
    &&& o.shards@.len() >= 1
    &&& forall|k: int| 0 <= k < o.shards@.len() ==> (#[trigger] o.shards@[k] as int) < cs.len()
    &&& max_shard(o.shards@) + 1 < cs.len()
    &&& {
        let (w, m, f, l) = payees(cs, o);
        let m1 = credited(ms, w, (o.minted as int) / (w.len() as int));
        let m2 = credited(m1, f, (o.fees as int) / (f.len() as int));
        let m3 = debited(m2, m, v);
        &&& w.len() > 0 && f.len() > 0 && l.len() > 0
        &&& indices_below(m, v.len())
        &&& credits_fit(ms, w, (o.minted as int) / (w.len() as int))
        &&& credits_fit(m1, f, (o.fees as int) / (f.len() as int))
        &&& cut_total(v, m) <= u64::MAX
        &&& debits_fit(m2, m, v)
        &&& credits_fit(m3, l, cut_total(v, m) / (l.len() as int))
    }
}

/// How often `p` occurs in `s`.
pub open spec fn count_u64(s: Seq<u64>, p: u64) -> nat
    decreases s.len(),
{
    if s.len() == 0 {
        0
    } else {
        count_u64(s.drop_last(), p) + if s.last() == p {
            1nat
        } else {
            0nat
        }
    }
}

/// The records after dropping, from the top index `i - 1` down, each record whose
/// position leaves, once per listing of that position (so a position listed twice
/// also drops the record after it).
pub open spec fn strip(cur: Seq<Seq<u64>>, orig: Seq<Seq<u64>>, out: Seq<u64>, i: nat) -> Seq<Seq<u64>>
    decreases i,
{
    if i == 0 {
        cur
    } else {
        let j = (i - 1) as int;
        let k = count_u64(out, orig[j][0]);
        strip(cur.take(j) + cur.skip(j + k), orig, out, (i - 1) as nat)
    }
}

/// Every drop in `strip` has a record to drop.
pub open spec fn strip_ok(cur: Seq<Seq<u64>>, orig: Seq<Seq<u64>>, out: Seq<u64>, i: nat) -> bool
    decreases i,
{
    if i == 0 {
        true
    } else {
        let j = (i - 1) as int;
        let k = count_u64(out, orig[j][0]);
        j + k <= cur.len() && strip_ok(cur.take(j) + cur.skip(j + k), orig, out, (i - 1) as nat)
    }
}

/// How many leading departures lie below position `p`.
pub open spec fn lead_below(out: Seq<u64>, p: u64) -> nat
    decreases out.len(),
{
    if out.len() == 0 || out[0] >= p {
        0
    } else {
        1 + lead_below(out.drop_first(), p)
    }
}

/// The records with each position moved down past the leading departures below it.
pub open spec fn moved_down(ms: Seq<Seq<u64>>, out: Seq<u64>) -> Seq<Seq<u64>> {
    Seq::new(ms.len(), |k: int| seq![(ms[k][0] - lead_below(out, ms[k][0])) as u64, ms[k][1]])
}

/// The positions of the records never fall below zero when moved down.
pub open spec fn movable(ms: Seq<Seq<u64>>, out: Seq<u64>) -> bool {
    forall|k: int| 0 <= k < ms.len() ==> #[trigger] lead_below(out, ms[k][0]) <= ms[k][0]
}

/// The records of stakes received in the block: `(i, amount)` for the `i`-th
/// joining stake becomes `[height + i, amount]`.
pub open spec fn new_records(received: Seq<(u64, u64)>, height: int) -> Seq<Seq<u64>> {
    Seq::new(received.len(), |k: int| seq![(received[k].0 + height) as u64, received[k].1])
}

/// A staker's records and table height after it scans a block.
pub open spec fn scanned_records(
    ms: Seq<Seq<u64>>,
    height: u64,
    v: Seq<(CompressedRistretto, u64)>,
    cs: Seq<Seq<usize>>,
    o: BlockOutcome,
    received: Seq<(u64, u64)>,
) -> (Seq<Seq<u64>>, int) {
    let paid = records_paid(ms, v, cs, o);
    let kept = strip(paid, paid, o.stkout@, paid.len());
    let h = height - o.stkout@.len();
    (moved_down(kept, o.stkout@) + new_records(received, h), h + o.stkin@.len())
}

pub open spec fn scannable(
    ms: Seq<Seq<u64>>,
    height: u64,
    v: Seq<(CompressedRistretto, u64)>,
    cs: Seq<Seq<usize>>,
    o: BlockOutcome,
    received: Seq<(u64, u64)>,
) -> bool {
    let paid = records_paid(ms, v, cs, o);
    let kept = strip(paid, paid, o.stkout@, paid.len());
    let h = height - o.stkout@.len();
    &&& records_payable(ms, v, cs, o)
    &&& strip_ok(paid, paid, o.stkout@, paid.len())
    &&& movable(kept, o.stkout@)
    &&& o.stkout@.len() <= height
    &&& h + o.stkin@.len() <= u64::MAX
    &&& forall|k: int| 0 <= k < received.len() ==> #[trigger] received[k].0 + h <= u64::MAX
}

fn leading_below(out: &Vec<u64>, p: u64) -> (d: u64)
    ensures
        d == lead_below(out@, p),
{
    let mut t: usize = 0;
    assert(out@.skip(0) =~= out@);
    while t < out.len()
        invariant
            t <= out@.len(),
            forall|q: int| 0 <= q < t ==> out@[q] < p,
            lead_below(out@, p) == t + lead_below(out@.skip(t as int), p),
        decreases out@.len() - t,
    {
        proof {
            assert(out@.skip(t as int).drop_first() =~= out@.skip(t + 1));
            assert(out@.skip(t as int)[0] == out@[t as int]);
        }
        if out[t] >= p {
            return t as u64;
        }
        t = t + 1;
    }
    assert(out@.skip(t as int).len() == 0);
    t as u64
}

fn copy_records(mine: &Vec<[u64; 2]>) -> (r: Vec<[u64; 2]>)
    ensures
        r@ == mine@,
{
    let mut r: Vec<[u64; 2]> = Vec::new();
    let mut i: usize = 0;
    while i < mine.len()
        invariant
            i <= mine@.len(),
            r@ == mine@.take(i as int),
        decreases mine@.len() - i,
    {
        r.push(mine[i]);
        proof {
            assert(mine@.take(i + 1) =~= mine@.take(i as int).push(mine@[i as int]));
        }
        i = i + 1;
    }
    assert(mine@.take(mine@.len() as int) =~= mine@);
    r
}

proof fn lemma_records_take_skip(m: Seq<[u64; 2]>, j: int, k: int)
    requires
        0 <= j <= j + k <= m.len(),
    ensures
        records(m.take(j) + m.skip(j + k)) == records(m).take(j) + records(m).skip(j + k),
{
    assert(records(m.take(j) + m.skip(j + k)) =~= records(m).take(j) + records(m).skip(j + k));
}

/// Applies a block to a staker's own records and its count of table entries:
/// the payments by the committee rules, the departures (dropping records whose
/// position leaves and moving the others down), then the stakes it received.
pub fn scanstk(
    o: &BlockOutcome,
    received: &Vec<(u64, u64)>,
    mine: &mut Vec<[u64; 2]>,
    height: &mut u64,
    comittee: &Vec<Vec<usize>>,
    valinfo: &Vec<(CompressedRistretto, u64)>,
)
    requires
        scannable(records(old(mine)@), *old(height), valinfo@, committees_view(comittee@), *o, received@),
    ensures
        (records(final(mine)@), *final(height) as int) == scanned_records(
            records(old(mine)@),
            *old(height),
            valinfo@,
            committees_view(comittee@),
            *o,
            received@,
        ),
{
    let ghost ms = records(mine@);
    let ghost v = valinfo@;
    let ghost cs = committees_view(comittee@);
    let ghost (w, m, f, l) = payees(cs, *o);
    assert(cs[o.shards@[0] as int] == comittee@[o.shards@[0] as int]@);
    let (winners, masochists) = split_committee(&comittee[o.shards[0] as usize], &o.signers, o.validated);
    let feelovers = fee_recipients(comittee, &o.shards, &winners, o.validated);
    let top = largest_shard(&o.shards);
    let lucky = comittee[top as usize + 1].clone();
    assert(lucky@ == l);
    assert(winners@ == w && masochists@ == m && feelovers@ == f);
    let fees: u64 = o.fees / feelovers.len() as u64;
    let inflation: u64 = o.minted / winners.len() as u64;
    let ghost m1 = credited(ms, w, (o.minted as int) / (w.len() as int));
    let ghost m2 = credited(m1, f, (o.fees as int) / (f.len() as int));
    let ghost m3 = debited(m2, m, v);
    proof {
        assert forall|k: int| 0 <= k < mine@.len() implies mine@[k]@[1] + #[trigger] occurrences(
            w,
            mine@[k]@[0] as int,
        ) * inflation <= u64::MAX by {
            assert(ms[k] == mine@[k]@);
        }
    }
    credit(mine, &winners, inflation);
    assert(records(mine@) =~= m1);
    proof {
        assert forall|k: int| 0 <= k < mine@.len() implies mine@[k]@[1] + #[trigger] occurrences(
            f,
            mine@[k]@[0] as int,
        ) * fees <= u64::MAX by {
            assert(m1[k] == mine@[k]@);
        }
    }
    credit(mine, &feelovers, fees);
    assert(records(mine@) =~= m2);
    proof {
        assert forall|k: int| 0 <= k < mine@.len() implies #[trigger] occurrences(
            m,
            mine@[k]@[0] as int,
        ) * cut_of(valinfo@, mine@[k]@[0] as int) <= mine@[k]@[1] by {
            assert(m2[k] == mine@[k]@);
        }
    }
    let pot = debit(mine, &masochists, valinfo);
    assert(records(mine@) =~= m3);
    let share: u64 = pot / lucky.len() as u64;
    proof {
        assert forall|k: int| 0 <= k < mine@.len() implies mine@[k]@[1] + #[trigger] occurrences(
            l,
            mine@[k]@[0] as int,
        ) * share <= u64::MAX by {
            assert(m3[k] == mine@[k]@);
        }
    }
    credit(mine, &lucky, share);
    let ghost paid = records_paid(ms, v, cs, *o);
    assert(records(mine@) =~= paid);
    // Departures: drop the records of leaving positions, top index first.
    let out = &o.stkout;
    let snapshot = copy_records(mine);
    let mut i: usize = snapshot.len();
    while i > 0
        invariant
            i <= snapshot@.len(),
            records(snapshot@) == paid,
            strip_ok(records(mine@), paid, out@, i as nat),
            strip(records(mine@), paid, out@, i as nat) == strip(paid, paid, out@, paid.len()),
        decreases i,
    {
        i = i - 1;
        let p = snapshot[i][0];
        let ghost cur = mine@;
        let ghost k = count_u64(out@, paid[i as int][0]);
        assert(paid[i as int][0] == p);
        let mut t: usize = 0;
        assert(out@.take(0) =~= Seq::<u64>::empty());
        while t < out.len()
            invariant
                t <= out@.len(),
                p == paid[i as int][0],
                k == count_u64(out@, p),
                i + k <= cur.len(),
                count_u64(out@.take(t as int), p) <= k,
                mine@ == cur.take(i as int) + cur.skip(i + count_u64(out@.take(t as int), p)),
            decreases out@.len() - t,
        {
            proof {
                assert(out@.take(t + 1).drop_last() =~= out@.take(t as int));
                lemma_count_prefix(out@, t + 1, p);
            }
            if out[t] == p {
                let ghost c = count_u64(out@.take(t as int), p);
                mine.remove(i);
                proof {
                    assert(mine@ =~= cur.take(i as int) + cur.skip(i + c + 1));
                }
            }
            t = t + 1;
        }
        proof {
            assert(out@.take(out@.len() as int) =~= out@);
            lemma_records_take_skip(cur, i as int, k as int);
        }
    }
    let ghost kept = strip(paid, paid, out@, paid.len());
    assert(records(mine@) == kept);
    // Move the remaining positions down past the departures below them.
    let snap2 = copy_records(mine);
    let mut q: usize = 0;
    while q < snap2.len()
        invariant
            q <= snap2@.len(),
            records(snap2@) == kept,
            movable(kept, out@),
            mine@.len() == snap2@.len(),
            forall|r: int| 0 <= r < snap2@.len() ==> #[trigger] mine@[r]@ == if r < q {
                seq![(snap2@[r]@[0] - lead_below(out@, snap2@[r]@[0])) as u64, snap2@[r]@[1]]
            } else {
                snap2@[r]@
            },
        decreases snap2@.len() - q,
    {
        let e = snap2[q];
        let d = leading_below(out, e[0]);
        assert(kept[q as int] == e@);
        mine.set(q, [e[0] - d, e[1]]);
        q = q + 1;
    }
    assert(records(mine@) =~= moved_down(kept, out@));
    *height = *height - out.len() as u64;
    let h: u64 = *height;
    let ghost moved = records(mine@);
    let mut r: usize = 0;
    while r < received.len()
        invariant
            r <= received@.len(),
            forall|k: int| 0 <= k < received@.len() ==> #[trigger] received@[k].0 + h <= u64::MAX,
            records(mine@) == moved + new_records(received@.take(r as int), h as int),
        decreases received@.len() - r,
    {
        let (i, amount) = received[r];
        let ghost before = mine@;
        mine.push([i + h, amount]);
        proof {
            let lhs = records(mine@);
            let rhs = moved + new_records(received@.take(r + 1), h as int);
            let old_rhs = moved + new_records(received@.take(r as int), h as int);
            assert(received@.take(r + 1)[r as int] == received@[r as int]);
            assert(received@[r as int] == (i, amount));
            assert(records(before) == old_rhs);
            assert(records(before).len() == before.len());
            assert(new_records(received@.take(r as int), h as int).len() == r);
            assert(new_records(received@.take(r + 1), h as int).len() == r + 1);
            assert(lhs.len() == rhs.len());
            assert forall|k: int| 0 <= k < lhs.len() implies lhs[k] == rhs[k] by {
                if k < before.len() {
                    assert(records(before)[k] == old_rhs[k]);
                    if k >= moved.len() {
                        assert(received@.take(r + 1)[k - moved.len()] == received@.take(r as int)[k - moved.len()]);
                    }
                } else {
                    assert(mine@[k]@ =~= seq![(i + h) as u64, amount]);
                }
            }
            assert(lhs =~= rhs);
        }
        r = r + 1;
    }
    assert(received@.take(received@.len() as int) =~= received@);
    *height = *height + o.stkin.len() as u64;
}

proof fn lemma_count_prefix(s: Seq<u64>, i: int, p: u64)
    requires
        0 <= i <= s.len(),
    ensures
        count_u64(s.take(i), p) <= count_u64(s, p),
    decreases s.len() - i,
{
    if i == s.len() {
        assert(s.take(i) =~= s);
    } else {
        assert(s.take(i + 1).drop_last() =~= s.take(i));
        lemma_count_prefix(s, i + 1, p);
    }
}


/// A record stays when its position is not among the departures.
pub open spec fn stays_fn(out: Seq<u64>) -> spec_fn(Seq<u64>) -> bool {
    |e: Seq<u64>| !out.contains(e[0])
}

proof fn lemma_count_distinct(out: Seq<u64>, p: u64)
    requires
        forall|a: int, b: int| 0 <= a < b < out.len() ==> out[a] != out[b],
    ensures
        count_u64(out, p) == if out.contains(p) {
            1nat
        } else {
            0nat
        },
    decreases out.len(),
{
    if out.len() > 0 {
        let rest = out.drop_last();
        lemma_count_distinct(rest, p);
        if out.last() == p {
            assert(!rest.contains(p)) by {
                if rest.contains(p) {
                    let a = choose|a: int| 0 <= a < rest.len() && rest[a] == p;
                    assert(out[a] == out[out.len() - 1]);
                }
            }
            assert(out.contains(p)) by {
                assert(out[out.len() - 1] == p);
            }
        } else {
            assert(out.contains(p) == rest.contains(p)) by {
                if out.contains(p) {
                    let a = choose|a: int| 0 <= a < out.len() && out[a] == p;
                    assert(a < out.len() - 1);
                    assert(rest[a] == p);
                }
                if rest.contains(p) {
                    let a = choose|a: int| 0 <= a < rest.len() && rest[a] == p;
                    assert(out[a] == p);
                }
            }
        }
    }
}

proof fn lemma_strip_filters(cur: Seq<Seq<u64>>, orig: Seq<Seq<u64>>, out: Seq<u64>, i: nat)
    requires
        forall|a: int, b: int| 0 <= a < b < out.len() ==> out[a] != out[b],
        i <= orig.len(),
        cur == orig.take(i as int) + orig.skip(i as int).filter(stays_fn(out)),
    ensures
        strip_ok(cur, orig, out, i),
        strip(cur, orig, out, i) == orig.filter(stays_fn(out)),
    decreases i,
{
    let pred = stays_fn(out);
    if i == 0 {
        assert(orig.take(0) =~= Seq::<Seq<u64>>::empty());
        assert(orig.skip(0) =~= orig);
        assert(cur =~= orig.filter(pred));
    } else {
        let j = (i - 1) as int;
        let x = orig[j];
        let k = count_u64(out, x[0]);
        lemma_count_distinct(out, x[0]);
        let rest = orig.skip(i as int).filter(pred);
        assert(orig.skip(j) =~= seq![x] + orig.skip(i as int));
        orig.skip(i as int).lemma_filter_prepend(x, pred);
        assert(cur.take(j) =~= orig.take(j));
        assert(cur.skip(j) =~= seq![x] + rest);
        let next = cur.take(j) + cur.skip(j + k);
        if k == 1 {
            assert(cur.skip(j + 1) =~= rest);
            assert(next =~= orig.take(j) + orig.skip(j).filter(pred));
        } else {
            assert(next =~= orig.take(j) + orig.skip(j).filter(pred));
        }
        lemma_strip_filters(next, orig, out, (i - 1) as nat);
    }
}

/// With each departing position listed once, dropping the departures keeps exactly
/// the records whose position stays, in their order.
pub proof fn law_departures_keep_staying_records(orig: Seq<Seq<u64>>, out: Seq<u64>)
    requires
        forall|a: int, b: int| 0 <= a < b < out.len() ==> out[a] != out[b],
    ensures
        strip_ok(orig, orig, out, orig.len()),
        strip(orig, orig, out, orig.len()) == orig.filter(stays_fn(out)),
{
    assert(orig.take(orig.len() as int) + orig.skip(orig.len() as int).filter(stays_fn(out)) =~= orig) by {
        reveal(Seq::filter);
        assert(orig.skip(orig.len() as int).len() == 0);
        assert(orig.skip(orig.len() as int).filter(stays_fn(out)) =~= Seq::<Seq<u64>>::empty());
    }
    lemma_strip_filters(orig, orig, out, orig.len());
}


/// Pays an empty block of `shard`: its committee shares the minted stake equally.
pub fn pay_all_empty(minted: u64, shard: usize, comittee: &Vec<Vec<usize>>, valinfo: &mut Vec<(CompressedRistretto, u64)>)
    requires
        shard < comittee@.len(),
        comittee@[shard as int]@.len() > 0,
        indices_below(comittee@[shard as int]@, old(valinfo)@.len()),
        rewards_fit(old(valinfo)@, comittee@[shard as int]@, (minted as int) / (comittee@[shard as int]@.len() as int)),
    ensures
        final(valinfo)@ == rewarded(
            old(valinfo)@,
            comittee@[shard as int]@,
            (minted as int) / (comittee@[shard as int]@.len() as int),
        ),
{
    let winners = &comittee[shard];
    let inflation: u64 = minted / winners.len() as u64;
    let ghost v0 = valinfo@;
    reward(valinfo, winners, inflation);
    proof {
        let r = rewarded(v0, winners@, inflation as int);
        assert forall|k: int| 0 <= k < r.len() implies #[trigger] valinfo@[k] == r[k] by {
            assert(stake_keys(valinfo@)[k] == valinfo@[k].0);
            assert(stake_keys(v0)[k] == v0[k].0);
        }
        assert(valinfo@ =~= r);
    }
}

/// Pays an empty block of `shard` into a staker's own records.
pub fn pay_self_empty(minted: u64, shard: usize, comittee: &Vec<Vec<usize>>, mine: &mut Vec<[u64; 2]>)
    requires
        shard < comittee@.len(),
        comittee@[shard as int]@.len() > 0,
        credits_fit(records(old(mine)@), comittee@[shard as int]@, (minted as int) / (comittee@[shard as int]@.len() as int)),
    ensures
        records(final(mine)@) == credited(
            records(old(mine)@),
            comittee@[shard as int]@,
            (minted as int) / (comittee@[shard as int]@.len() as int),
        ),
{
    let winners = &comittee[shard];
    let inflation: u64 = minted / winners.len() as u64;
    let ghost ms = records(mine@);
    proof {
        assert forall|k: int| 0 <= k < mine@.len() implies mine@[k]@[1] + #[trigger] occurrences(
            winners@,
            mine@[k]@[0] as int,
        ) * inflation <= u64::MAX by {
            assert(ms[k] == mine@[k]@);
        }
    }
    credit(mine, winners, inflation);
    assert(records(mine@) =~= credited(ms, winners@, inflation as int));
}


/// How many departures lie below position `loc`.
pub open spec fn below_count(out: Seq<u64>, loc: u64) -> nat
    decreases out.len(),
{
    if out.len() == 0 {
        0
    } else {
        below_count(out.drop_last(), loc) + if out.last() < loc {
            1nat
        } else {
            0nat
        }
    }
}

/// Where the staker at `location` is after the stakers at `stkout` leave: `None`
/// when it leaves itself, otherwise its position moved down past every
/// departure below it.
pub fn shift_location(location: u64, stkout: &Vec<u64>) -> (r: Option<u64>)
    requires
        !stkout@.contains(location) ==> below_count(stkout@, location) <= location,
    ensures
        r is None <==> stkout@.contains(location),
        r matches Some(l) ==> l == location - below_count(stkout@, location),
{
    let mut below: u64 = 0;
    let mut i: usize = 0;
    while i < stkout.len()
        invariant
            i <= stkout@.len(),
            below == below_count(stkout@.take(i as int), location),
            below <= i,
            forall|k: int| 0 <= k < i ==> stkout@[k] != location,
        decreases stkout@.len() - i,
    {
        proof {
            assert(stkout@.take(i + 1).drop_last() =~= stkout@.take(i as int));
        }
        if stkout[i] == location {
            assert(stkout@[i as int] == location);
            return None;
        }
        if stkout[i] < location {
            below = below + 1;
        }
        i = i + 1;
    }
    assert(stkout@.take(stkout@.len() as int) =~= stkout@);
    Some(location - below)
}

proof fn lemma_below_all_smaller(out: Seq<u64>, loc: u64, loc2: u64)
    requires
        forall|k: int| 0 <= k < out.len() ==> out[k] < loc2,
        loc2 <= loc,
        loc2 + 1 >= loc,
    ensures
        below_count(out, loc) == below_count(out, loc2),
    decreases out.len(),
{
    if out.len() > 0 {
        lemma_below_all_smaller(out.drop_last(), loc, loc2);
    }
}

/// After the stakers at `out` (ascending, each in the table) leave, the staker that
/// was at `loc` and stays is at `loc` moved down past the departures below it:
/// a staker keeps its entry however many others leave.
pub proof fn law_departures_move_stakers_down(b: StakerBooks, out: Seq<u64>, loc: u64)
    requires
        forall|i: int, j: int| 0 <= i < j < out.len() ==> out[i] < out[j],
        forall|i: int| 0 <= i < out.len() ==> (#[trigger] out[i] as usize) < b.0.len() && out[i] as usize == out[i],
        (loc as int) < b.0.len(),
        !out.contains(loc),
    ensures
        exits_valid(b.0.len(), out),
        below_count(out, loc) <= loc,
        loc - below_count(out, loc) < after_exits(b, out).0.len(),
        after_exits(b, out).0[loc - below_count(out, loc)] == b.0[loc as int],
    decreases out.len(),
{
    if out.len() > 0 {
        let x = out.last();
        let rest = out.drop_last();
        let nb = book_without(b, x as usize);
        assert(x != loc) by {
            assert(out[out.len() - 1] == x);
        }
        assert forall|i: int| 0 <= i < rest.len() implies (#[trigger] rest[i] as usize) < nb.0.len() by {
            assert(out[i] < out[out.len() - 1]);
        }
        if loc < x {
            assert(!rest.contains(loc)) by {
                if rest.contains(loc) {
                    let k = choose|k: int| 0 <= k < rest.len() && rest[k] == loc;
                    assert(out[k] == loc);
                }
            }
            law_departures_move_stakers_down(nb, rest, loc);
            assert(nb.0[loc as int] == b.0[loc as int]);
        } else {
            let l2 = (loc - 1) as u64;
            assert(!rest.contains(l2)) by {
                if rest.contains(l2) {
                    let k = choose|k: int| 0 <= k < rest.len() && rest[k] == l2;
                    assert(out[k] < x);
                }
            }
            assert forall|k: int| 0 <= k < rest.len() implies rest[k] < l2 by {
                assert(out[k] < out[out.len() - 1]);
                assert(rest[k] != l2) by {
                    assert(!rest.contains(l2));
                }
            }
            law_departures_move_stakers_down(nb, rest, l2);
            lemma_below_all_smaller(rest, loc, l2);
            assert(nb.0[l2 as int] == b.0[loc as int]);
        }
    }
}

} // verus!
