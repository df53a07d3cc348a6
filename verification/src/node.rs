//! The decisions a staker node makes when a lightning block arrives: whether to
//! take it, catching up on the blocks it missed, settling the block, rotating the
//! committees and updating the leader votes. The node's I/O (network, files,
//! clocks, the wallet scan) stays with its caller, which hands in what it
//! learned; the signature checks are `validation`'s.
use crate::keyed_hash::{digest_values, KeyedDigest};
use crate::codec::le_encode;
use crate::curve::scalar_bytes;
use crate::staking::{
    committees_view, credited, credits_fit, indices_below, lightning_settleable, pay_all_empty,
    pay_self_empty, queues_view, records, rewarded, rewards_fit, scan_lightning_as_noone, scannable,
    scanned_records, scanstk, settled_lightning, BlockOutcome,
};
use crate::validation::{
    draws_from, hash_scalar, hash_to_scalar, seats_in_range, select_stakers,
    selection_outcome, stakes, total_stake,
};
use curve25519_dalek::ristretto::CompressedRistretto;
use std::collections::VecDeque;
use vstd::prelude::*;

verus! {

/// How many empty blocks in a row are paid as empty before one is settled in full.
pub const BLANKS_IN_A_ROW: u64 = 60;

/// One committee's lists after a selection round over `block` and `bnum` for
/// shard `shard` with the winner digests `wd` and the seat digests `ld`: the
/// winners drawn with the hasher keyed `(0, shard)`, the seats with the hasher
/// keyed `(1, shard)`.
pub open spec fn rotated(
    before: (Seq<usize>, Seq<usize>, Seq<usize>),
    after: (Seq<usize>, Seq<usize>, Seq<usize>),
    stk: Seq<u64>,
    block: Seq<u8>,
    bnum: u64,
    shard: u128,
    wd: Seq<KeyedDigest>,
    ld: Seq<KeyedDigest>,
) -> bool {
    &&& draws_from(wd, 0, shard, block, bnum)
    &&& draws_from(ld, 1, shard, block, bnum)
    &&& after == selection_outcome(
        before.0,
        before.1,
        before.2,
        stk,
        digest_values(wd),
        digest_values(ld),
    )
}

/// Runs a selection round for every committee `i` (as shard `i`), over the last
/// block's name `block` and the height `bnum`.
pub fn rotate_committees(
    block: &Vec<u8>,
    bnum: u64,
    queue: &mut Vec<VecDeque<usize>>,
    exitqueue: &mut Vec<VecDeque<usize>>,
    comittee: &mut Vec<Vec<usize>>,
    stkinfo: &Vec<(CompressedRistretto, u64)>,
) -> (draws: Vec<(Vec<KeyedDigest>, Vec<KeyedDigest>)>)
    requires
        total_stake(stakes(stkinfo@)) > 0,
        old(queue)@.len() >= old(comittee)@.len(),
        old(exitqueue)@.len() >= old(comittee)@.len(),
        forall|i: int|
            0 <= i < old(comittee)@.len() ==> seats_in_range(
                #[trigger] old(exitqueue)@[i]@,
                old(comittee)@[i]@,
            ),
    ensures
        final(queue)@.len() == old(queue)@.len(),
        final(exitqueue)@.len() == old(exitqueue)@.len(),
        final(comittee)@.len() == old(comittee)@.len(),
        draws@.len() == old(comittee)@.len(),
        forall|i: int|
            0 <= i < old(comittee)@.len() ==> rotated(
                (old(queue)@[i]@, old(exitqueue)@[i]@, old(comittee)@[i]@),
                (#[trigger] final(queue)@[i]@, final(exitqueue)@[i]@, final(comittee)@[i]@),
                stakes(stkinfo@),
                block@,
                bnum,
                i as u128,
                draws@[i].0@,
                draws@[i].1@,
            ),
        forall|i: int|
            old(comittee)@.len() <= i < old(queue)@.len() ==> #[trigger] final(queue)@[i] == old(queue)@[i],
        forall|i: int|
            old(comittee)@.len() <= i < old(exitqueue)@.len() ==> #[trigger] final(exitqueue)@[i] == old(
                exitqueue,
            )@[i],
{
    let ghost q0 = queue@;
    let ghost e0 = exitqueue@;
    let ghost c0 = comittee@;
    let n = comittee.len();
    let mut draws: Vec<(Vec<KeyedDigest>, Vec<KeyedDigest>)> = Vec::new();
    let mut i: usize = 0;
    while i < n
        invariant
            n == c0.len(),
            i <= n,
            draws@.len() == i,
            queue@.len() == q0.len(),
            exitqueue@.len() == e0.len(),
            comittee@.len() == c0.len(),
            q0.len() >= n,
            e0.len() >= n,
            total_stake(stakes(stkinfo@)) > 0,
            forall|k: int| 0 <= k < n ==> seats_in_range(#[trigger] e0[k]@, c0[k]@),
            forall|k: int|
                0 <= k < i ==> rotated(
                    (q0[k]@, e0[k]@, c0[k]@),
                    (#[trigger] queue@[k]@, exitqueue@[k]@, comittee@[k]@),
                    stakes(stkinfo@),
                    block@,
                    bnum,
                    k as u128,
                    draws@[k].0@,
                    draws@[k].1@,
                ),
            forall|k: int| i <= k < q0.len() ==> #[trigger] queue@[k] == q0[k],
            forall|k: int| i <= k < e0.len() ==> #[trigger] exitqueue@[k] == e0[k],
            forall|k: int| i <= k < c0.len() ==> #[trigger] comittee@[k] == c0[k],
        decreases n - i,
    {
        let ghost qb = queue@;
        let ghost eb = exitqueue@;
        let ghost cb = comittee@;
        assert(seats_in_range(e0[i as int]@, c0[i as int]@));
        let mut q = queue.remove(i);
        let mut e = exitqueue.remove(i);
        let mut c = comittee.remove(i);
        let ghost (qi, ei, ci) = (q@, e@, c@);
        let d = select_stakers(block, &bnum, &(i as u128), &mut q, &mut e, &mut c, stkinfo);
        assert(rotated((qi, ei, ci), (q@, e@, c@), stakes(stkinfo@), block@, bnum, i as u128, d.0@, d.1@));
        let ghost db = draws@;
        draws.push(d);
        queue.insert(i, q);
        exitqueue.insert(i, e);
        comittee.insert(i, c);
        proof {
            assert(queue@ =~= qb.update(i as int, queue@[i as int]));
            assert(exitqueue@ =~= eb.update(i as int, exitqueue@[i as int]));
            assert(comittee@ =~= cb.update(i as int, comittee@[i as int]));
            assert forall|k: int|
                0 <= k < i + 1 implies rotated(
                (q0[k]@, e0[k]@, c0[k]@),
                (#[trigger] queue@[k]@, exitqueue@[k]@, comittee@[k]@),
                stakes(stkinfo@),
                block@,
                bnum,
                k as u128,
                draws@[k].0@,
                draws@[k].1@,
            ) by {
                if k < i {
                    assert(draws@[k] == db[k]);
                    assert(queue@[k] == qb[k]);
                    assert(exitqueue@[k] == eb[k]);
                    assert(comittee@[k] == cb[k]);
                } else {
                    assert(qb[k] == q0[k]);
                    assert(eb[k] == e0[k]);
                    assert(cb[k] == c0[k]);
                }
            }
        }
        i = i + 1;
    }
    draws
}

/// What a staker node keeps of the chain: the staker table, the queues, exit
/// queues and committees, its own stake records, the leader votes of its head
/// shard's committee seats, its count of table entries, the height, the height of the last nonempty block,
/// the head shard and the last block's name.
pub struct ChainBooks {
    pub stkinfo: Vec<(CompressedRistretto, u64)>,
    pub queue: Vec<VecDeque<usize>>,
    pub exitqueue: Vec<VecDeque<usize>>,
    pub comittee: Vec<Vec<usize>>,
    pub smine: Vec<[u64; 2]>,
    pub votes: Vec<i32>,
    pub sheight: u64,
    pub bnum: u64,
    pub lastbnum: u64,
    pub headshard: usize,
    pub lastname: Vec<u8>,
}

impl ChainBooks {
    /// The head shard's committee.
    pub open spec fn head(&self) -> Seq<usize> {
        self.comittee@[self.headshard as int]@
    }

    /// What each head-shard committee member gets of `minted`.
    pub open spec fn share(&self, minted: u64) -> int {
        (minted as int) / (self.head().len() as int)
    }

    /// The staker table after an empty block pays the head committee `minted`.
    pub open spec fn paid_empty(&self, minted: u64) -> Seq<(CompressedRistretto, u64)> {
        rewarded(self.stkinfo@, self.head(), self.share(minted))
    }

    /// The votes with the seats of the head shard's first two exit-queue entries
    /// cleared.
    pub open spec fn votes_cleared(&self) -> Seq<i32> {
        let e = self.exitqueue@[self.headshard as int]@;
        self.votes@.update(e[0] as int, 0).update(e[1] as int, 0)
    }

    /// A selection round can be run on every committee over the table `stk`.
    pub open spec fn rotatable(&self, stk: Seq<(CompressedRistretto, u64)>) -> bool {
        &&& total_stake(stakes(stk)) > 0
        &&& self.queue@.len() >= self.comittee@.len()
        &&& self.exitqueue@.len() >= self.comittee@.len()
        &&& forall|i: int|
            0 <= i < self.comittee@.len() ==> seats_in_range(
                #[trigger] self.exitqueue@[i]@,
                self.comittee@[i]@,
            )
    }

    /// The head shard's exit queue names two vote slots to clear.
    pub open spec fn clearable(&self) -> bool {
        let e = self.exitqueue@[self.headshard as int]@;
        &&& self.headshard < self.exitqueue@.len()
        &&& e.len() >= 2
        &&& (e[0] as int) < self.votes@.len()
        &&& (e[1] as int) < self.votes@.len()
    }

    /// An empty block can pay the head committee `minted`.
    pub open spec fn empty_payable(&self, minted: u64) -> bool {
        &&& self.headshard < self.comittee@.len()
        &&& self.head().len() > 0
        &&& indices_below(self.head(), self.stkinfo@.len())
        &&& rewards_fit(self.stkinfo@, self.head(), self.share(minted))
        &&& credits_fit(records(self.smine@), self.head(), self.share(minted))
    }

    /// Whether a lightning block of height `block_bnum` for `shards`, following the
    /// block named `last_name`, is one to take (before its signatures are
    /// checked): not behind the node, with a shard at or after the head shard, and
    /// following the node's last block.
    pub fn takes_lightning(&self, block_bnum: u64, shards: &Vec<u16>, last_name: &Vec<u8>) -> (r: bool)
        ensures
            r == (block_bnum >= self.bnum && shards@.len() > 0 && shards@[0] as int >= self.headshard
                && last_name@ == self.lastname@),
    {
        if block_bnum < self.bnum || shards.len() == 0 || (shards[0] as usize) < self.headshard {
            return false;
        }
        if last_name.len() != self.lastname.len() {
            return false;
        }
        let mut i: usize = 0;
        while i < last_name.len()
            invariant
                i <= last_name@.len(),
                last_name@.len() == self.lastname@.len(),
                forall|k: int| 0 <= k < i ==> last_name@[k] == self.lastname@[k],
            decreases last_name@.len() - i,
        {
            if last_name[i] != self.lastname[i] {
                return false;
            }
            i = i + 1;
        }
        assert(last_name@ =~= self.lastname@);
        true
    }

    /// Ends a round: the votes of the two seats about to leave are cleared, every
    /// committee is rotated over the last block's name and the height, and the
    /// height moves on.
    pub fn advance_round(&mut self) -> (draws: Vec<(Vec<KeyedDigest>, Vec<KeyedDigest>)>)
        requires
            old(self).clearable(),
            old(self).rotatable(old(self).stkinfo@),
            old(self).bnum < u64::MAX,
        ensures
            final(self).votes@ == old(self).votes_cleared(),
            final(self).queue@.len() == old(self).queue@.len(),
            final(self).exitqueue@.len() == old(self).exitqueue@.len(),
            final(self).comittee@.len() == old(self).comittee@.len(),
            draws@.len() == old(self).comittee@.len(),
            forall|i: int|
                0 <= i < old(self).comittee@.len() ==> rotated(
                    (old(self).queue@[i]@, old(self).exitqueue@[i]@, old(self).comittee@[i]@),
                    (#[trigger] final(self).queue@[i]@, final(self).exitqueue@[i]@, final(self).comittee@[i]@),
                    stakes(old(self).stkinfo@),
                    old(self).lastname@,
                    old(self).bnum,
                    i as u128,
                    draws@[i].0@,
                    draws@[i].1@,
                ),
            forall|i: int|
                old(self).comittee@.len() <= i < old(self).queue@.len() ==> #[trigger] final(self).queue@[i]
                    == old(self).queue@[i],
            forall|i: int|
                old(self).comittee@.len() <= i < old(self).exitqueue@.len()
                    ==> #[trigger] final(self).exitqueue@[i] == old(self).exitqueue@[i],
            final(self).bnum == old(self).bnum + 1,
            final(self).stkinfo@ == old(self).stkinfo@,
            final(self).smine@ == old(self).smine@,
            final(self).sheight == old(self).sheight,
            final(self).lastbnum == old(self).lastbnum,
            final(self).headshard == old(self).headshard,
            final(self).lastname@ == old(self).lastname@,
    {
        let h = self.headshard;
        let e0 = self.exitqueue[h][0];
        let e1 = self.exitqueue[h][1];
        self.votes.set(e0, 0);
        self.votes.set(e1, 0);
        let draws = rotate_committees(
            &self.lastname,
            self.bnum,
            &mut self.queue,
            &mut self.exitqueue,
            &mut self.comittee,
            &self.stkinfo,
        );
        self.bnum = self.bnum + 1;
        draws
    }

    /// Pays the head committee `minted` for an empty block, in the table and in the
    /// node's own records.
    pub fn pay_empty_block(&mut self, minted: u64)
        requires
            old(self).empty_payable(minted),
        ensures
            records(final(self).smine@) == credited(
                records(old(self).smine@),
                old(self).head(),
                old(self).share(minted),
            ),
            final(self).stkinfo@ == old(self).paid_empty(minted),
            final(self).queue@ == old(self).queue@,
            final(self).exitqueue@ == old(self).exitqueue@,
            final(self).comittee@ == old(self).comittee@,
            final(self).votes@ == old(self).votes@,
            final(self).bnum == old(self).bnum,
            final(self).sheight == old(self).sheight,
            final(self).lastbnum == old(self).lastbnum,
            final(self).headshard == old(self).headshard,
            final(self).lastname@ == old(self).lastname@,
    {
        let h = self.headshard;
        pay_self_empty(minted, h, &self.comittee, &mut self.smine);
        pay_all_empty(minted, h, &self.comittee, &mut self.stkinfo);
    }

    /// Catches up on one block the node missed, taken as empty: the head committee
    /// is paid `minted`, then the round ends.
    pub fn skip_empty_block(&mut self, minted: u64) -> (draws: Vec<(Vec<KeyedDigest>, Vec<KeyedDigest>)>)
        requires
            old(self).empty_payable(minted),
            old(self).clearable(),
            old(self).rotatable(old(self).paid_empty(minted)),
            old(self).bnum < u64::MAX,
        ensures
            records(final(self).smine@) == credited(
                records(old(self).smine@),
                old(self).head(),
                old(self).share(minted),
            ),
            final(self).stkinfo@ == old(self).paid_empty(minted),
            final(self).votes@ == old(self).votes_cleared(),
            final(self).queue@.len() == old(self).queue@.len(),
            final(self).exitqueue@.len() == old(self).exitqueue@.len(),
            final(self).comittee@.len() == old(self).comittee@.len(),
            draws@.len() == old(self).comittee@.len(),
            forall|i: int|
                0 <= i < old(self).comittee@.len() ==> rotated(
                    (old(self).queue@[i]@, old(self).exitqueue@[i]@, old(self).comittee@[i]@),
                    (#[trigger] final(self).queue@[i]@, final(self).exitqueue@[i]@, final(self).comittee@[i]@),
                    stakes(old(self).paid_empty(minted)),
                    old(self).lastname@,
                    old(self).bnum,
                    i as u128,
                    draws@[i].0@,
                    draws@[i].1@,
                ),
            final(self).bnum == old(self).bnum + 1,
            final(self).sheight == old(self).sheight,
            final(self).lastbnum == old(self).lastbnum,
            final(self).headshard == old(self).headshard,
            final(self).lastname@ == old(self).lastname@,
    {
        self.pay_empty_block(minted);
        self.advance_round()
    }

    /// Whether a lightning block is settled in full (rather than paid as an empty
    /// block): it moves money or stakers, or more than `BLANKS_IN_A_ROW` blocks
    /// have passed since the last block settled in full.
    pub fn settles_in_full(&self, txout_len: usize, stkin_len: usize, stkout_len: usize) -> (r: bool)
        requires
            self.lastbnum <= self.bnum,
        ensures
            r == (!(txout_len == 0 && stkin_len == 0 && stkout_len == 0) || self.bnum - self.lastbnum
                > BLANKS_IN_A_ROW),
    {
        !(txout_len == 0 && stkin_len == 0 && stkout_len == 0) || self.bnum - self.lastbnum > BLANKS_IN_A_ROW
    }

    /// Settles a lightning block in full: the node's own records follow the block
    /// (with the stakes `received` it recognised as its own), the books are
    /// settled, and the block becomes the last one, named by the scalar of the
    /// SHA3-512 digest of its bytes `m`.
    pub fn settle_lightning(&mut self, o: &BlockOutcome, received: &Vec<(u64, u64)>, m: &Vec<u8>)
        requires
            scannable(
                records(old(self).smine@),
                old(self).sheight,
                old(self).stkinfo@,
                committees_view(old(self).comittee@),
                *o,
                received@,
            ),
            lightning_settleable(
                (
                    old(self).stkinfo@,
                    queues_view(old(self).queue@),
                    queues_view(old(self).exitqueue@),
                    committees_view(old(self).comittee@),
                ),
                *o,
            ),
        ensures
            (records(final(self).smine@), final(self).sheight as int) == scanned_records(
                records(old(self).smine@),
                old(self).sheight,
                old(self).stkinfo@,
                committees_view(old(self).comittee@),
                *o,
                received@,
            ),
            (final(self).stkinfo@, queues_view(final(self).queue@), queues_view(final(self).exitqueue@), committees_view(
                final(self).comittee@,
            )) == settled_lightning(
                (
                    old(self).stkinfo@,
                    queues_view(old(self).queue@),
                    queues_view(old(self).exitqueue@),
                    committees_view(old(self).comittee@),
                ),
                *o,
            ),
            final(self).lastbnum == old(self).bnum,
            final(self).lastname@ == le_encode(hash_scalar(m@), 32),
            final(self).votes@ == old(self).votes@,
            final(self).bnum == old(self).bnum,
            final(self).headshard == old(self).headshard,
    {
        scanstk(o, received, &mut self.smine, &mut self.sheight, &self.comittee, &self.stkinfo);
        scan_lightning_as_noone(o, &mut self.stkinfo, &mut self.queue, &mut self.exitqueue, &mut self.comittee);
        self.lastbnum = self.bnum;
        self.lastname = block_name(m);
    }
}

/// The name of a block: the scalar of the SHA3-512 digest of its bytes, as 32
/// little-endian bytes.
pub fn block_name(m: &Vec<u8>) -> (n: Vec<u8>)
    ensures
        n@ == le_encode(hash_scalar(m@), 32),
{
    let s = hash_to_scalar(m);
    let b = scalar_bytes(&s);
    let mut n: Vec<u8> = Vec::new();
    let mut i: usize = 0;
    while i < 32
        invariant
            i <= 32,
            b@.len() == 32,
            n@ == b@.take(i as int),
        decreases 32 - i,
    {
        n.push(b[i]);
        proof {
            assert(b@.take(i + 1) =~= b@.take(i as int).push(b@[i as int]));
        }
        i = i + 1;
    }
    assert(b@.take(32) =~= b@);
    n
}

} // verus!
