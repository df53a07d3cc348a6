//! Transaction records. The one-time account type `A` and the ring-signature
//! ("seal") type `S` are supplied by the account and seal layers.
use crate::codec::{le_decode, le_value, lemma_le_decode_bound, lemma_pow256_values};
use curve25519_dalek::ristretto::CompressedRistretto;
use vstd::prelude::*;

verus! {

/// Why a transaction was refused.
#[derive(Clone, Debug, PartialEq, Eq, Structural)]
pub enum TransactionError {
    InvalidTransaction,
    InvalidOffer,
}

/// A key image ("tag") that marks a spent one-time account.
pub type Tag = CompressedRistretto;

/// A transaction that names its ring members explicitly.
#[derive(Clone, Debug, Default)]
pub struct Transaction<A, S> {
    pub inputs: Vec<A>,
    pub outputs: Vec<A>,
    pub tags: Vec<Tag>,
    pub seal: S,
    pub fee: u64,
}

/// A transaction whose ring is given by a polynomial (see `ringmaker`), or, for
/// a staker's transaction, by its stake positions.
#[derive(Clone, Debug, Default)]
pub struct PolynomialTransaction<A, S> {
    pub inputs: Vec<u8>,
    pub outputs: Vec<A>,
    pub tags: Vec<Tag>,
    pub seal: S,
    pub fee: u64,
}

impl<A: Clone, S: Clone> Transaction<A, S> {
    /// The same transaction with its ring replaced by the encoded polynomial `poly`.
    pub fn polyform(&self, poly: &Vec<u8>) -> (p: PolynomialTransaction<A, S>)
        ensures
            p.inputs@ == poly@,
            p.outputs@.len() == self.outputs@.len(),
            forall|i: int| 0 <= i < self.outputs@.len() ==> cloned(self.outputs@[i], #[trigger] p.outputs@[i]),
            p.tags@ == self.tags@,
            cloned(self.seal, p.seal),
            p.fee == self.fee,
    {
        let tags = self.tags.clone();
        proof {
            assert(tags@ =~= self.tags@);
        }
        PolynomialTransaction {
            inputs: poly.clone(),
            outputs: self.outputs.clone(),
            tags,
            seal: self.seal.clone(),
            fee: self.fee,
        }
    }
}

/// The outputs a receiver opens, given what each output's receive attempt gave.
pub open spec fn opened<A>(results: Seq<Option<A>>) -> Seq<A> {
    results.filter_map(|o: Option<A>| o)
}

impl<A, S> Transaction<A, S> {
    /// The outputs the receiver can open, opened, in order: `receive` tries to open
    /// one output (for an account, its one-time-account receive).
    pub fn try_receive<F: Fn(&A) -> Option<A>>(&self, receive: F) -> (mine: Vec<A>)
        requires
            forall|i: int| 0 <= i < self.outputs@.len() ==> receive.requires((&self.outputs@[i],)),
        ensures
            exists|results: Seq<Option<A>>|
                #![trigger opened(results)]
                results.len() == self.outputs@.len() && (forall|i: int|
                    0 <= i < results.len() ==> receive.ensures((&self.outputs@[i],), #[trigger] results[i]))
                    && mine@ == opened(results),
    {
        let mut mine: Vec<A> = Vec::new();
        let ghost mut results: Seq<Option<A>> = Seq::empty();
        let mut i: usize = 0;
        while i < self.outputs.len()
            invariant
                i <= self.outputs@.len(),
                forall|k: int| 0 <= k < self.outputs@.len() ==> receive.requires((&self.outputs@[k],)),
                results.len() == i,
                forall|k: int| 0 <= k < i ==> receive.ensures((&self.outputs@[k],), #[trigger] results[k]),
                mine@ == opened(results),
            decreases self.outputs@.len() - i,
        {
            let r = receive(&self.outputs[i]);
            proof {
                assert((results.push(r)).drop_last() =~= results);
                results = results.push(r);
            }
            match r {
                Some(a) => {
                    mine.push(a);
                },
                None => {},
            }
            assert(mine@ =~= opened(results));
            i = i + 1;
        }
        mine
    }
}

/// A ring of `n` default one-time accounts, for tests.
pub fn get_test_ring<A: Default + Clone>(n: usize) -> (ring: Vec<A>)
    ensures
        ring@.len() == n,
        exists|d: A|
            call_ensures(A::default, (), d) && forall|i: int| 0 <= i < n ==> cloned(d, #[trigger] ring@[i]),
{
    let d = A::default();
    let ring = vec![d; n];
    ring
}


// ---------------------------------------------------------------------------
// What a block's transactions carry for the staker table.

/// The 8-byte little-endian words of `b`, a trailing remainder ignored.
pub open spec fn words(b: Seq<u8>) -> Seq<u64> {
    Seq::new(b.len() / 8, |i: int| le_decode(b.subrange(8 * i, 8 * i + 8)) as u64)
}

/// The stake positions a staker's transaction spends: its inputs are the
/// positions as 8-byte words followed by the byte 1.
pub open spec fn stake_places(inputs: Seq<u8>) -> Seq<u64> {
    words(inputs.drop_last())
}

/// Reads the stake positions a staker's transaction spends, and checks them
/// against a table of `table_len` stakers: the inputs must end in the byte 1, the
/// positions must increase strictly, and each must name a staker.
pub fn stake_input_places(inputs: &Vec<u8>, table_len: usize) -> (r: Result<Vec<u64>, TransactionError>)
    requires
        inputs@.len() > 0 && inputs@.last() == 1 ==> inputs@.len() >= 9,
    ensures
        (inputs@.len() == 0 || inputs@.last() != 1) ==> r == Err::<Vec<u64>, TransactionError>(TransactionError::InvalidTransaction),
        inputs@.len() > 0 && inputs@.last() == 1 ==> (r is Ok <==> (
            (forall|i: int, j: int| 0 <= i < j < stake_places(inputs@).len() ==> stake_places(inputs@)[i] < stake_places(inputs@)[j])
            && (forall|i: int| 0 <= i < stake_places(inputs@).len() ==> (#[trigger] stake_places(inputs@)[i] as usize) < table_len))),
        r matches Ok(p) ==> p@ == stake_places(inputs@),
        r matches Err(e) ==> e == TransactionError::InvalidTransaction,
{
    let n = inputs.len();
    if n == 0 || inputs[n - 1] != 1 {
        return Err(TransactionError::InvalidTransaction);
    }
    let ghost body = inputs@.drop_last();
    let count: usize = (n - 1) / 8;
    let mut places: Vec<u64> = Vec::new();
    let mut i: usize = 0;
    proof {
        lemma_pow256_values();
    }
    while i < count
        invariant
            i <= count,
            count == body.len() / 8,
            body == inputs@.drop_last(),
            n == inputs@.len(),
            body.len() == n - 1,
            crate::codec::pow256(8) == 0x1_0000_0000_0000_0000,
            places@ == words(body).take(i as int),
        decreases count - i,
    {
        assert(8 * i + 8 <= body.len()) by (nonlinear_arith)
            requires
                i < count,
                count == body.len() / 8,
        ;
        proof {
            lemma_le_decode_bound(inputs@.subrange(8 * i, 8 * i + 8));
            assert(inputs@.subrange(8 * i, 8 * i + 8) =~= body.subrange(8 * i, 8 * i + 8));
        }
        let w = le_value(inputs.as_slice(), 8 * i, 8) as u64;
        places.push(w);
        proof {
            assert(places@ =~= words(body).take(i + 1));
        }
        i = i + 1;
    }
    assert(places@ =~= stake_places(inputs@));
    let mut k: usize = 1;
    while k < places.len()
        invariant
            1 <= k,
            places@ == stake_places(inputs@),
            places@.len() >= 1,
            forall|a: int, b: int| 0 <= a < b < k && b < places@.len() ==> places@[a] < places@[b],
        decreases places@.len() - k,
    {
        if !(places[k] > places[k - 1]) {
            return Err(TransactionError::InvalidTransaction);
        }
        proof {
            assert forall|a: int, b: int| 0 <= a < b < k + 1 && b < places@.len() implies places@[a] < places@[b] by {
                if b == k && a < k - 1 {
                    assert(places@[a] < places@[k - 1]);
                }
            }
        }
        k = k + 1;
    }
    let mut q: usize = 0;
    while q < places.len()
        invariant
            q <= places@.len(),
            places@ == stake_places(inputs@),
            forall|a: int, b: int| 0 <= a < b < places@.len() ==> places@[a] < places@[b],
            forall|a: int| 0 <= a < q ==> (#[trigger] places@[a] as usize) < table_len,
        decreases places@.len() - q,
    {
        if places[q] as usize >= table_len {
            return Err(TransactionError::InvalidTransaction);
        }
        q = q + 1;
    }
    Ok(places)
}

/// The sequences of `s`, one after another.
pub open spec fn flat<T>(s: Seq<Seq<T>>) -> Seq<T>
    decreases s.len(),
{
    if s.len() == 0 {
        Seq::empty()
    } else {
        flat(s.drop_last()) + s.last()
    }
}

/// The outputs of each transaction.
pub open spec fn outputs_of<A, S>(txs: Seq<PolynomialTransaction<A, S>>) -> Seq<Seq<A>> {
    Seq::new(txs.len(), |i: int| txs[i].outputs@)
}

/// The views of nested vectors.
pub open spec fn nested_view<T>(v: Seq<Vec<T>>) -> Seq<Seq<T>> {
    Seq::new(v.len(), |i: int| v[i]@)
}

/// The values of the entries that are `Some`, in order.
pub open spec fn somes<T>(s: Seq<Option<T>>) -> Seq<T>
    decreases s.len(),
{
    if s.len() == 0 {
        Seq::empty()
    } else if s.last() is Some {
        somes(s.drop_last()).push(s.last()->0)
    } else {
        somes(s.drop_last())
    }
}

/// The outputs whose read is `None`, in order.
pub open spec fn unread<A, T>(outs: Seq<A>, reads: Seq<Option<T>>) -> Seq<A>
    decreases reads.len(),
{
    if reads.len() == 0 || outs.len() == 0 {
        Seq::empty()
    } else if reads.last() is None {
        unread(outs.drop_last(), reads.drop_last()).push(outs.last())
    } else {
        unread(outs.drop_last(), reads.drop_last())
    }
}

/// Every output of every transaction has a read.
pub open spec fn reads_match<A, S, T>(txs: Seq<PolynomialTransaction<A, S>>, reads: Seq<Seq<T>>) -> bool {
    reads.len() == txs.len() && forall|i: int| 0 <= i < txs.len() ==> (#[trigger] reads[i]).len() == txs[i].outputs@.len()
}

proof fn lemma_flat_len<A, T>(a: Seq<Seq<A>>, b: Seq<Seq<T>>)
    requires
        a.len() == b.len(),
        forall|i: int| 0 <= i < a.len() ==> (#[trigger] a[i]).len() == b[i].len(),
    ensures
        flat(a).len() == flat(b).len(),
    decreases a.len(),
{
    if a.len() > 0 {
        lemma_flat_len(a.drop_last(), b.drop_last());
    }
}

proof fn lemma_split_counts<A, T>(outs: Seq<A>, reads: Seq<Option<T>>)
    requires
        outs.len() == reads.len(),
    ensures
        somes(reads).len() + unread(outs, reads).len() == reads.len(),
    decreases reads.len(),
{
    if reads.len() > 0 {
        lemma_split_counts(outs.drop_last(), reads.drop_last());
    }
}

/// Splits a block's outputs by what the stake reader made of each: the staker
/// entries read from staker outputs, in order, and copies of the ordinary
/// outputs (those the reader could not read), in order. `reads[i][k]` is the
/// reader's answer for output `k` of transaction `i`.
pub fn split_outputs<A: Clone, S>(
    txs: &Vec<PolynomialTransaction<A, S>>,
    reads: &Vec<Vec<Option<(CompressedRistretto, u64)>>>,
) -> (r: (Vec<(CompressedRistretto, u64)>, Vec<A>))
    requires
        reads_match(txs@, nested_view(reads@)),
    ensures
        r.0@ == somes(flat(nested_view(reads@))),
        r.1@.len() == unread(flat(outputs_of(txs@)), flat(nested_view(reads@))).len(),
        forall|j: int|
            0 <= j < r.1@.len() ==> cloned(
                unread(flat(outputs_of(txs@)), flat(nested_view(reads@)))[j],
                #[trigger] r.1@[j],
            ),
        r.0@.len() + r.1@.len() == flat(outputs_of(txs@)).len(),
{
    let ghost outs = outputs_of(txs@);
    let ghost rds = nested_view(reads@);
    let mut stkin: Vec<(CompressedRistretto, u64)> = Vec::new();
    let mut txout: Vec<A> = Vec::new();
    let mut i: usize = 0;
    proof {
        assert(outs.take(0) =~= Seq::<Seq<A>>::empty());
        assert(rds.take(0) =~= Seq::<Seq<Option<(CompressedRistretto, u64)>>>::empty());
    }
    while i < txs.len()
        invariant
            i <= txs@.len(),
            outs == outputs_of(txs@),
            rds == nested_view(reads@),
            reads_match(txs@, rds),
            stkin@ == somes(flat(rds.take(i as int))),
            txout@.len() == unread(flat(outs.take(i as int)), flat(rds.take(i as int))).len(),
            forall|j: int|
                0 <= j < txout@.len() ==> cloned(
                    unread(flat(outs.take(i as int)), flat(rds.take(i as int)))[j],
                    #[trigger] txout@[j],
                ),
            flat(outs.take(i as int)).len() == flat(rds.take(i as int)).len(),
        decreases txs@.len() - i,
    {
        let t = &txs[i];
        let rv = &reads[i];
        let ghost o0 = flat(outs.take(i as int));
        let ghost r0 = flat(rds.take(i as int));
        assert(rds[i as int] == rv@);
        assert(outs[i as int] == t.outputs@);
        assert(rv@.len() == t.outputs@.len());
        let mut k: usize = 0;
        proof {
            assert(o0 + t.outputs@.take(0) =~= o0);
            assert(r0 + rv@.take(0) =~= r0);
        }
        while k < t.outputs.len()
            invariant
                k <= t.outputs@.len(),
                rv@.len() == t.outputs@.len(),
                o0.len() == r0.len(),
                stkin@ == somes(r0 + rv@.take(k as int)),
                txout@.len() == unread(o0 + t.outputs@.take(k as int), r0 + rv@.take(k as int)).len(),
                forall|j: int|
                    0 <= j < txout@.len() ==> cloned(
                        unread(o0 + t.outputs@.take(k as int), r0 + rv@.take(k as int))[j],
                        #[trigger] txout@[j],
                    ),
            decreases t.outputs@.len() - k,
        {
            let ghost po = o0 + t.outputs@.take(k as int);
            let ghost pr = r0 + rv@.take(k as int);
            proof {
                assert(o0 + t.outputs@.take(k + 1) =~= po.push(t.outputs@[k as int]));
                assert(r0 + rv@.take(k + 1) =~= pr.push(rv@[k as int]));
                assert(po.push(t.outputs@[k as int]).drop_last() =~= po);
                assert(pr.push(rv@[k as int]).drop_last() =~= pr);
            }
            match rv[k] {
                Some(e) => {
                    stkin.push(e);
                },
                None => {
                    let c = t.outputs[k].clone();
                    let ghost before = txout@;
                    txout.push(c);
                    proof {
                        assert forall|j: int| 0 <= j < txout@.len() implies cloned(
                            unread(po.push(t.outputs@[k as int]), pr.push(rv@[k as int]))[j],
                            #[trigger] txout@[j],
                        ) by {
                            if j < before.len() {
                                assert(txout@[j] == before[j]);
                            }
                        }
                    }
                },
            }
            k = k + 1;
        }
        proof {
            assert(t.outputs@.take(t.outputs@.len() as int) =~= t.outputs@);
            assert(rv@.take(rv@.len() as int) =~= rv@);
            assert(outs.take(i + 1).drop_last() =~= outs.take(i as int));
            assert(rds.take(i + 1).drop_last() =~= rds.take(i as int));
            assert(flat(outs.take(i + 1)) == o0 + t.outputs@);
            assert(flat(rds.take(i + 1)) == r0 + rv@);
        }
        i = i + 1;
    }
    proof {
        assert(outs.take(txs@.len() as int) =~= outs);
        assert(rds.take(txs@.len() as int) =~= rds);
        lemma_flat_len(outs, rds);
        lemma_split_counts(flat(outs), flat(rds));
    }
    (stkin, txout)
}

/// The positions of the stakers leaving in a block: from each transaction whose
/// inputs are exactly one 8-byte word, that word.
pub open spec fn exits_of<A, S>(txs: Seq<PolynomialTransaction<A, S>>) -> Seq<u64>
    decreases txs.len(),
{
    if txs.len() == 0 {
        Seq::empty()
    } else {
        let rest = exits_of(txs.drop_last());
        if txs.last().inputs@.len() == 8 {
            rest.push(le_decode(txs.last().inputs@) as u64)
        } else {
            rest
        }
    }
}

/// The fees a block's transactions pay in total.
pub open spec fn fees_of<A, S>(txs: Seq<PolynomialTransaction<A, S>>) -> int
    decreases txs.len(),
{
    if txs.len() == 0 {
        0
    } else {
        fees_of(txs.drop_last()) + txs.last().fee
    }
}

/// The tags a block's transactions spend, in order.
pub open spec fn tags_of<A, S>(txs: Seq<PolynomialTransaction<A, S>>) -> Seq<Tag>
    decreases txs.len(),
{
    if txs.len() == 0 {
        Seq::empty()
    } else {
        tags_of(txs.drop_last()) + txs.last().tags@
    }
}

/// Reads a block's transactions for the staker table: the leaving stake positions,
/// the spent tags and the total fee.
pub fn block_summary<A, S>(txs: &Vec<PolynomialTransaction<A, S>>) -> (r: (Vec<u64>, Vec<Tag>, u64))
    requires
        fees_of(txs@) <= u64::MAX,
    ensures
        r.0@ == exits_of(txs@),
        r.1@ == tags_of(txs@),
        r.2 == fees_of(txs@),
{
    let mut stkout: Vec<u64> = Vec::new();
    let mut tags: Vec<Tag> = Vec::new();
    let mut fees: u64 = 0;
    let mut i: usize = 0;
    proof {
        lemma_pow256_values();
    }
    while i < txs.len()
        invariant
            i <= txs@.len(),
            fees_of(txs@) <= u64::MAX,
            crate::codec::pow256(8) == 0x1_0000_0000_0000_0000,
            stkout@ == exits_of(txs@.take(i as int)),
            tags@ == tags_of(txs@.take(i as int)),
            fees == fees_of(txs@.take(i as int)),
        decreases txs@.len() - i,
    {
        let t = &txs[i];
        proof {
            assert(txs@.take(i + 1).drop_last() =~= txs@.take(i as int));
            assert(txs@.take(i + 1).last() == txs@[i as int]);
            lemma_fees_prefix(txs@, i + 1);
        }
        if t.inputs.len() == 8 {
            proof {
                lemma_le_decode_bound(t.inputs@);
                assert(t.inputs@.subrange(0, 8) =~= t.inputs@);
            }
            let w = le_value(t.inputs.as_slice(), 0, 8) as u64;
            stkout.push(w);
        }
        let ghost before = tags@;
        let mut k: usize = 0;
        while k < t.tags.len()
            invariant
                k <= t.tags@.len(),
                tags@ == before + t.tags@.take(k as int),
            decreases t.tags@.len() - k,
        {
            tags.push(t.tags[k]);
            proof {
                assert(t.tags@.take(k + 1) =~= t.tags@.take(k as int).push(t.tags@[k as int]));
                assert(tags@ =~= before + t.tags@.take(k + 1));
            }
            k = k + 1;
        }
        assert(t.tags@.take(t.tags@.len() as int) =~= t.tags@);
        fees = fees + t.fee;
        i = i + 1;
    }
    assert(txs@.take(txs@.len() as int) =~= txs@);
    (stkout, tags, fees)
}

proof fn lemma_fees_prefix<A, S>(txs: Seq<PolynomialTransaction<A, S>>, i: int)
    requires
        0 <= i <= txs.len(),
    ensures
        0 <= fees_of(txs.take(i)) <= fees_of(txs),
    decreases txs.len() - i,
{
    lemma_fees_nonneg(txs.take(i));
    if i == txs.len() {
        assert(txs.take(i) =~= txs);
    } else {
        assert(txs.take(i + 1).drop_last() =~= txs.take(i));
        lemma_fees_prefix(txs, i + 1);
    }
}

proof fn lemma_fees_nonneg<A, S>(txs: Seq<PolynomialTransaction<A, S>>)
    ensures
        fees_of(txs) >= 0,
    decreases txs.len(),
{
    if txs.len() > 0 {
        lemma_fees_nonneg(txs.drop_last());
    }
}

} // verus!
