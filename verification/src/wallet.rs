//! The wallet window's bookkeeping: its list of friends, and the payment request
//! it sends the node.
use crate::codec::le_encode;
use vstd::prelude::*;

verus! {

/// The friends a wallet pays: addresses, names, whether each name is being
/// edited, and the amount typed for each.
pub struct FriendList {
    pub friends: Vec<String>,
    pub friend_names: Vec<String>,
    pub edit_names: Vec<bool>,
    pub send_amount: Vec<String>,
}

impl FriendList {
    /// Adds a friend, with its name not being edited and an amount of "0".
    pub fn add_friend(&mut self, addr: String, name: String, zero: String)
        ensures
            final(self).friends@ == old(self).friends@.push(addr),
            final(self).friend_names@ == old(self).friend_names@.push(name),
            final(self).edit_names@ == old(self).edit_names@.push(false),
            final(self).send_amount@ == old(self).send_amount@.push(zero),
    {
        self.friends.push(addr);
        self.friend_names.push(name);
        self.edit_names.push(false);
        self.send_amount.push(zero);
    }

    /// Deletes friend `i`: its address, name and amount are removed (the list of
    /// names being edited is left as it is).
    pub fn delete_friend(&mut self, i: usize)
        requires
            i < old(self).friends@.len(),
            i < old(self).friend_names@.len(),
            i < old(self).send_amount@.len(),
        ensures
            final(self).friends@ == old(self).friends@.remove(i as int),
            final(self).friend_names@ == old(self).friend_names@.remove(i as int),
            final(self).send_amount@ == old(self).send_amount@.remove(i as int),
            final(self).edit_names@ == old(self).edit_names@,
    {
        self.friend_names.remove(i);
        self.friends.remove(i);
        self.send_amount.remove(i);
    }
}

/// The payments to friends with a positive amount, in order: each address's
/// bytes then the amount's 8 little-endian bytes.
pub open spec fn friend_payments(who: Seq<Seq<u8>>, amounts: Seq<u64>) -> Seq<u8>
    decreases who.len(),
{
    if who.len() == 0 || amounts.len() == 0 {
        Seq::empty()
    } else {
        let rest = friend_payments(who.drop_last(), amounts.drop_last());
        if amounts.last() > 0 {
            rest + who.last() + le_encode(amounts.last() as nat, 8)
        } else {
            rest
        }
    }
}

/// The total of the amounts.
pub open spec fn amounts_total(amounts: Seq<u64>) -> int
    decreases amounts.len(),
{
    if amounts.len() == 0 {
        0
    } else {
        amounts_total(amounts.drop_last()) + amounts.last()
    }
}

/// The request the wallet sends to pay its friends from the unstaked balance:
/// the payments, then the change (the balance less the payments and the fee) to
/// the wallet's own address when there is any, then the bytes `!!`.
pub open spec fn payment_request(
    who: Seq<Seq<u8>>,
    amounts: Seq<u64>,
    own: Seq<u8>,
    unstaked: u64,
    fee: u64,
) -> Seq<u8> {
    let change = unstaked - amounts_total(amounts) - fee;
    friend_payments(who, amounts) + (if change > 0 {
        own + le_encode(change as nat, 8)
    } else {
        Seq::empty()
    }) + seq![33u8, 33u8]
}

proof fn lemma_total_prefix(amounts: Seq<u64>, i: int)
    requires
        0 <= i <= amounts.len(),
    ensures
        0 <= amounts_total(amounts.take(i)) <= amounts_total(amounts),
    decreases amounts.len() - i,
{
    if i < amounts.len() {
        lemma_total_prefix(amounts, i + 1);
        assert(amounts.take(i + 1).drop_last() =~= amounts.take(i));
    } else {
        assert(amounts.take(i) =~= amounts);
    }
    lemma_total_nonneg(amounts.take(i));
}

proof fn lemma_total_nonneg(amounts: Seq<u64>)
    ensures
        amounts_total(amounts) >= 0,
    decreases amounts.len(),
{
    if amounts.len() > 0 {
        lemma_total_nonneg(amounts.drop_last());
    }
}

fn push_all(out: &mut Vec<u8>, b: &Vec<u8>)
    ensures
        final(out)@ == old(out)@ + b@,
{
    let ghost start = out@;
    let mut i: usize = 0;
    while i < b.len()
        invariant
            i <= b@.len(),
            out@ == start + b@.take(i as int),
        decreases b@.len() - i,
    {
        out.push(b[i]);
        proof {
            assert(b@.take(i + 1) =~= b@.take(i as int).push(b@[i as int]));
        }
        i = i + 1;
    }
    assert(b@.take(b@.len() as int) =~= b@);
}

/// Builds the request paying each friend `who[i]` (its address as lower-case
/// bytes) the amount `amounts[i]`, with the change going to `own`.
pub fn build_payment_request(
    who: &Vec<Vec<u8>>,
    amounts: &Vec<u64>,
    own: &Vec<u8>,
    unstaked: u64,
    fee: u64,
) -> (m: Vec<u8>)
    requires
        who@.len() == amounts@.len(),
        amounts_total(amounts@) + fee <= unstaked,
    ensures
        m@ == payment_request(Seq::new(who@.len(), |i: int| who@[i]@), amounts@, own@, unstaked, fee),
{
    let ghost ws = Seq::new(who@.len(), |i: int| who@[i]@);
    let mut m: Vec<u8> = Vec::new();
    let mut tot: u64 = 0;
    let mut i: usize = 0;
    proof {
        assert(ws.take(0) =~= Seq::<Seq<u8>>::empty());
        assert(amounts@.take(0) =~= Seq::<u64>::empty());
    }
    while i < who.len()
        invariant
            i <= who@.len(),
            who@.len() == amounts@.len(),
            ws == Seq::new(who@.len(), |i: int| who@[i]@),
            amounts_total(amounts@) + fee <= unstaked,
            m@ == friend_payments(ws.take(i as int), amounts@.take(i as int)),
            tot == amounts_total(amounts@.take(i as int)),
        decreases who@.len() - i,
    {
        proof {
            lemma_total_prefix(amounts@, i + 1);
            assert(ws.take(i + 1).drop_last() =~= ws.take(i as int));
            assert(amounts@.take(i + 1).drop_last() =~= amounts@.take(i as int));
        }
        let x = amounts[i];
        if x > 0 {
            push_all(&mut m, &who[i]);
            let xb = crate::codec::le_bytes(x as u128, 8);
            push_all(&mut m, &xb);
        }
        tot = tot + x;
        i = i + 1;
    }
    proof {
        assert(ws.take(who@.len() as int) =~= ws);
        assert(amounts@.take(amounts@.len() as int) =~= amounts@);
    }
    let change = unstaked - tot - fee;
    if change > 0 {
        push_all(&mut m, own);
        let cb = crate::codec::le_bytes(change as u128, 8);
        push_all(&mut m, &cb);
    }
    m.push(33);
    m.push(33);
    m
}

} // verus!
