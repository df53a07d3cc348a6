//! What nodes make of the messages and commands they receive: the kind of a
//! gossiped message, the leader's timing rules, and the payment commands a user
//! types.
use crate::codec::{le_decode, pow256};
use crate::validation::{NUMBER_OF_VALIDATORS, SIGNING_CUTOFF};
use vstd::prelude::*;

verus! {

/// The most transaction bytes a leader keeps of one message.
pub const MAX_TX_BYTES: usize = 10_000;

/// A message a leader receives, by the type byte it ends with.
#[derive(Debug, PartialEq, Eq)]
pub enum LeaderMessage {
    /// Type 0: a transaction's bytes, cut to `MAX_TX_BYTES`.
    Tx(Vec<u8>),
    /// Type 2: a validator's signature, still encoded.
    Sig(Vec<u8>),
    /// Type 4: a group-signature point.
    GroupPoint([u8; 32]),
    /// Type 6: a group-signature scalar.
    GroupScalar([u8; 32]),
    /// Any other type.
    Other,
}

/// The bytes of `b` from `lo` up to `hi`, copied.
fn copy_range(b: &Vec<u8>, lo: usize, hi: usize) -> (r: Vec<u8>)
    requires
        lo <= hi <= b@.len(),
    ensures
        r@ == b@.subrange(lo as int, hi as int),
{
    let mut r: Vec<u8> = Vec::new();
    let mut i: usize = lo;
    while i < hi
        invariant
            lo <= i <= hi,
            hi <= b@.len(),
            r@ == b@.subrange(lo as int, i as int),
        decreases hi - i,
    {
        r.push(b[i]);
        proof {
            assert(b@.subrange(lo as int, i + 1) =~= b@.subrange(lo as int, i as int).push(b@[i as int]));
        }
        i = i + 1;
    }
    r
}

/// The first 32 bytes of `b`, which holds exactly 32.
fn to_array32(b: &Vec<u8>) -> (a: [u8; 32])
    requires
        b@.len() == 32,
    ensures
        a@ == b@,
{
    let mut a: [u8; 32] = [0u8; 32];
    let mut i: usize = 0;
    while i < 32
        invariant
            i <= 32,
            b@.len() == 32,
            forall|k: int| 0 <= k < i ==> a@[k] == b@[k],
        decreases 32 - i,
    {
        a[i] = b[i];
        i = i + 1;
    }
    assert(a@ =~= b@);
    a
}

/// A leader's message can be read: points and scalars carry exactly 32 bytes.
pub open spec fn leader_message_readable(m: Seq<u8>) -> bool {
    m.len() > 0 && (m.last() == 4 || m.last() == 6) ==> m.len() == 33
}

/// Reads a message a leader received: its last byte is its type, the bytes
/// before it its body. `None` for an empty message.
pub fn classify_leader_message(m: &Vec<u8>) -> (r: Option<LeaderMessage>)
    requires
        leader_message_readable(m@),
    ensures
        m@.len() == 0 <==> r is None,
        m@.len() > 0 ==> {
            let body = m@.drop_last();
            let t = m@.last();
            match r {
                Some(LeaderMessage::Tx(b)) => t == 0 && b@ == body.take(
                    if body.len() < MAX_TX_BYTES { body.len() as int } else { MAX_TX_BYTES as int },
                ),
                Some(LeaderMessage::Sig(b)) => t == 2 && b@ == body,
                Some(LeaderMessage::GroupPoint(a)) => t == 4 && a@ == body,
                Some(LeaderMessage::GroupScalar(a)) => t == 6 && a@ == body,
                Some(LeaderMessage::Other) => t != 0 && t != 2 && t != 4 && t != 6,
                None => false,
            }
        },
{
    let n = m.len();
    if n == 0 {
        return None;
    }
    let t = m[n - 1];
    let body_len = n - 1;
    proof {
        assert(m@.subrange(0, body_len as int) =~= m@.drop_last());
    }
    if t == 0 {
        let keep = if body_len < MAX_TX_BYTES { body_len } else { MAX_TX_BYTES };
        let b = copy_range(m, 0, keep);
        proof {
            assert(b@ =~= m@.drop_last().take(keep as int));
        }
        Some(LeaderMessage::Tx(b))
    } else if t == 2 {
        Some(LeaderMessage::Sig(copy_range(m, 0, body_len)))
    } else if t == 4 {
        let b = copy_range(m, 0, body_len);
        Some(LeaderMessage::GroupPoint(to_array32(&b)))
    } else if t == 6 {
        let b = copy_range(m, 0, body_len);
        Some(LeaderMessage::GroupScalar(to_array32(&b)))
    } else {
        Some(LeaderMessage::Other)
    }
}

/// The leader finishes a block once more than `2 * (NUMBER_OF_VALIDATORS / 3)`
/// validators signed, or more than half of them after 30 seconds.
pub fn leader_finishes_block(sigs: usize, elapsed_secs: u64) -> (r: bool)
    ensures
        r == (sigs > 2 * (NUMBER_OF_VALIDATORS / 3) || (sigs > NUMBER_OF_VALIDATORS / 2 && elapsed_secs > 30)),
{
    sigs > 2 * (NUMBER_OF_VALIDATORS / 3) || (sigs > NUMBER_OF_VALIDATORS / 2 && elapsed_secs > 30)
}

/// The leader sends the summed group point of an empty block once it waits for
/// one, a second has passed, and more than two thirds of the validators sent
/// their points.
pub fn leader_sends_group_point(multisig: bool, elapsed_secs: u64, points: usize) -> (r: bool)
    ensures
        r == (multisig && elapsed_secs > 1 && points > 2 * NUMBER_OF_VALIDATORS / 3),
{
    multisig && elapsed_secs > 1 && points > 2 * NUMBER_OF_VALIDATORS / 3
}

/// The leader finishes an empty block once it waits for one, two seconds have
/// passed, the group point was sent (the basepoint leads the points), and more
/// than half of the validators sent their scalars.
pub fn leader_finishes_empty_block(multisig: bool, elapsed_secs: u64, point_sent: bool, scalars: usize) -> (r: bool)
    ensures
        r == (multisig && elapsed_secs > 2 && point_sent && scalars > NUMBER_OF_VALIDATORS / 2),
{
    multisig && elapsed_secs > 2 && point_sent && scalars > NUMBER_OF_VALIDATORS / 2
}

/// The leader hands out the transactions it gathered every 10 seconds.
pub fn leader_sends_txs(elapsed_secs: u64) -> (r: bool)
    ensures
        r == (elapsed_secs > 10),
{
    elapsed_secs > 10
}

/// None of the node's stake positions holds a seat of the committee.
pub fn outside_committee(keylocation: &Vec<u64>, committee: &Vec<usize>) -> (r: bool)
    ensures
        r == forall|a: int, c: int|
            0 <= a < keylocation@.len() && 0 <= c < committee@.len() ==> #[trigger] keylocation@[a]
                != #[trigger] committee@[c] as u64,
{
    let mut a: usize = 0;
    while a < keylocation.len()
        invariant
            a <= keylocation@.len(),
            forall|x: int, c: int|
                0 <= x < a && 0 <= c < committee@.len() ==> #[trigger] keylocation@[x]
                    != #[trigger] committee@[c] as u64,
        decreases keylocation@.len() - a,
    {
        let mut c: usize = 0;
        while c < committee.len()
            invariant
                a < keylocation@.len(),
                c <= committee@.len(),
                forall|x: int, d: int|
                    0 <= x < a && 0 <= d < committee@.len() ==> #[trigger] keylocation@[x]
                        != #[trigger] committee@[d] as u64,
                forall|d: int| 0 <= d < c ==> keylocation@[a as int] != #[trigger] committee@[d] as u64,
            decreases committee@.len() - c,
        {
            if keylocation[a] == committee[c] as u64 {
                assert(keylocation@[a as int] == committee@[c as int] as u64);
                return false;
            }
            c = c + 1;
        }
        a = a + 1;
    }
    true
}

/// How many seats of the committee are held by stakers in `present`, counted by
/// seat.
pub open spec fn seats_present(committee: Seq<usize>, present: Seq<usize>) -> nat {
    committee.filter(|x: usize| present.contains(x)).len()
}

/// Counts the seats of the committee held by stakers in `present`.
pub fn count_seats_present(committee: &Vec<usize>, present: &Vec<usize>) -> (n: usize)
    ensures
        n == seats_present(committee@, present@),
{
    let mut n: usize = 0;
    let mut i: usize = 0;
    proof {
        reveal(Seq::filter);
        assert(committee@.take(0) =~= Seq::<usize>::empty());
    }
    while i < committee.len()
        invariant
            i <= committee@.len(),
            n == committee@.take(i as int).filter(|x: usize| present@.contains(x)).len(),
            n <= i,
        decreases committee@.len() - i,
    {
        let x = committee[i];
        let mut found = false;
        let mut k: usize = 0;
        while k < present.len()
            invariant
                k <= present@.len(),
                found == exists|q: int| 0 <= q < k && present@[q] == x,
            decreases present@.len() - k,
        {
            if present[k] == x {
                found = true;
            }
            k = k + 1;
        }
        proof {
            assert(committee@.take(i + 1) =~= committee@.take(i as int).push(x));
            committee@.take(i as int).lemma_filter_push(x, |x: usize| present@.contains(x));
            if found {
                let q = choose|q: int| 0 <= q < present@.len() && present@[q] == x;
                assert(present@.contains(x));
            }
        }
        if found {
            n = n + 1;
        }
        i = i + 1;
    }
    assert(committee@.take(committee@.len() as int) =~= committee@);
    n
}

/// A staker that leads finishes its block once more than `SIGNING_CUTOFF`
/// validators signed and the waiting time `wait_secs` (a quarter of the block
/// time) has passed.
pub fn staker_leader_finishes(sigs: usize, elapsed_secs: u64, wait_secs: u64) -> (r: bool)
    ensures
        r == (sigs > SIGNING_CUTOFF && elapsed_secs > wait_secs),
{
    sigs > SIGNING_CUTOFF && elapsed_secs > wait_secs
}

/// A staker that leads sends the summed group point once it has not yet done so,
/// the waiting time has passed, and more than `SIGNING_CUTOFF` committee seats
/// sent their points.
pub fn staker_leader_sends_point(point_sent: bool, elapsed_secs: u64, wait_secs: u64, seats_with_points: usize) -> (r: bool)
    ensures
        r == (!point_sent && elapsed_secs > wait_secs && seats_with_points > SIGNING_CUTOFF),
{
    !point_sent && elapsed_secs > wait_secs && seats_with_points > SIGNING_CUTOFF
}

/// What the node tells its wallet window, by the type byte the message ends with.
#[derive(Debug, PartialEq, Eq)]
pub enum WalletUpdate {
    /// Type 0: the unstaked and the staked balance.
    Balances(u64, u64),
    /// Type 1: whether the amounts can be trusted (the byte before the type is 0
    /// when they cannot).
    Trust(bool),
    /// Type 2: the block number.
    Height(u64),
    /// Type 255: an address, for spending (the byte before the type is 0) or for
    /// staking, as the bytes before that.
    Address(bool, Vec<u8>),
    /// Any other type.
    Other,
}

/// A wallet update can be read: balances carry 16 bytes, a height 8, and an
/// address its kind byte.
pub open spec fn wallet_update_readable(m: Seq<u8>) -> bool {
    &&& m.len() > 0
    &&& m.last() == 0 ==> m.len() == 17
    &&& m.last() == 2 ==> m.len() == 9
}

/// Reads a message for the wallet window.
pub fn decode_wallet_update(m: &Vec<u8>) -> (r: WalletUpdate)
    requires
        wallet_update_readable(m@),
    ensures
        ({
            let body = m@.drop_last();
            let t = m@.last();
            match r {
                WalletUpdate::Balances(u, s) => t == 0 && u == le_decode(body.take(8)) && s == le_decode(
                    body.skip(8),
                ),
                WalletUpdate::Trust(b) => t == 1 && b == !(body.len() > 0 && body.last() == 0),
                WalletUpdate::Height(h) => t == 2 && h == le_decode(body),
                WalletUpdate::Address(spend, a) => t == 255 && spend == (body.len() > 0 && body.last()
                    == 0) && a@ == (if body.len() > 0 { body.drop_last() } else { body }),
                WalletUpdate::Other => t != 0 && t != 1 && t != 2 && t != 255,
            }
        }),
{
    let n = m.len();
    let t = m[n - 1];
    let ghost body = m@.drop_last();
    proof {
        crate::codec::lemma_pow256_values();
    }
    if t == 0 {
        proof {
            crate::codec::lemma_le_decode_bound(m@.subrange(0, 8));
            crate::codec::lemma_le_decode_bound(m@.subrange(8, 16));
            assert(m@.subrange(0, 8) =~= body.take(8));
            assert(m@.subrange(8, 16) =~= body.skip(8));
        }
        let u = crate::codec::le_value(m.as_slice(), 0, 8) as u64;
        let s = crate::codec::le_value(m.as_slice(), 8, 8) as u64;
        WalletUpdate::Balances(u, s)
    } else if t == 1 {
        WalletUpdate::Trust(!(n >= 2 && m[n - 2] == 0))
    } else if t == 2 {
        proof {
            crate::codec::lemma_le_decode_bound(m@.subrange(0, 8));
            assert(m@.subrange(0, 8) =~= body);
        }
        WalletUpdate::Height(crate::codec::le_value(m.as_slice(), 0, 8) as u64)
    } else if t == 255 {
        if n >= 2 {
            let a = copy_range(m, 0, n - 2);
            proof {
                assert(a@ =~= body.drop_last());
            }
            WalletUpdate::Address(m[n - 2] == 0, a)
        } else {
            let a: Vec<u8> = Vec::new();
            proof {
                assert(a@ =~= body);
            }
            WalletUpdate::Address(false, a)
        }
    } else {
        WalletUpdate::Other
    }
}

/// A validator takes a leader's list of transactions when it is signed by the
/// staker next in line (`newest`) or by the leader itself (`signer_is_leader`).
pub fn validator_takes_txs(who: u64, newest: u64, signer_is_leader: bool) -> (r: bool)
    ensures
        r == (who == newest || signer_is_leader),
{
    who == newest || signer_is_leader
}

/// What a validator does with its choice of a leader's transactions.
#[derive(Debug, PartialEq, Eq)]
pub enum ValidatorReply {
    /// Sign the block it chose and send the signature to the leader.
    Sign,
    /// Start an empty block: send its group point (only a committee member sends).
    StartGroup(bool),
    /// Nothing to do.
    Wait,
}

/// A validator signs when it chose transactions or already joined the group of an
/// empty block; with no transactions and no group signature yet, it starts the
/// empty block's group once.
pub fn validator_reply(chosen: usize, group_sent: bool, has_emptyness: bool, in_committee: bool) -> (r: ValidatorReply)
    ensures
        r == (if chosen > 0 || group_sent {
            ValidatorReply::Sign
        } else if !has_emptyness {
            ValidatorReply::StartGroup(in_committee)
        } else {
            ValidatorReply::Wait
        }),
{
    if chosen > 0 || group_sent {
        ValidatorReply::Sign
    } else if !has_emptyness {
        ValidatorReply::StartGroup(in_committee)
    } else {
        ValidatorReply::Wait
    }
}

// ---------------------------------------------------------------------------
// Payment commands.

/// Bytes in one payment of a command: three keys of 64 letters, then 8 digits.
pub const PAYMENT_LEN: usize = 200;

/// The key byte a pair of letters spells: the first gives the low half, the
/// second the high half, each as `letter - 'a'`.
pub open spec fn key_byte(lo: u8, hi: u8) -> int {
    (lo - 97) + (hi - 97) * 16
}

/// Key `p` (0, 1 or 2) of the payment starting at `s`: 32 low letters, then 32
/// high letters.
pub open spec fn payment_key(b: Seq<u8>, s: int, p: int) -> Seq<u8> {
    Seq::new(32, |k: int| key_byte(b[s + 64 * p + k], b[s + 64 * p + 32 + k]) as u8)
}

/// The amount of the payment starting at `s`: 8 digits read as the little-endian
/// bytes `digit - '0'` of a `u64`.
pub open spec fn payment_amount(b: Seq<u8>, s: int) -> nat {
    le_decode(Seq::new(8, |k: int| (b[s + 192 + k] - 48) as u8))
}

/// Byte `i` of a command can be read: a low key letter pairs with its high letter
/// to spell a byte, and a digit is at least `'0'`.
pub open spec fn command_byte_ok(b: Seq<u8>, i: int) -> bool {
    let o = i % 200;
    &&& (o < 192 && o % 64 < 32) ==> 97 <= b[i] && 97 <= b[i + 32] && b[i + 32] <= 112 && key_byte(
        b[i],
        b[i + 32],
    ) <= 255
    &&& o >= 192 ==> b[i] >= 48
}

/// Every byte of a command can be read: whole payments, each key letter pair
/// spelling a byte, each digit at least `'0'`.
pub open spec fn payments_readable(b: Seq<u8>) -> bool {
    &&& b.len() % 200 == 0
    &&& forall|i: int| 0 <= i < b.len() ==> #[trigger] command_byte_ok(b, i)
}

proof fn lemma_le_decode_8_bound(s: Seq<u8>)
    requires
        s.len() == 8,
    ensures
        le_decode(s) < 0x1_0000_0000_0000_0000,
{
    crate::codec::lemma_le_decode_bound(s);
    crate::codec::lemma_pow256_values();
}

/// Whether every byte of a command body can be read as payments.
pub fn payments_text_ok(b: &Vec<u8>) -> (r: bool)
    ensures
        r == payments_readable(b@),
{
    let n = b.len();
    if n % 200 != 0 {
        return false;
    }
    let mut i: usize = 0;
    while i < n
        invariant
            i <= n,
            n == b@.len(),
            n % 200 == 0,
            forall|q: int| 0 <= q < i ==> #[trigger] command_byte_ok(b@, q),
        decreases n - i,
    {
        let o = i % 200;
        if o < 192 && o % 64 < 32 {
            proof {
                assert(i + 32 < n) by (nonlinear_arith)
                    requires
                        o == i % 200,
                        o < 192,
                        o % 64 < 32,
                        i < n,
                        n % 200 == 0,
                ;
            }
            let lo = b[i];
            let hi = b[i + 32];
            if !(97 <= lo && 97 <= hi && hi <= 112) {
                assert(!command_byte_ok(b@, i as int));
                return false;
            }
            if (lo - 97) as u32 + (hi - 97) as u32 * 16 > 255 {
                assert(key_byte(lo, hi) > 255);
                assert(!command_byte_ok(b@, i as int));
                return false;
            }
        } else if o >= 192 {
            if b[i] < 48 {
                assert(!command_byte_ok(b@, i as int));
                return false;
            }
        }
        i = i + 1;
    }
    true
}

/// The letters of a key byte in a readable command spell a byte.
proof fn lemma_key_letters(b: Seq<u8>, i: int)
    requires
        payments_readable(b),
        0 <= i < b.len(),
        i % 200 < 192,
        (i % 200) % 64 < 32,
    ensures
        97 <= b[i] && 97 <= b[i + 32] <= 112 && key_byte(b[i], b[i + 32]) <= 255,
{
    assert(command_byte_ok(b, i));
}

/// Byte `k` of a little-endian number is its `k`-th base-256 digit.
proof fn lemma_le_digit(s: Seq<u8>, k: nat)
    requires
        k < s.len(),
    ensures
        (le_decode(s) / pow256(k)) % 256 == s[k as int] as int,
    decreases k,
{
    let d = le_decode(s.drop_first());
    assert(le_decode(s) == s[0] as nat + 256 * d);
    if k == 0 {
        assert(pow256(0) == 1);
        vstd::arithmetic::div_mod::lemma_mod_multiples_vanish(d as int, s[0] as int, 256);
        vstd::arithmetic::div_mod::lemma_small_mod(s[0] as nat, 256);
    } else {
        lemma_le_digit(s.drop_first(), (k - 1) as nat);
        assert(pow256(k) == 256 * pow256((k - 1) as nat));
        crate::codec::lemma_pow256_mono(0, (k - 1) as nat);
        assert(pow256(0) == 1);
        vstd::arithmetic::div_mod::lemma_div_multiples_vanish_fancy(d as int, s[0] as int, 256);
        vstd::arithmetic::div_mod::lemma_div_denominator(le_decode(s) as int, 256, pow256((k - 1) as nat) as int);
        assert(s.drop_first()[k - 1] == s[k as int]);
    }
}

/// The payments a command body reads as: one per 200 bytes, each with three keys
/// and an amount.
pub open spec fn payments_parsed(b: Seq<u8>, r: Seq<([[u8; 32]; 3], u64)>) -> bool {
    &&& r.len() == b.len() / 200
    &&& forall|j: int|
        0 <= j < r.len() ==> {
            let s = 200 * j;
            &&& (#[trigger] r[j]).0@[0]@ == payment_key(b, s, 0)
            &&& r[j].0@[1]@ == payment_key(b, s, 1)
            &&& r[j].0@[2]@ == payment_key(b, s, 2)
            &&& r[j].1 == payment_amount(b, s)
        }
}

/// Each key of a payment is spelled, in the order typed, by its own 64 letters:
/// byte `k` of key `p` of payment `j` is the letter at `200j + 64p + k` less
/// `'a'`, plus 16 times the letter 32 places later less `'a'`.
pub proof fn law_payment_keys_spelled_in_order(b: Seq<u8>, r: Seq<([[u8; 32]; 3], u64)>, j: int, p: int, k: int)
    requires
        payments_readable(b),
        payments_parsed(b, r),
        0 <= j < r.len(),
        0 <= p < 3,
        0 <= k < 32,
    ensures
        200 * j + 64 * p + 32 + k < b.len(),
        r[j].0@[p]@[k] as int == (b[200 * j + 64 * p + k] - 97) + 16 * (b[200 * j + 64 * p + 32 + k] - 97),
{
    let i = 200 * j + 64 * p + k;
    assert(200 * j + 200 <= b.len()) by (nonlinear_arith)
        requires
            0 <= j < r.len(),
            r.len() == b.len() / 200,
    ;
    assert(i % 200 == 64 * p + k) by (nonlinear_arith)
        requires
            i == 200 * j + 64 * p + k,
            0 <= j,
            0 <= p < 3,
            0 <= k < 32,
    ;
    assert((i % 200) % 64 == k) by (nonlinear_arith)
        requires
            i % 200 == 64 * p + k,
            0 <= p < 3,
            0 <= k < 32,
    ;
    lemma_key_letters(b, i);
    let _ = r[j];
    assert(r[j].0@[p]@ == payment_key(b, 200 * j, p));
}

/// The amount of payment `j` is read from its eight digits as little-endian
/// bytes: its `k`-th base-256 digit is the digit at `200j + 192 + k` less `'0'`.
pub proof fn law_payment_amount_digits(b: Seq<u8>, r: Seq<([[u8; 32]; 3], u64)>, j: int, k: int)
    requires
        payments_readable(b),
        payments_parsed(b, r),
        0 <= j < r.len(),
        0 <= k < 8,
    ensures
        200 * j + 192 + k < b.len(),
        ((r[j].1 as nat) / pow256(k as nat)) % 256 == b[200 * j + 192 + k] - 48,
{
    let i = 200 * j + 192 + k;
    assert(200 * j + 200 <= b.len()) by (nonlinear_arith)
        requires
            0 <= j < r.len(),
            r.len() == b.len() / 200,
    ;
    assert(i % 200 == 192 + k) by (nonlinear_arith)
        requires
            i == 200 * j + 192 + k,
            0 <= j,
            0 <= k < 8,
    ;
    assert(command_byte_ok(b, i));
    let _ = r[j];
    let digits = Seq::new(8, |q: int| (b[200 * j + 192 + q] - 48) as u8);
    assert(r[j].1 == le_decode(digits));
    lemma_le_digit(digits, k as nat);
}

/// Reads the payments of a command body: each gives three keys and an amount.
pub fn parse_payments(b: &Vec<u8>) -> (r: Vec<([[u8; 32]; 3], u64)>)
    requires
        payments_readable(b@),
    ensures
        r@.len() == b@.len() / 200,
        forall|j: int|
            0 <= j < r@.len() ==> {
                let s = 200 * j;
                &&& (#[trigger] r@[j]).0@[0]@ == payment_key(b@, s, 0)
                &&& r@[j].0@[1]@ == payment_key(b@, s, 1)
                &&& r@[j].0@[2]@ == payment_key(b@, s, 2)
                &&& r@[j].1 == payment_amount(b@, s)
            },
        forall|j: int, p: int, k: int|
            0 <= j < r@.len() && 0 <= p < 3 && 0 <= k < 32 ==> (#[trigger] r@[j].0@[p]@[k]) as int == (b@[200 * j
                + 64 * p + k] - 97) + 16 * (b@[200 * j + 64 * p + 32 + k] - 97),
        forall|j: int, k: int|
            0 <= j < r@.len() && 0 <= k < 8 ==> (((#[trigger] r@[j]).1 as nat) / #[trigger] pow256(k as nat)) % 256 == b@[200 * j + 192
                + k] - 48,
{
    let blen = b.len();
    let n = blen / 200;
    let mut r: Vec<([[u8; 32]; 3], u64)> = Vec::new();
    let mut j: usize = 0;
    while j < n
        invariant
            j <= n,
            blen == b@.len(),
            n == b@.len() / 200,
            payments_readable(b@),
            r@.len() == j,
            forall|q: int|
                0 <= q < j ==> {
                    let s = 200 * q;
                    &&& (#[trigger] r@[q]).0@[0]@ == payment_key(b@, s, 0)
                    &&& r@[q].0@[1]@ == payment_key(b@, s, 1)
                    &&& r@[q].0@[2]@ == payment_key(b@, s, 2)
                    &&& r@[q].1 == payment_amount(b@, s)
                },
        decreases n - j,
    {
        assert(200 * j + 200 <= b@.len()) by (nonlinear_arith)
            requires
                j < n,
                n == b@.len() / 200,
        ;
        let s: usize = 200 * j;
        let mut keys: [[u8; 32]; 3] = [[0u8; 32]; 3];
        let mut p: usize = 0;
        while p < 3
            invariant
                p <= 3,
                s == 200 * j,
                s + 200 <= b@.len(),
                blen == b@.len(),
                payments_readable(b@),
                forall|q: int| 0 <= q < p ==> (#[trigger] keys@[q])@ == payment_key(b@, s as int, q),
            decreases 3 - p,
        {
            let mut key: [u8; 32] = [0u8; 32];
            let mut k: usize = 0;
            while k < 32
                invariant
                    k <= 32,
                    p < 3,
                    s == 200 * j,
                    s + 200 <= b@.len(),
                    blen == b@.len(),
                    payments_readable(b@),
                    forall|q: int|
                        0 <= q < k ==> key@[q] == key_byte(b@[s + 64 * p + q], b@[s + 64 * p + 32 + q]) as u8,
                decreases 32 - k,
            {
                let i: usize = s + 64 * p + k;
                proof {
                    assert(i % 200 == 64 * p + k) by (nonlinear_arith)
                        requires
                            i == s + 64 * p + k,
                            s == 200 * j,
                            p < 3,
                            k < 32,
                    ;
                    assert(0 <= i < b@.len());
                    assert((i % 200) % 64 == k) by (nonlinear_arith)
                        requires
                            i % 200 == 64 * p + k,
                            p < 3,
                            k < 32,
                    ;
                    lemma_key_letters(b@, i as int);
                }
                let lo: u8 = b[i] - 97;
                let hi: u8 = (b[i + 32] - 97) * 16;
                key[k] = lo + hi;
                k = k + 1;
            }
            assert(key@ =~= payment_key(b@, s as int, p as int));
            keys[p] = key;
            p = p + 1;
        }
        let mut digits: Vec<u8> = Vec::new();
        let mut k: usize = 0;
        while k < 8
            invariant
                k <= 8,
                s == 200 * j,
                s + 200 <= b@.len(),
                blen == b@.len(),
                payments_readable(b@),
                digits@ =~= Seq::new(k as nat, |q: int| (b@[s + 192 + q] - 48) as u8),
            decreases 8 - k,
        {
            let i: usize = s + 192 + k;
            proof {
                assert(i % 200 == 192 + k) by (nonlinear_arith)
                    requires
                        i == s + 192 + k,
                        s == 200 * j,
                        k < 8,
                ;
                assert(command_byte_ok(b@, i as int));
            }
            digits.push(b[i] - 48);
            k = k + 1;
        }
        proof {
            assert(digits@ =~= Seq::new(8, |q: int| (b@[s + 192 + q] - 48) as u8));
            lemma_le_decode_8_bound(digits@);
            assert(digits@.subrange(0, 8) =~= digits@);
        }
        let amount: u64 = crate::codec::le_value(digits.as_slice(), 0, 8) as u64;
        r.push((keys, amount));
        j = j + 1;
    }
    proof {
        assert(payments_parsed(b@, r@));
        assert forall|j: int, p: int, k: int|
            0 <= j < r@.len() && 0 <= p < 3 && 0 <= k < 32 implies (#[trigger] r@[j].0@[p]@[k]) as int == (b@[200
                * j + 64 * p + k] - 97) + 16 * (b@[200 * j + 64 * p + 32 + k] - 97) by {
            law_payment_keys_spelled_in_order(b@, r@, j, p, k);
        }
        assert forall|j: int, k: int|
            0 <= j < r@.len() && 0 <= k < 8 implies (((#[trigger] r@[j]).1 as nat) / #[trigger] pow256(k as nat)) % 256 == b@[200 * j
                + 192 + k] - 48 by {
            law_payment_amount_digits(b@, r@, j, k);
        }
    }
    r
}

} // verus!
