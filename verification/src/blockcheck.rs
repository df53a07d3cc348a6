//! The rules a block's signers must meet: who may have signed, whether enough
//! did, and what a fork proof must show.
use crate::codec::{le_bytes, le_encode};
use crate::curve::{scalar_bytes, scalar_view};
use crate::validation::{
    append_bytes, check_outcome, group_outcome, MultiSignature, Signature, SignatureError, BLOCK_KEYWORD,
    NUMBER_OF_VALIDATORS, SIGNING_CUTOFF,
};
use crate::curve::{compressed_bytes, compressed_view};
use crate::sha::{sha3_512, sha3_512_spec};
use curve25519_dalek::ristretto::{CompressedRistretto, RistrettoPoint};
use crate::curve::point_view;
use vstd::prelude::*;

verus! {

/// Every signer is in the validator pool.
pub open spec fn all_in_pool(pks: Seq<u64>, pool: Seq<u64>) -> bool {
    forall|i: int| 0 <= i < pks.len() ==> pool.contains(#[trigger] pks[i])
}

pub open spec fn signed_fn(pks: Seq<u64>) -> spec_fn(u64) -> bool {
    |x: u64| pks.contains(x)
}

/// How many members of the pool signed (counted over the pool, so a member listed
/// twice in the pool counts twice).
pub open spec fn signed_count(pool: Seq<u64>, pks: Seq<u64>) -> nat {
    pool.filter(signed_fn(pks)).len()
}

/// Some value occurs twice.
pub open spec fn has_repeats<T>(s: Seq<T>) -> bool {
    exists|i: int, j: int| 0 <= i < j < s.len() && s[i] == s[j]
}

/// Too few signed: at most the cutoff for full blocks, below it for light blocks.
pub open spec fn too_few(count: nat, at_most: bool) -> bool {
    if at_most {
        count <= SIGNING_CUTOFF
    } else {
        count < SIGNING_CUTOFF
    }
}

fn contains_u64(s: &Vec<u64>, x: u64) -> (r: bool)
    ensures
        r == s@.contains(x),
{
    let mut i: usize = 0;
    while i < s.len()
        invariant
            i <= s@.len(),
            forall|k: int| 0 <= k < i ==> s@[k] != x,
        decreases s@.len() - i,
    {
        if s[i] == x {
            assert(s@[i as int] == x);
            return true;
        }
        i = i + 1;
    }
    false
}

/// The checks on the validators that signed a block, once their signatures are
/// known to hold: all of them in the pool, enough of the pool among them, and
/// none twice. `at_most` selects the full-block threshold (`count <= cutoff`
/// fails) over the light-block one (`count < cutoff` fails).
pub fn validator_rules(pks: &Vec<u64>, pool: &Vec<u64>, at_most: bool) -> (r: Result<(), &'static str>)
    ensures
        !all_in_pool(pks@, pool@) ==> r == Err::<(), &'static str>("at least 1 validator is not in the pool"),
        all_in_pool(pks@, pool@) && too_few(signed_count(pool@, pks@), at_most) ==> r == Err::<(), &'static str>(
            "there aren't enough validators",
        ),
        all_in_pool(pks@, pool@) && !too_few(signed_count(pool@, pks@), at_most) && has_repeats(pks@)
            ==> r == Err::<(), &'static str>("there's multiple signatures from the same validator"),
        all_in_pool(pks@, pool@) && !too_few(signed_count(pool@, pks@), at_most) && !has_repeats(pks@)
            ==> r == Ok::<(), &'static str>(()),
{
    let mut i: usize = 0;
    while i < pks.len()
        invariant
            i <= pks@.len(),
            forall|k: int| 0 <= k < i ==> pool@.contains(#[trigger] pks@[k]),
        decreases pks@.len() - i,
    {
        if !contains_u64(pool, pks[i]) {
            return Err("at least 1 validator is not in the pool");
        }
        i = i + 1;
    }
    let mut count: usize = 0;
    let mut k: usize = 0;
    proof {
        reveal(Seq::filter);
        assert(pool@.take(0) =~= Seq::<u64>::empty());
    }
    while k < pool.len()
        invariant
            k <= pool@.len(),
            count == pool@.take(k as int).filter(signed_fn(pks@)).len(),
            count <= k,
        decreases pool@.len() - k,
    {
        proof {
            assert(pool@.take(k + 1) =~= pool@.take(k as int).push(pool@[k as int]));
            pool@.take(k as int).lemma_filter_push(pool@[k as int], signed_fn(pks@));
        }
        if contains_u64(pks, pool[k]) {
            count = count + 1;
        }
        k = k + 1;
    }
    assert(pool@.take(pool@.len() as int) =~= pool@);
    let few = if at_most {
        count <= SIGNING_CUTOFF
    } else {
        count < SIGNING_CUTOFF
    };
    if few {
        return Err("there aren't enough validators");
    }
    let mut a: usize = 0;
    while a < pks.len()
        invariant
            a <= pks@.len(),
            all_in_pool(pks@, pool@),
            !too_few(signed_count(pool@, pks@), at_most),
            forall|x: int, y: int| 0 <= x < y < pks@.len() && y < a ==> pks@[x] != pks@[y],
        decreases pks@.len() - a,
    {
        let mut b: usize = 0;
        while b < a
            invariant
                a < pks@.len(),
                all_in_pool(pks@, pool@),
                !too_few(signed_count(pool@, pks@), at_most),
                b <= a,
                forall|x: int| 0 <= x < b ==> pks@[x] != pks@[a as int],
            decreases a - b,
        {
            if pks[b] == pks[a] {
                return Err("there's multiple signatures from the same validator");
            }
            b = b + 1;
        }
        a = a + 1;
    }
    Ok(())
}

/// The pool members that are not among the members that declared a block empty
/// (the group lists positions in the pool).
pub open spec fn outside_group(pool: Seq<u64>, group: Seq<u8>) -> Seq<u64> {
    pool.filter(|x: u64| forall|i: int| 0 <= i < group.len() ==> pool[group[i] as int] != x)
}

/// The checks on the group that declared a block empty, before its signature is
/// checked: the block must hold no transactions, no member may be listed twice,
/// and enough of the pool must be outside the group. Returns the pool members
/// outside the group, whose keys the group signature is checked against.
/// `at_most` selects the full-block threshold as in `validator_rules`.
pub fn emptiness_rules(tx_count: usize, group: &Vec<u8>, pool: &Vec<u64>, at_most: bool) -> (r: Result<
    Vec<u64>,
    &'static str,
>)
    requires
        forall|i: int| 0 <= i < group@.len() ==> (#[trigger] group@[i] as int) < pool@.len(),
    ensures
        tx_count > 0 ==> r == Err::<Vec<u64>, &'static str>("the block isn't empty!"),
        tx_count == 0 && has_repeats(group@) ==> r == Err::<Vec<u64>, &'static str>(
            "someone failed to sign twice as the same validator",
        ),
        tx_count == 0 && !has_repeats(group@) && too_few(outside_group(pool@, group@).len(), at_most)
            ==> r == Err::<Vec<u64>, &'static str>("there's not enough validators for the empty block"),
        tx_count == 0 && !has_repeats(group@) && !too_few(outside_group(pool@, group@).len(), at_most)
            ==> (r matches Ok(who) && who@ == outside_group(pool@, group@)),
{
    if tx_count > 0 {
        return Err("the block isn't empty!");
    }
    let mut a: usize = 0;
    while a < group.len()
        invariant
            a <= group@.len(),
            tx_count == 0,
            forall|x: int, y: int| 0 <= x < y < group@.len() && y < a ==> group@[x] != group@[y],
        decreases group@.len() - a,
    {
        let mut b: usize = 0;
        while b < a
            invariant
                a < group@.len(),
                tx_count == 0,
                b <= a,
                forall|x: int| 0 <= x < b ==> group@[x] != group@[a as int],
            decreases a - b,
        {
            if group[b] == group[a] {
                return Err("someone failed to sign twice as the same validator");
            }
            b = b + 1;
        }
        a = a + 1;
    }
    let ghost pred = |x: u64| forall|i: int| 0 <= i < group@.len() ==> pool@[group@[i] as int] != x;
    let mut who: Vec<u64> = Vec::new();
    let mut k: usize = 0;
    proof {
        reveal(Seq::filter);
        assert(pool@.take(0) =~= Seq::<u64>::empty());
    }
    while k < pool.len()
        invariant
            k <= pool@.len(),
            forall|i: int| 0 <= i < group@.len() ==> (#[trigger] group@[i] as int) < pool@.len(),
            pred == (|x: u64| forall|i: int| 0 <= i < group@.len() ==> pool@[group@[i] as int] != x),
            who@ == pool@.take(k as int).filter(pred),
        decreases pool@.len() - k,
    {
        let x = pool[k];
        let mut out = true;
        let mut g: usize = 0;
        while g < group.len()
            invariant
                g <= group@.len(),
                forall|i: int| 0 <= i < group@.len() ==> (#[trigger] group@[i] as int) < pool@.len(),
                out == (forall|i: int| 0 <= i < g ==> pool@[group@[i] as int] != x),
            decreases group@.len() - g,
        {
            if pool[group[g] as usize] == x {
                out = false;
            }
            g = g + 1;
        }
        proof {
            assert(pool@.take(k + 1) =~= pool@.take(k as int).push(x));
            pool@.take(k as int).lemma_filter_push(x, pred);
        }
        if out {
            who.push(x);
        }
        k = k + 1;
    }
    assert(pool@.take(pool@.len() as int) =~= pool@);
    assert(who@ == outside_group(pool@, group@));
    let few = if at_most {
        who.len() <= 2 * NUMBER_OF_VALIDATORS / 3
    } else {
        who.len() < SIGNING_CUTOFF
    };
    if few {
        return Err("there's not enough validators for the empty block");
    }
    Ok(who)
}

/// How a block was signed.
#[derive(Clone, Copy, Debug, PartialEq, Eq, Structural)]
pub enum BlockKind {
    /// Validators signed it.
    Validated,
    /// A group declared it empty.
    Empty,
}

/// Which checks a block gets: exactly one of validator signatures and an
/// emptiness declaration must be present.
pub fn block_kind(has_validators: bool, has_emptyness: bool) -> (r: Result<BlockKind, &'static str>)
    ensures
        has_validators && has_emptyness ==> r == Err::<BlockKind, &'static str>(
            "both the validators and the emptyness are some",
        ),
        has_validators && !has_emptyness ==> r == Ok::<BlockKind, &'static str>(BlockKind::Validated),
        !has_validators && has_emptyness ==> r == Ok::<BlockKind, &'static str>(BlockKind::Empty),
        !has_validators && !has_emptyness ==> r == Err::<BlockKind, &'static str>(
            "both the validators and the emptyness are none",
        ),
{
    if has_validators {
        if has_emptyness {
            Err("both the validators and the emptyness are some")
        } else {
            Ok(BlockKind::Validated)
        }
    } else if has_emptyness {
        Ok(BlockKind::Empty)
    } else {
        Err("both the validators and the emptyness are none")
    }
}

/// The two signatures of a fork proof come from one staker and differ.
pub fn forker_rules(s0: &Signature, s1: &Signature) -> (r: Result<(), &'static str>)
    ensures
        s0.pk != s1.pk ==> r == Err::<(), &'static str>("forker is not 1 person"),
        s0.pk == s1.pk && scalar_view(s0.c) == scalar_view(s1.c) && scalar_view(s0.r) == scalar_view(s1.r)
            ==> r == Err::<(), &'static str>("forker is not a forker"),
        s0.pk == s1.pk && (scalar_view(s0.c) != scalar_view(s1.c) || scalar_view(s0.r) != scalar_view(
            s1.r,
        )) ==> r == Ok::<(), &'static str>(()),
{
    if s0.pk != s1.pk {
        return Err("forker is not 1 person");
    }
    let c0 = scalar_bytes(&s0.c);
    let c1 = scalar_bytes(&s1.c);
    let r0 = scalar_bytes(&s0.r);
    let r1 = scalar_bytes(&s1.r);
    if same32(&c0, &c1) && same32(&r0, &r1) {
        return Err("forker is not a forker");
    }
    Ok(())
}

fn same32(a: &[u8; 32], b: &[u8; 32]) -> (r: bool)
    ensures
        r == (a@ == b@),
{
    let mut i: usize = 0;
    while i < 32
        invariant
            i <= 32,
            a@.len() == 32,
            b@.len() == 32,
            forall|k: int| 0 <= k < i ==> a@[k] == b@[k],
        decreases 32 - i,
    {
        if a[i] != b[i] {
            return false;
        }
        i = i + 1;
    }
    assert(a@ =~= b@);
    true
}

/// The message a block signature at height `b` covers: the block keyword, the
/// height's 8 little-endian bytes, then the block's bytes.
pub fn forker_message(b: u64, v: &Vec<u8>) -> (m: Vec<u8>)
    ensures
        m@ == BLOCK_KEYWORD@ + le_encode(b as nat, 8) + v@,
{
    let mut m: Vec<u8> = Vec::new();
    let mut i: usize = 0;
    while i < 6
        invariant
            i <= 6,
            m@ == BLOCK_KEYWORD@.take(i as int),
        decreases 6 - i,
    {
        m.push(BLOCK_KEYWORD[i]);
        proof {
            assert(BLOCK_KEYWORD@.take(i + 1) =~= BLOCK_KEYWORD@.take(i as int).push(BLOCK_KEYWORD@[i as int]));
        }
        i = i + 1;
    }
    assert(BLOCK_KEYWORD@.take(6) =~= BLOCK_KEYWORD@);
    let mut hb = le_bytes(b as u128, 8);
    m.append(&mut hb);
    let ghost head = m@;
    let mut k: usize = 0;
    while k < v.len()
        invariant
            k <= v@.len(),
            m@ == head + v@.take(k as int),
        decreases v@.len() - k,
    {
        m.push(v[k]);
        proof {
            assert(v@.take(k + 1) =~= v@.take(k as int).push(v@[k as int]));
            assert(m@ =~= head + v@.take(k + 1));
        }
        k = k + 1;
    }
    assert(v@.take(v@.len() as int) =~= v@);
    m
}

/// The outcome of checking a fork proof: two signatures `s0`, `s1` on the block
/// bytes `v0`, `v1` at height `b`. `Err(BadKey)` when a check meets a key that is
/// not a point; otherwise the rules of `forker_rules`, then "the forker was
/// framed" unless both signatures hold.
pub open spec fn forker_outcome(
    s0: Signature,
    s1: Signature,
    v0: Seq<u8>,
    v1: Seq<u8>,
    b: u64,
    stk: Seq<(CompressedRistretto, u64)>,
    g: Seq<u8>,
) -> Result<Result<(), &'static str>, SignatureError> {
    let same = scalar_view(s0.c) == scalar_view(s1.c) && scalar_view(s0.r) == scalar_view(s1.r);
    let o0 = check_outcome(scalar_view(s0.c), scalar_view(s0.r), s0.pk, BLOCK_KEYWORD@ + le_encode(b as nat, 8) + v0, stk, g);
    let o1 = check_outcome(scalar_view(s1.c), scalar_view(s1.r), s1.pk, BLOCK_KEYWORD@ + le_encode(b as nat, 8) + v1, stk, g);
    if s0.pk != s1.pk {
        Ok(Err("forker is not 1 person"))
    } else if same {
        Ok(Err("forker is not a forker"))
    } else if o0 is Err {
        Err(SignatureError::BadKey)
    } else if o1 is Err {
        Err(SignatureError::BadKey)
    } else if o0 == Ok::<bool, SignatureError>(true) && o1 == Ok::<bool, SignatureError>(true) {
        Ok(Ok(()))
    } else {
        Ok(Err("the forker was framed"))
    }
}

/// Checks a fork proof: the rules of `forker_rules`, then both signatures on the
/// block bytes they sign at height `b`, with the generator `g`.
pub fn check_forker(
    s0: &Signature,
    s1: &Signature,
    v0: &Vec<u8>,
    v1: &Vec<u8>,
    b: u64,
    stkstate: &Vec<(CompressedRistretto, u64)>,
    g: &RistrettoPoint,
) -> (r: Result<Result<(), &'static str>, SignatureError>)
    requires
        scalar_view(s0.r)[31] <= 127,
        scalar_view(s0.c)[31] <= 127,
        scalar_view(s1.r)[31] <= 127,
        scalar_view(s1.c)[31] <= 127,
    ensures
        r == forker_outcome(*s0, *s1, v0@, v1@, b, stkstate@, point_view(*g)),
{
    match forker_rules(s0, s1) {
        Err(e) => {
            return Ok(Err(e));
        },
        Ok(()) => {},
    }
    let x = forker_message(b, v0);
    let y = forker_message(b, v1);
    let o0 = s0.verify(&x, stkstate, g);
    let o1 = s1.verify(&y, stkstate, g);
    match (o0, o1) {
        (Err(e), _) => Err(e),
        (_, Err(e)) => Err(e),
        (Ok(a), Ok(c)) => {
            if a && c {
                Ok(Ok(()))
            } else {
                Ok(Err("the forker was framed"))
            }
        },
    }
}

// ---------------------------------------------------------------------------
// Checking a whole block.

/// A block as its checks read it: the signatures, the number of transactions, the
/// shards, height and previous block name, and, as bytes, the serialized parts its
/// signatures cover (the `bincode` forms of the shard list, the validator
/// signatures, the fork proof and the emptiness declaration, and the signing bytes
/// of its transactions).
pub struct BlockRecord {
    pub forker: Option<(Signature, Signature, Vec<u8>, Vec<u8>, u64)>,
    pub validators: Option<Vec<Signature>>,
    pub emptyness: Option<MultiSignature>,
    pub leader: Signature,
    pub tx_count: usize,
    pub shards: Vec<u16>,
    pub bnum: u64,
    pub last_name: Vec<u8>,
    pub shards_bytes: Vec<u8>,
    pub validators_bytes: Vec<u8>,
    pub forker_bytes: Vec<u8>,
    pub emptyness_bytes: Vec<u8>,
    pub txs_bytes: Vec<u8>,
}

/// What the leader of a validated block signs: the block keyword, the shard list,
/// the height, the previous block's name, the digest of the validator signatures
/// and the fork proof.
pub open spec fn leader_message(b: BlockRecord) -> Seq<u8> {
    BLOCK_KEYWORD@ + b.shards_bytes@ + le_encode(b.bnum as nat, 8) + b.last_name@ + sha3_512_spec(
        b.validators_bytes@,
    ) + b.forker_bytes@
}

/// What each validator of a validated block signs: the leader's key, the shard
/// list, the transactions, the height and the previous block's name.
pub open spec fn validator_message(b: BlockRecord, stk: Seq<(CompressedRistretto, u64)>) -> Seq<u8> {
    compressed_view(stk[b.leader.pk as int].0) + b.shards_bytes@ + b.txs_bytes@ + le_encode(b.bnum as nat, 8)
        + b.last_name@
}

/// What the group of an empty block signs: the leader's key, the previous block's
/// name and the first shard.
pub open spec fn group_message(b: BlockRecord, stk: Seq<(CompressedRistretto, u64)>) -> Seq<u8> {
    compressed_view(stk[b.leader.pk as int].0) + b.last_name@ + le_encode(b.shards@[0] as nat, 2)
}

/// What the leader of an empty block signs: the block keyword, the first shard, the
/// height, the previous block's name and the emptiness declaration.
pub open spec fn empty_leader_message(b: BlockRecord) -> Seq<u8> {
    BLOCK_KEYWORD@ + le_encode(b.shards@[0] as nat, 2) + le_encode(b.bnum as nat, 8) + b.last_name@
        + b.emptyness_bytes@
}

/// Checking the signatures in order on `m`: the first that does not hold, or
/// meets a key that is not a point, decides; `Ok(true)` when all hold.
pub open spec fn signatures_outcome(
    sigs: Seq<Signature>,
    m: Seq<u8>,
    stk: Seq<(CompressedRistretto, u64)>,
    g: Seq<u8>,
) -> Result<bool, SignatureError>
    decreases sigs.len(),
{
    if sigs.len() == 0 {
        Ok(true)
    } else {
        match check_outcome(scalar_view(sigs[0].c), scalar_view(sigs[0].r), sigs[0].pk, m, stk, g) {
            Ok(true) => signatures_outcome(sigs.drop_first(), m, stk, g),
            other => other,
        }
    }
}

/// The signers' positions.
pub open spec fn signer_positions(sigs: Seq<Signature>) -> Seq<u64> {
    sigs.map_values(|s: Signature| s.pk)
}

/// The result of `validator_rules`.
pub open spec fn validator_rules_outcome(pks: Seq<u64>, pool: Seq<u64>, at_most: bool) -> Result<(), &'static str> {
    if !all_in_pool(pks, pool) {
        Err("at least 1 validator is not in the pool")
    } else if too_few(signed_count(pool, pks), at_most) {
        Err("there aren't enough validators")
    } else if has_repeats(pks) {
        Err("there's multiple signatures from the same validator")
    } else {
        Ok(())
    }
}

/// The result of `emptiness_rules`: an error, or the pool members outside the group.
pub open spec fn emptiness_outcome(tx_count: usize, group: Seq<u8>, pool: Seq<u64>, at_most: bool) -> Result<
    Seq<u64>,
    &'static str,
> {
    if tx_count > 0 {
        Err("the block isn't empty!")
    } else if has_repeats(group) {
        Err("someone failed to sign twice as the same validator")
    } else if too_few(outside_group(pool, group).len(), at_most) {
        Err("there's not enough validators for the empty block")
    } else {
        Ok(outside_group(pool, group))
    }
}

/// The keys the staker table holds at the positions `who`.
pub open spec fn keys_at(who: Seq<u64>, stk: Seq<(CompressedRistretto, u64)>) -> Seq<CompressedRistretto> {
    who.map_values(|x: u64| stk[x as int].0)
}

/// The outcome of the checks on a validated block with the validator signatures `vs`.
pub open spec fn validated_outcome(
    b: BlockRecord,
    vs: Seq<Signature>,
    pool: Seq<u64>,
    stk: Seq<(CompressedRistretto, u64)>,
    g: Seq<u8>,
) -> Result<Result<bool, &'static str>, SignatureError> {
    match check_outcome(scalar_view(b.leader.c), scalar_view(b.leader.r), b.leader.pk, leader_message(b), stk, g) {
        Err(e) => Err(e),
        Ok(false) => Ok(Err("leader is fake")),
        Ok(true) => match signatures_outcome(vs, validator_message(b, stk), stk, g) {
            Err(e) => Err(e),
            Ok(false) => Ok(Err("at least 1 validator is fake")),
            Ok(true) => match validator_rules_outcome(signer_positions(vs), pool, true) {
                Err(m) => Ok(Err(m)),
                Ok(()) => Ok(Ok(true)),
            },
        },
    }
}

/// The outcome of the checks on a block declared empty by the group signature `e`.
pub open spec fn empty_outcome(
    b: BlockRecord,
    e: MultiSignature,
    pool: Seq<u64>,
    stk: Seq<(CompressedRistretto, u64)>,
    g: Seq<u8>,
) -> Result<Result<bool, &'static str>, SignatureError> {
    match emptiness_outcome(b.tx_count, e.pk@, pool, true) {
        Err(m) => Ok(Err(m)),
        Ok(who) => if b.leader.pk as int >= stk.len() {
            Ok(Err("you're probably behind on blocks"))
        } else {
            match group_outcome(scalar_view(e.y), compressed_view(e.x), group_message(b, stk), keys_at(who, stk), g) {
                Err(x) => Err(x),
                Ok(false) => Ok(Err("multisignature can not be verified")),
                Ok(true) => match check_outcome(
                    scalar_view(b.leader.c),
                    scalar_view(b.leader.r),
                    b.leader.pk,
                    empty_leader_message(b),
                    stk,
                    g,
                ) {
                    Err(x) => Err(x),
                    Ok(false) => Ok(Err("there's a problem with the leader's multisignature group signature")),
                    Ok(true) => Ok(Ok(true)),
                },
            }
        },
    }
}

/// The outcome of checking a block: the fork proof first, if there is one; then
/// exactly one of validator signatures and an emptiness declaration must be
/// present, and that one is checked. `Err(BadKey)` when a check meets a key that
/// is not a point.
pub open spec fn block_check(
    b: BlockRecord,
    pool: Seq<u64>,
    stk: Seq<(CompressedRistretto, u64)>,
    g: Seq<u8>,
) -> Result<Result<bool, &'static str>, SignatureError> {
    let fork = match b.forker {
        Some((s0, s1, v0, v1, h)) => forker_outcome(s0, s1, v0@, v1@, h, stk, g),
        None => Ok(Ok(())),
    };
    match fork {
        Err(e) => Err(e),
        Ok(Err(m)) => Ok(Err(m)),
        Ok(Ok(())) => match (b.validators, b.emptyness) {
            (Some(_), Some(_)) => Ok(Err("both the validators and the emptyness are some")),
            (None, None) => Ok(Err("both the validators and the emptyness are none")),
            (Some(vs), None) => validated_outcome(b, vs@, pool, stk, g),
            (None, Some(e)) => empty_outcome(b, e, pool, stk, g),
        },
    }
}

/// Every scalar of the block's signatures is reduced in its top byte, as
/// canonical scalars are.
pub open spec fn block_scalars_canonical(b: BlockRecord) -> bool {
    &&& scalar_view(b.leader.c)[31] <= 127
    &&& scalar_view(b.leader.r)[31] <= 127
    &&& (b.forker matches Some((s0, s1, _, _, _)) ==> {
        &&& scalar_view(s0.c)[31] <= 127
        &&& scalar_view(s0.r)[31] <= 127
        &&& scalar_view(s1.c)[31] <= 127
        &&& scalar_view(s1.r)[31] <= 127
    })
    &&& (b.validators matches Some(vs) ==> forall|i: int|
        0 <= i < vs@.len() ==> scalar_view(#[trigger] vs@[i].c)[31] <= 127 && scalar_view(vs@[i].r)[31] <= 127)
    &&& (b.emptyness matches Some(e) ==> scalar_view(e.y)[31] <= 127)
}

/// The indices an empty block's checks take are in range: the group lists pool
/// positions, the pool members outside it name stakers, and, when the checks get
/// as far as the group signature, the block has a first shard.
pub open spec fn empty_block_indices(b: BlockRecord, pool: Seq<u64>, stk: Seq<(CompressedRistretto, u64)>) -> bool {
    b.validators is None ==> (b.emptyness matches Some(e) ==> {
        &&& forall|i: int| 0 <= i < e.pk@.len() ==> (#[trigger] e.pk@[i] as int) < pool.len()
        &&& forall|i: int| 0 <= i < outside_group(pool, e.pk@).len() ==> (#[trigger] outside_group(pool, e.pk@)[i] as int) < stk.len()
        &&& (emptiness_outcome(b.tx_count, e.pk@, pool, true) is Ok && (b.leader.pk as int) < stk.len()) ==> b.shards@.len() > 0
    })
}

/// The block keyword's bytes.
fn keyword_bytes() -> (r: Vec<u8>)
    ensures
        r@ == BLOCK_KEYWORD@,
{
    let mut m: Vec<u8> = Vec::new();
    let mut i: usize = 0;
    while i < 6
        invariant
            i <= 6,
            m@ == BLOCK_KEYWORD@.take(i as int),
        decreases 6 - i,
    {
        m.push(BLOCK_KEYWORD[i]);
        proof {
            assert(BLOCK_KEYWORD@.take(i + 1) =~= BLOCK_KEYWORD@.take(i as int).push(BLOCK_KEYWORD@[i as int]));
        }
        i = i + 1;
    }
    assert(BLOCK_KEYWORD@.take(6) =~= BLOCK_KEYWORD@);
    m
}

/// Checks each signature on `m` in order, stopping at the first that does not
/// hold or meets a key that is not a point.
fn check_signatures(
    sigs: &Vec<Signature>,
    m: &Vec<u8>,
    stkstate: &Vec<(CompressedRistretto, u64)>,
    g: &RistrettoPoint,
) -> (r: Result<bool, SignatureError>)
    requires
        forall|i: int|
            0 <= i < sigs@.len() ==> scalar_view(#[trigger] sigs@[i].c)[31] <= 127 && scalar_view(sigs@[i].r)[31] <= 127,
    ensures
        r == signatures_outcome(sigs@, m@, stkstate@, point_view(*g)),
{
    let mut i: usize = 0;
    assert(sigs@.skip(0) =~= sigs@);
    while i < sigs.len()
        invariant
            i <= sigs@.len(),
            forall|k: int|
                0 <= k < sigs@.len() ==> scalar_view(#[trigger] sigs@[k].c)[31] <= 127 && scalar_view(sigs@[k].r)[31] <= 127,
            signatures_outcome(sigs@, m@, stkstate@, point_view(*g)) == signatures_outcome(
                sigs@.skip(i as int),
                m@,
                stkstate@,
                point_view(*g),
            ),
        decreases sigs@.len() - i,
    {
        let ghost rest = sigs@.skip(i as int);
        assert(rest[0] == sigs@[i as int]);
        let o = sigs[i].verify(m, stkstate, g);
        match o {
            Ok(true) => {},
            Ok(false) => {
                return Ok(false);
            },
            Err(e) => {
                return Err(e);
            },
        }
        proof {
            assert(rest.drop_first() =~= sigs@.skip(i + 1));
        }
        i = i + 1;
    }
    assert(sigs@.skip(sigs@.len() as int) =~= Seq::<Signature>::empty());
    Ok(true)
}

/// The checks on a validated block.
fn check_validated(
    b: &BlockRecord,
    vs: &Vec<Signature>,
    pool: &Vec<u64>,
    stkstate: &Vec<(CompressedRistretto, u64)>,
    g: &RistrettoPoint,
) -> (r: Result<Result<bool, &'static str>, SignatureError>)
    requires
        scalar_view(b.leader.c)[31] <= 127,
        scalar_view(b.leader.r)[31] <= 127,
        forall|i: int|
            0 <= i < vs@.len() ==> scalar_view(#[trigger] vs@[i].c)[31] <= 127 && scalar_view(vs@[i].r)[31] <= 127,
    ensures
        r == validated_outcome(*b, vs@, pool@, stkstate@, point_view(*g)),
{
    let mut m = keyword_bytes();
    append_bytes(&mut m, b.shards_bytes.as_slice());
    let hb = le_bytes(b.bnum as u128, 8);
    append_bytes(&mut m, hb.as_slice());
    append_bytes(&mut m, b.last_name.as_slice());
    let c = sha3_512(b.validators_bytes.as_slice());
    append_bytes(&mut m, c.as_slice());
    append_bytes(&mut m, b.forker_bytes.as_slice());
    assert(m@ == leader_message(*b));
    match b.leader.verify(&m, stkstate, g) {
        Err(e) => {
            return Err(e);
        },
        Ok(false) => {
            return Ok(Err("leader is fake"));
        },
        Ok(true) => {},
    }
    let n = stkstate.len();
    assert((b.leader.pk as int) < n);
    let lk = compressed_bytes(&stkstate[b.leader.pk as usize].0);
    let mut m2: Vec<u8> = Vec::new();
    append_bytes(&mut m2, &lk);
    assert(m2@ =~= compressed_view(stkstate@[b.leader.pk as int].0));
    append_bytes(&mut m2, b.shards_bytes.as_slice());
    append_bytes(&mut m2, b.txs_bytes.as_slice());
    append_bytes(&mut m2, hb.as_slice());
    append_bytes(&mut m2, b.last_name.as_slice());
    assert(m2@ == validator_message(*b, stkstate@));
    match check_signatures(vs, &m2, stkstate, g) {
        Err(e) => {
            return Err(e);
        },
        Ok(false) => {
            return Ok(Err("at least 1 validator is fake"));
        },
        Ok(true) => {},
    }
    let mut pks: Vec<u64> = Vec::new();
    let mut i: usize = 0;
    while i < vs.len()
        invariant
            i <= vs@.len(),
            pks@ == signer_positions(vs@.take(i as int)),
        decreases vs@.len() - i,
    {
        pks.push(vs[i].pk);
        proof {
            assert(signer_positions(vs@.take(i + 1)) =~= signer_positions(vs@.take(i as int)).push(vs@[i as int].pk));
        }
        i = i + 1;
    }
    assert(vs@.take(vs@.len() as int) =~= vs@);
    match validator_rules(&pks, pool, true) {
        Err(msg) => Ok(Err(msg)),
        Ok(()) => Ok(Ok(true)),
    }
}

/// The checks on a block declared empty.
fn check_empty(
    b: &BlockRecord,
    e: &MultiSignature,
    pool: &Vec<u64>,
    stkstate: &Vec<(CompressedRistretto, u64)>,
    g: &RistrettoPoint,
) -> (r: Result<Result<bool, &'static str>, SignatureError>)
    requires
        scalar_view(b.leader.c)[31] <= 127,
        scalar_view(b.leader.r)[31] <= 127,
        scalar_view(e.y)[31] <= 127,
        forall|i: int| 0 <= i < e.pk@.len() ==> (#[trigger] e.pk@[i] as int) < pool@.len(),
        forall|i: int|
            0 <= i < outside_group(pool@, e.pk@).len() ==> (#[trigger] outside_group(pool@, e.pk@)[i] as int)
                < stkstate@.len(),
        (emptiness_outcome(b.tx_count, e.pk@, pool@, true) is Ok && (b.leader.pk as int) < stkstate@.len())
            ==> b.shards@.len() > 0,
    ensures
        r == empty_outcome(*b, *e, pool@, stkstate@, point_view(*g)),
{
    let who = match emptiness_rules(b.tx_count, &e.pk, pool, true) {
        Err(msg) => {
            return Ok(Err(msg));
        },
        Ok(w) => w,
    };
    assert(emptiness_outcome(b.tx_count, e.pk@, pool@, true) == Ok::<Seq<u64>, &'static str>(who@));
    if b.leader.pk >= stkstate.len() as u64 {
        return Ok(Err("you're probably behind on blocks"));
    }
    let mut keys: Vec<CompressedRistretto> = Vec::new();
    let mut i: usize = 0;
    let n = stkstate.len();
    while i < who.len()
        invariant
            n == stkstate@.len(),
            i <= who@.len(),
            forall|k: int| 0 <= k < who@.len() ==> (#[trigger] who@[k] as int) < stkstate@.len(),
            keys@ == keys_at(who@.take(i as int), stkstate@),
        decreases who@.len() - i,
    {
        let x = who[i];
        assert(x == who@[i as int] && (x as int) < stkstate@.len());
        let xi = x as usize;
        assert(xi as int == x as int);
        keys.push(stkstate[xi].0);
        proof {
            assert(keys_at(who@.take(i + 1), stkstate@) =~= keys_at(who@.take(i as int), stkstate@).push(
                stkstate@[x as int].0,
            ));
        }
        i = i + 1;
    }
    assert(who@.take(who@.len() as int) =~= who@);
    let lk = compressed_bytes(&stkstate[b.leader.pk as usize].0);
    let sb = le_bytes(b.shards[0] as u128, 2);
    let mut m: Vec<u8> = Vec::new();
    append_bytes(&mut m, &lk);
    assert(m@ =~= compressed_view(stkstate@[b.leader.pk as int].0));
    append_bytes(&mut m, b.last_name.as_slice());
    append_bytes(&mut m, sb.as_slice());
    assert(m@ == group_message(*b, stkstate@));
    match MultiSignature::verify_group(&e.y, &e.x, &m, &keys, g) {
        Err(x) => {
            return Err(x);
        },
        Ok(false) => {
            return Ok(Err("multisignature can not be verified"));
        },
        Ok(true) => {},
    }
    let mut m2 = keyword_bytes();
    append_bytes(&mut m2, sb.as_slice());
    let hb = le_bytes(b.bnum as u128, 8);
    append_bytes(&mut m2, hb.as_slice());
    append_bytes(&mut m2, b.last_name.as_slice());
    append_bytes(&mut m2, b.emptyness_bytes.as_slice());
    assert(m2@ == empty_leader_message(*b));
    match b.leader.verify(&m2, stkstate, g) {
        Err(x) => Err(x),
        Ok(false) => Ok(Err("there's a problem with the leader's multisignature group signature")),
        Ok(true) => Ok(Ok(true)),
    }
}

/// Checks a block against the validator pool `pool` and the staker table, with the
/// generator `g`: the fork proof, if any, then the validators' signatures and
/// rules, or the emptiness declaration and its group signature, and the leader's
/// signature, in that order. `Ok(Ok(true))` when every check passes, `Ok(Err(..))`
/// with the first rule broken, `Err(BadKey)` when a check meets a key that is not a
/// point.
pub fn check_block(
    b: &BlockRecord,
    pool: &Vec<u64>,
    stkstate: &Vec<(CompressedRistretto, u64)>,
    g: &RistrettoPoint,
) -> (r: Result<Result<bool, &'static str>, SignatureError>)
    requires
        block_scalars_canonical(*b),
        empty_block_indices(*b, pool@, stkstate@),
    ensures
        r == block_check(*b, pool@, stkstate@, point_view(*g)),
{
    match &b.forker {
        Some((s0, s1, v0, v1, h)) => {
            match check_forker(s0, s1, v0, v1, *h, stkstate, g) {
                Err(e) => {
                    return Err(e);
                },
                Ok(Err(msg)) => {
                    return Ok(Err(msg));
                },
                Ok(Ok(())) => {},
            }
        },
        None => {},
    }
    match (&b.validators, &b.emptyness) {
        (Some(_), Some(_)) => Ok(Err("both the validators and the emptyness are some")),
        (None, None) => Ok(Err("both the validators and the emptyness are none")),
        (Some(vs), None) => check_validated(b, vs, pool, stkstate, g),
        (None, Some(e)) => check_empty(b, e, pool, stkstate, g),
    }
}

} // verus!
