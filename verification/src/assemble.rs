//! Choosing the transactions a validator puts in its shard's block: ordinary
//! transactions that spend no tag twice and no tag already spent, then staker
//! transactions that spend no stake twice.
use crate::bloom::{all_bits_set, item_digests, BloomFile, FILE_BYTES};
use crate::keyed_hash::{digest_values, KeyedDigest};
use crate::codec::{le_decode, le_value, lemma_le_decode_bound, lemma_pow256_values};
use crate::curve::{compressed_bytes, compressed_view};
use crate::transaction::{words, PolynomialTransaction};
use vstd::prelude::*;

verus! {

/// The byte sequence is nonempty and ends in `b`.
pub open spec fn ends_in(inp: Seq<u8>, b: u8) -> bool {
    inp.len() > 0 && inp.last() == b
}

/// Transaction `i` is a staker's transaction whose stake check passed.
pub open spec fn stake_candidate<A, S>(txs: Seq<PolynomialTransaction<A, S>>, stake_ok: Seq<bool>, i: int) -> bool {
    ends_in(txs[i].inputs@, 1) && stake_ok[i]
}

/// Some stake word of `x` is a stake word of `y`.
pub open spec fn words_meet_spec(x: Seq<u64>, y: Seq<u64>) -> bool {
    exists|k: int, q: int| 0 <= k < x.len() && 0 <= q < y.len() && #[trigger] x[k] == #[trigger] y[q]
}

/// Transaction `i` spends a stake word that an earlier candidate spends.
pub open spec fn stake_clash<A, S>(txs: Seq<PolynomialTransaction<A, S>>, stake_ok: Seq<bool>, i: int) -> bool {
    exists|e: int|
        0 <= e < i && stake_candidate(txs, stake_ok, e) && #[trigger] words_meet_spec(
            words(txs[i].inputs@),
            words(txs[e].inputs@),
        )
}

/// Transaction `i` is not a ring transaction (its inputs do not end in 0).
pub open spec fn non_ring<A, S>(txs: Seq<PolynomialTransaction<A, S>>, i: int) -> bool {
    !ends_in(txs[i].inputs@, 0)
}

/// Some tag of `x` is a tag of `y`.
pub open spec fn tags_meet_spec<A, S>(x: PolynomialTransaction<A, S>, y: PolynomialTransaction<A, S>) -> bool {
    exists|k: int, q: int|
        0 <= k < x.tags@.len() && 0 <= q < y.tags@.len() && compressed_view(#[trigger] x.tags@[k])
            == compressed_view(#[trigger] y.tags@[q])
}

/// Transaction `i` spends a tag that an earlier non-ring transaction spends.
pub open spec fn tag_clash<A, S>(txs: Seq<PolynomialTransaction<A, S>>, i: int) -> bool {
    exists|e: int| 0 <= e < i && non_ring(txs, e) && #[trigger] tags_meet_spec(txs[i], txs[e])
}

/// Transaction `x` spends one tag twice.
pub open spec fn double_tag<A, S>(x: PolynomialTransaction<A, S>) -> bool {
    exists|k: int, q: int|
        0 <= q < k < x.tags@.len() && compressed_view(#[trigger] x.tags@[k]) == compressed_view(
            #[trigger] x.tags@[q],
        )
}

/// The filter answered that some tag of transaction `i` is spent.
pub open spec fn bloom_hit(in_bloom: Seq<Seq<bool>>, i: int) -> bool {
    exists|k: int| 0 <= k < in_bloom[i].len() && #[trigger] in_bloom[i][k]
}

/// The filter's answers: for each tag of each transaction, whether the bits at
/// the values of its digests are all set.
pub open spec fn answers_of(filter: Seq<u8>, dss: Seq<Vec<Vec<KeyedDigest>>>) -> Seq<Seq<bool>> {
    Seq::new(
        dss.len(),
        |i: int| Seq::new(dss[i]@.len(), |k: int| all_bits_set(filter, digest_values(dss[i]@[k]@))),
    )
}

/// `dss` holds, for every tag of the first `n` transactions, in order, its digests
/// under `keys`.
pub open spec fn tag_digests<A, S>(
    txs: Seq<PolynomialTransaction<A, S>>,
    keys: (u128, u128),
    dss: Seq<Vec<Vec<KeyedDigest>>>,
    n: int,
) -> bool {
    &&& dss.len() == n
    &&& forall|i: int| 0 <= i < n ==> (#[trigger] dss[i])@.len() == txs[i].tags@.len()
    &&& forall|i: int, k: int|
        0 <= i < n && 0 <= k < dss[i]@.len() ==> item_digests(
            keys,
            compressed_view(txs[i].tags@[k]),
            (#[trigger] dss[i]@[k])@,
        )
}

/// The ordinary transactions chosen, by index, given the filter's answers.
pub open spec fn chosen_ordinary<A, S>(
    txs: Seq<PolynomialTransaction<A, S>>,
    tx_ok: Seq<bool>,
    in_bloom: Seq<Seq<bool>>,
    n: nat,
) -> Seq<usize>
    decreases n,
{
    if n == 0 {
        Seq::empty()
    } else {
        let i = n - 1;
        let rest = chosen_ordinary(txs, tx_ok, in_bloom, (n - 1) as nat);
        if non_ring(txs, i) && !tag_clash(txs, i) && !bloom_hit(in_bloom, i) && !double_tag(txs[i])
            && tx_ok[i] {
            rest.push(i as usize)
        } else {
            rest
        }
    }
}

/// The staker transactions chosen, by index.
pub open spec fn chosen_stakes<A, S>(txs: Seq<PolynomialTransaction<A, S>>, stake_ok: Seq<bool>, n: nat) -> Seq<usize>
    decreases n,
{
    if n == 0 {
        Seq::empty()
    } else {
        let i = n - 1;
        let rest = chosen_stakes(txs, stake_ok, (n - 1) as nat);
        if stake_candidate(txs, stake_ok, i) && !stake_clash(txs, stake_ok, i) {
            rest.push(i as usize)
        } else {
            rest
        }
    }
}

/// The ordinary transactions chosen among the first `n` are named by increasing
/// indices below `n`, each of a non-ring transaction that clashes with no earlier one.
proof fn lemma_chosen_ordinary_shape<A, S>(
    txs: Seq<PolynomialTransaction<A, S>>,
    tx_ok: Seq<bool>,
    in_bloom: Seq<Seq<bool>>,
    n: nat,
)
    requires
        n <= usize::MAX,
    ensures
        forall|a: int|
            0 <= a < chosen_ordinary(txs, tx_ok, in_bloom, n).len() ==> {
                let x = #[trigger] chosen_ordinary(txs, tx_ok, in_bloom, n)[a] as int;
                &&& x < n
                &&& non_ring(txs, x)
                &&& !tag_clash(txs, x)
                &&& !bloom_hit(in_bloom, x)
                &&& !double_tag(txs[x])
                &&& tx_ok[x]
            },
        forall|a: int, b: int|
            0 <= a < b < chosen_ordinary(txs, tx_ok, in_bloom, n).len() ==> #[trigger] chosen_ordinary(
                txs,
                tx_ok,
                in_bloom,
                n,
            )[a] < #[trigger] chosen_ordinary(txs, tx_ok, in_bloom, n)[b],
    decreases n,
{
    if n > 0 {
        let i = n - 1;
        lemma_chosen_ordinary_shape(txs, tx_ok, in_bloom, i as nat);
        let rest = chosen_ordinary(txs, tx_ok, in_bloom, i as nat);
        let r = chosen_ordinary(txs, tx_ok, in_bloom, n);
        if non_ring(txs, i) && !tag_clash(txs, i) && !bloom_hit(in_bloom, i) && !double_tag(txs[i]) && tx_ok[i] {
            assert(r == rest.push(i as usize));
            assert((i as usize) as int == i);
            assert forall|a: int| 0 <= a < r.len() implies {
                let x = #[trigger] r[a] as int;
                &&& x < n
                &&& non_ring(txs, x)
                &&& !tag_clash(txs, x)
                &&& !bloom_hit(in_bloom, x)
                &&& !double_tag(txs[x])
                &&& tx_ok[x]
            } by {
                if a < rest.len() {
                    assert(r[a] == rest[a]);
                }
            }
            assert forall|a: int, b: int| 0 <= a < b < r.len() implies #[trigger] r[a] < #[trigger] r[b] by {
                assert(r[a] == rest[a]);
                if b < rest.len() {
                    assert(r[b] == rest[b]);
                }
            }
        } else {
            assert(r == rest);
        }
    }
}

/// No two ordinary transactions chosen for a block spend a common tag, at any
/// positions of their tag lists.
pub proof fn law_chosen_transactions_share_no_tag<A, S>(
    txs: Seq<PolynomialTransaction<A, S>>,
    tx_ok: Seq<bool>,
    in_bloom: Seq<Seq<bool>>,
    n: nat,
)
    requires
        n <= txs.len(),
        n <= usize::MAX,
    ensures
        forall|a: int, b: int, k: int, m: int|
            0 <= a < b < chosen_ordinary(txs, tx_ok, in_bloom, n).len() && 0 <= k < txs[chosen_ordinary(
                txs,
                tx_ok,
                in_bloom,
                n,
            )[b] as int].tags@.len() && 0 <= m < txs[chosen_ordinary(txs, tx_ok, in_bloom, n)[a] as int].tags@.len()
                ==> compressed_view(
                #[trigger] txs[chosen_ordinary(txs, tx_ok, in_bloom, n)[b] as int].tags@[k],
            ) != compressed_view(#[trigger] txs[chosen_ordinary(txs, tx_ok, in_bloom, n)[a] as int].tags@[m]),
{
    let r = chosen_ordinary(txs, tx_ok, in_bloom, n);
    lemma_chosen_ordinary_shape(txs, tx_ok, in_bloom, n);
    assert forall|a: int, b: int, k: int, m: int|
        0 <= a < b < r.len() && 0 <= k < txs[r[b] as int].tags@.len() && 0 <= m < txs[r[a] as int].tags@.len()
            implies compressed_view(#[trigger] txs[r[b] as int].tags@[k]) != compressed_view(
        #[trigger] txs[r[a] as int].tags@[m],
    ) by {
        let i = r[b] as int;
        let e = r[a] as int;
        assert(r[a] < r[b]);
        assert(non_ring(txs, e));
        assert(!tag_clash(txs, i));
        assert(!tags_meet_spec(txs[i], txs[e]));
    }
}

/// Each ordinary transaction chosen for a block passed its signature check, is
/// not a ring transaction, has no tag the filter answered as spent, spends no tag
/// twice, and spends no tag that any earlier non-ring transaction of the list
/// spends, whether or not that one was chosen.
pub proof fn law_chosen_transactions_follow_rules<A, S>(
    txs: Seq<PolynomialTransaction<A, S>>,
    tx_ok: Seq<bool>,
    in_bloom: Seq<Seq<bool>>,
    n: nat,
)
    requires
        n <= txs.len(),
        n <= usize::MAX,
    ensures
        forall|a: int|
            0 <= a < chosen_ordinary(txs, tx_ok, in_bloom, n).len() ==> {
                let x = #[trigger] chosen_ordinary(txs, tx_ok, in_bloom, n)[a] as int;
                &&& x < n
                &&& tx_ok[x]
                &&& !(txs[x].inputs@.len() > 0 && txs[x].inputs@.last() == 0)
                &&& forall|k: int| 0 <= k < in_bloom[x].len() ==> !in_bloom[x][k]
                &&& forall|q: int, k: int|
                    0 <= q < k < txs[x].tags@.len() ==> compressed_view(txs[x].tags@[k]) != compressed_view(
                        txs[x].tags@[q],
                    )
                &&& forall|e: int, k: int, m: int|
                    0 <= e < x && !(txs[e].inputs@.len() > 0 && txs[e].inputs@.last() == 0) && 0 <= k
                        < txs[x].tags@.len() && 0 <= m < txs[e].tags@.len() ==> compressed_view(txs[x].tags@[k])
                        != compressed_view(txs[e].tags@[m])
            },
{
    let r = chosen_ordinary(txs, tx_ok, in_bloom, n);
    lemma_chosen_ordinary_shape(txs, tx_ok, in_bloom, n);
    assert forall|a: int| 0 <= a < r.len() implies {
        let x = #[trigger] r[a] as int;
        &&& x < n
        &&& tx_ok[x]
        &&& !(txs[x].inputs@.len() > 0 && txs[x].inputs@.last() == 0)
        &&& forall|k: int| 0 <= k < in_bloom[x].len() ==> !in_bloom[x][k]
        &&& forall|q: int, k: int|
            0 <= q < k < txs[x].tags@.len() ==> compressed_view(txs[x].tags@[k]) != compressed_view(txs[x].tags@[q])
        &&& forall|e: int, k: int, m: int|
            0 <= e < x && !(txs[e].inputs@.len() > 0 && txs[e].inputs@.last() == 0) && 0 <= k < txs[x].tags@.len()
                && 0 <= m < txs[e].tags@.len() ==> compressed_view(txs[x].tags@[k]) != compressed_view(
                txs[e].tags@[m],
            )
    } by {
        let x = r[a] as int;
        assert(non_ring(txs, x) && !tag_clash(txs, x) && !bloom_hit(in_bloom, x) && !double_tag(txs[x]));
        assert forall|e: int, k: int, m: int|
            0 <= e < x && !(txs[e].inputs@.len() > 0 && txs[e].inputs@.last() == 0) && 0 <= k < txs[x].tags@.len()
                && 0 <= m < txs[e].tags@.len() implies compressed_view(txs[x].tags@[k]) != compressed_view(
            txs[e].tags@[m],
        ) by {
            assert(non_ring(txs, e));
            assert(!tags_meet_spec(txs[x], txs[e]));
        }
    }
}

/// The 8-byte little-endian words of the inputs (a trailing remainder ignored).
fn input_words(inputs: &Vec<u8>) -> (w: Vec<u64>)
    ensures
        w@ == words(inputs@),
{
    let len: usize = inputs.len();
    let count: usize = len / 8;
    let mut w: Vec<u64> = Vec::new();
    let mut i: usize = 0;
    proof {
        lemma_pow256_values();
    }
    while i < count
        invariant
            i <= count,
            len == inputs@.len(),
            count == inputs@.len() / 8,
            crate::codec::pow256(8) == 0x1_0000_0000_0000_0000,
            w@ == words(inputs@).take(i as int),
        decreases count - i,
    {
        assert(8 * i + 8 <= inputs@.len()) by (nonlinear_arith)
            requires
                i < count,
                count == inputs@.len() / 8,
        ;
        proof {
            lemma_le_decode_bound(inputs@.subrange(8 * i, 8 * i + 8));
        }
        let x = le_value(inputs.as_slice(), 8 * i, 8) as u64;
        w.push(x);
        proof {
            assert(w@ =~= words(inputs@).take(i + 1));
        }
        i = i + 1;
    }
    assert(w@ =~= words(inputs@));
    w
}

fn ends_with(inputs: &Vec<u8>, b: u8) -> (r: bool)
    ensures
        r == ends_in(inputs@, b),
{
    inputs.len() > 0 && inputs[inputs.len() - 1] == b
}

fn same32(a: &[u8; 32], b: &[u8; 32]) -> (r: bool)
    ensures
        r == (a@ == b@),
{
    let mut i: usize = 0;
    while i < 32
        invariant
            i <= 32,
            a@.len() == 32,
            b@.len() == 32,
            forall|k: int| 0 <= k < i ==> a@[k] == b@[k],
        decreases 32 - i,
    {
        if a[i] != b[i] {
            return false;
        }
        i = i + 1;
    }
    assert(a@ =~= b@);
    true
}

/// Whether some tag of `x` equals some tag of `y`.
fn tags_meet<A, S>(x: &PolynomialTransaction<A, S>, y: &PolynomialTransaction<A, S>) -> (r: bool)
    ensures
        r == tags_meet_spec(*x, *y),
{
    let mut k: usize = 0;
    while k < x.tags.len()
        invariant
            k <= x.tags@.len(),
            forall|a: int, q: int|
                0 <= a < k && 0 <= q < y.tags@.len() ==> compressed_view(#[trigger] x.tags@[a])
                    != compressed_view(#[trigger] y.tags@[q]),
        decreases x.tags@.len() - k,
    {
        let xb = compressed_bytes(&x.tags[k]);
        let mut q: usize = 0;
        while q < y.tags.len()
            invariant
                k < x.tags@.len(),
                q <= y.tags@.len(),
                xb@ == compressed_view(x.tags@[k as int]),
                forall|a: int, c: int|
                    0 <= a < k && 0 <= c < y.tags@.len() ==> compressed_view(#[trigger] x.tags@[a])
                        != compressed_view(#[trigger] y.tags@[c]),
                forall|c: int| 0 <= c < q ==> compressed_view(x.tags@[k as int]) != compressed_view(#[trigger] y.tags@[c]),
            decreases y.tags@.len() - q,
        {
            let yb = compressed_bytes(&y.tags[q]);
            if same32(&xb, &yb) {
                return true;
            }
            q = q + 1;
        }
        k = k + 1;
    }
    false
}

/// Whether `x` spends one tag twice.
fn has_double_tag<A, S>(x: &PolynomialTransaction<A, S>) -> (r: bool)
    ensures
        r == double_tag(*x),
{
    let mut k: usize = 0;
    while k < x.tags.len()
        invariant
            k <= x.tags@.len(),
            forall|a: int, q: int|
                0 <= q < a < k ==> compressed_view(#[trigger] x.tags@[a]) != compressed_view(#[trigger] x.tags@[q]),
        decreases x.tags@.len() - k,
    {
        let xb = compressed_bytes(&x.tags[k]);
        let mut q: usize = 0;
        while q < k
            invariant
                k < x.tags@.len(),
                q <= k,
                xb@ == compressed_view(x.tags@[k as int]),
                forall|a: int, c: int|
                    0 <= c < a < k ==> compressed_view(#[trigger] x.tags@[a]) != compressed_view(#[trigger] x.tags@[c]),
                forall|c: int| 0 <= c < q ==> compressed_view(x.tags@[k as int]) != compressed_view(#[trigger] x.tags@[c]),
            decreases k - q,
        {
            let yb = compressed_bytes(&x.tags[q]);
            if same32(&xb, &yb) {
                return true;
            }
            q = q + 1;
        }
        k = k + 1;
    }
    false
}

/// Whether some stake word of `x` is a stake word of `y`.
fn words_meet(x: &Vec<u64>, y: &Vec<u64>) -> (r: bool)
    ensures
        r == words_meet_spec(x@, y@),
{
    let mut k: usize = 0;
    while k < x.len()
        invariant
            k <= x@.len(),
            forall|a: int, q: int| 0 <= a < k && 0 <= q < y@.len() ==> #[trigger] x@[a] != #[trigger] y@[q],
        decreases x@.len() - k,
    {
        let mut q: usize = 0;
        while q < y.len()
            invariant
                k < x@.len(),
                q <= y@.len(),
                forall|a: int, c: int| 0 <= a < k && 0 <= c < y@.len() ==> #[trigger] x@[a] != #[trigger] y@[c],
                forall|c: int| 0 <= c < q ==> x@[k as int] != #[trigger] y@[c],
            decreases y@.len() - q,
        {
            if x[k] == y[q] {
                assert(x@[k as int] == y@[q as int]);
                return true;
            }
            q = q + 1;
        }
        k = k + 1;
    }
    false
}

/// Chooses the transactions of a shard's block, by index into `txs`: first the
/// ordinary transactions (inputs not ending in 0) that spend no tag an earlier
/// such transaction spends, no tag the spent-tag filter holds, and no tag twice,
/// and whose signature check passed (`tx_ok`); then the staker transactions
/// (inputs ending in 1) whose stake check passed (`stake_ok`) and that spend no
/// stake word an earlier such transaction spends. The filter's answers are those
/// of `bloom.contains` on each tag, whose digests are returned, by transaction and
/// tag.
pub fn choose_block_txs<A, S>(
    txs: &Vec<PolynomialTransaction<A, S>>,
    stake_ok: &Vec<bool>,
    tx_ok: &Vec<bool>,
    bloom: &BloomFile,
    filter: &Vec<u8>,
) -> (r: (Vec<usize>, Vec<Vec<Vec<KeyedDigest>>>))
    requires
        stake_ok@.len() == txs@.len(),
        tx_ok@.len() == txs@.len(),
        filter@.len() == FILE_BYTES,
    ensures
        tag_digests(txs@, bloom.keys(), r.1@, txs@.len() as int),
        r.0@ == chosen_ordinary(txs@, tx_ok@, answers_of(filter@, r.1@), txs@.len()) + chosen_stakes(
            txs@,
            stake_ok@,
            txs@.len(),
        ),
        forall|a: int, b: int, k: int, m: int|
            0 <= a < b < chosen_ordinary(txs@, tx_ok@, answers_of(filter@, r.1@), txs@.len()).len() && 0 <= k
                < txs@[r.0@[b] as int].tags@.len() && 0 <= m < txs@[r.0@[a] as int].tags@.len() ==> compressed_view(
                #[trigger] txs@[r.0@[b] as int].tags@[k],
            ) != compressed_view(#[trigger] txs@[r.0@[a] as int].tags@[m]),
{
    let n = txs.len();
    let mut ordinary: Vec<usize> = Vec::new();
    let mut dss: Vec<Vec<Vec<KeyedDigest>>> = Vec::new();
    let ghost mut in_bloom: Seq<Seq<bool>> = Seq::empty();
    let mut i: usize = 0;
    while i < n
        invariant
            n == txs@.len(),
            i <= n,
            tx_ok@.len() == n,
            filter@.len() == FILE_BYTES,
            tag_digests(txs@, bloom.keys(), dss@, i as int),
            in_bloom =~= answers_of(filter@, dss@),
            ordinary@ == chosen_ordinary(txs@, tx_ok@, in_bloom, i as nat),
        decreases n - i,
    {
        let x = &txs[i];
        let mut answers: Vec<bool> = Vec::new();
        let mut tds: Vec<Vec<KeyedDigest>> = Vec::new();
        let mut k: usize = 0;
        while k < x.tags.len()
            invariant
                k <= x.tags@.len(),
                filter@.len() == FILE_BYTES,
                answers@.len() == k,
                tds@.len() == k,
                *x == txs@[i as int],
                i < txs@.len(),
                forall|q: int|
                    0 <= q < k ==> item_digests(bloom.keys(), compressed_view(x.tags@[q]), (#[trigger] tds@[q])@)
                        && answers@[q] == all_bits_set(filter@, digest_values(tds@[q]@)),
            decreases x.tags@.len() - k,
        {
            let tb = compressed_bytes(&x.tags[k]);
            let (hit, ds) = bloom.contains(filter, &tb);
            answers.push(hit);
            tds.push(ds);
            k = k + 1;
        }
        let mut any_hit = false;
        let mut q: usize = 0;
        while q < answers.len()
            invariant
                q <= answers@.len(),
                any_hit == exists|c: int| 0 <= c < q && #[trigger] answers@[c],
            decreases answers@.len() - q,
        {
            if answers[q] {
                any_hit = true;
            }
            q = q + 1;
        }
        let mut clash = false;
        let mut e: usize = 0;
        while e < i
            invariant
                e <= i,
                i < n,
                n == txs@.len(),
                *x == txs@[i as int],
                clash == exists|f: int| 0 <= f < e && non_ring(txs@, f) && #[trigger] tags_meet_spec(txs@[i as int], txs@[f]),
            decreases i - e,
        {
            if !ends_with(&txs[e].inputs, 0) && tags_meet(x, &txs[e]) {
                clash = true;
            }
            e = e + 1;
        }
        let double = has_double_tag(x);
        let ghost prev = in_bloom;
        let ghost prev_dss = dss@;
        dss.push(tds);
        proof {
            in_bloom = in_bloom.push(answers@);
            assert forall|a: int| 0 <= a < i implies #[trigger] dss@[a] == prev_dss[a] by {}
            assert(answers_of(filter@, dss@)[i as int] =~= answers@);
            assert(in_bloom =~= answers_of(filter@, dss@)) by {
                assert forall|a: int| 0 <= a < i + 1 implies #[trigger] in_bloom[a] =~= answers_of(filter@, dss@)[a] by {
                    if a < i {
                        assert(in_bloom[a] == prev[a]);
                        assert(prev[a] =~= answers_of(filter@, prev_dss)[a]);
                    }
                }
            }
            lemma_chosen_ordinary_prefix(txs@, tx_ok@, prev, in_bloom, i as nat);
            assert(in_bloom[i as int] == answers@);
            assert(bloom_hit(in_bloom, i as int) == any_hit) by {
                if any_hit {
                    let c = choose|c: int| 0 <= c < answers@.len() && #[trigger] answers@[c];
                    assert(in_bloom[i as int][c]);
                }
                if bloom_hit(in_bloom, i as int) {
                    let c = choose|c: int| 0 <= c < in_bloom[i as int].len() && #[trigger] in_bloom[i as int][c];
                    assert(answers@[c]);
                }
            }
        }
        if !ends_with(&x.inputs, 0) && !clash && !any_hit && !double && tx_ok[i] {
            ordinary.push(i);
        }
        i = i + 1;
    }
    let mut stakes: Vec<usize> = Vec::new();
    let mut j: usize = 0;
    while j < n
        invariant
            n == txs@.len(),
            j <= n,
            stake_ok@.len() == n,
            stakes@ == chosen_stakes(txs@, stake_ok@, j as nat),
        decreases n - j,
    {
        let x = &txs[j];
        if ends_with(&x.inputs, 1) && stake_ok[j] {
            let wj = input_words(&x.inputs);
            let mut clash = false;
            let mut e: usize = 0;
            while e < j
                invariant
                    e <= j,
                    j < n,
                    n == txs@.len(),
                    stake_ok@.len() == n,
                    wj@ == words(txs@[j as int].inputs@),
                    clash == exists|f: int| 0 <= f < e && stake_candidate(txs@, stake_ok@, f) && #[trigger] words_meet_spec(
                        words(txs@[j as int].inputs@),
                        words(txs@[f].inputs@),
                    ),
                decreases j - e,
            {
                if ends_with(&txs[e].inputs, 1) && stake_ok[e] {
                    let we = input_words(&txs[e].inputs);
                    if words_meet(&wj, &we) {
                        clash = true;
                    }
                }
                e = e + 1;
            }
            if !clash {
                stakes.push(j);
            }
        }
        j = j + 1;
    }
    let ghost ord = ordinary@;
    ordinary.append(&mut stakes);
    assert(ordinary@ == chosen_ordinary(txs@, tx_ok@, in_bloom, txs@.len()) + chosen_stakes(txs@, stake_ok@, txs@.len()));
    proof {
        let co = chosen_ordinary(txs@, tx_ok@, answers_of(filter@, dss@), txs@.len());
        law_chosen_transactions_share_no_tag(txs@, tx_ok@, answers_of(filter@, dss@), txs@.len());
        assert forall|a: int, b: int, k: int, m: int|
            0 <= a < b < co.len() && 0 <= k < txs@[ordinary@[b] as int].tags@.len() && 0 <= m
                < txs@[ordinary@[a] as int].tags@.len() implies compressed_view(
            #[trigger] txs@[ordinary@[b] as int].tags@[k],
        ) != compressed_view(#[trigger] txs@[ordinary@[a] as int].tags@[m]) by {
            assert(ordinary@[a] == co[a] && ordinary@[b] == co[b]);
        }
    }
    (ordinary, dss)
}

/// The choice among the first `a` transactions reads only their filter answers.
proof fn lemma_chosen_ordinary_prefix<A, S>(
    txs: Seq<PolynomialTransaction<A, S>>,
    tx_ok: Seq<bool>,
    b1: Seq<Seq<bool>>,
    b2: Seq<Seq<bool>>,
    a: nat,
)
    requires
        a <= b1.len(),
        a <= b2.len(),
        forall|j: int| 0 <= j < a ==> b1[j] == b2[j],
    ensures
        chosen_ordinary(txs, tx_ok, b1, a) == chosen_ordinary(txs, tx_ok, b2, a),
    decreases a,
{
    if a > 0 {
        lemma_chosen_ordinary_prefix(txs, tx_ok, b1, b2, (a - 1) as nat);
        assert(bloom_hit(b1, a - 1) == bloom_hit(b2, a - 1));
    }
}

} // verus!

verus! {

/// Pending transaction `i` is kept: a staker's transaction (inputs ending in 1)
/// when its stake check passed, any other when no tag of it is in the filter and
/// its check passed.
pub open spec fn pending_kept<A, S>(
    txs: Seq<PolynomialTransaction<A, S>>,
    stake_ok: Seq<bool>,
    tx_ok: Seq<bool>,
    in_bloom: Seq<Seq<bool>>,
    i: int,
) -> bool {
    if ends_in(txs[i].inputs@, 1) {
        stake_ok[i]
    } else {
        !bloom_hit(in_bloom, i) && tx_ok[i]
    }
}

/// The indices of the pending transactions kept among the first `n`, in order.
pub open spec fn kept_pending<A, S>(
    txs: Seq<PolynomialTransaction<A, S>>,
    stake_ok: Seq<bool>,
    tx_ok: Seq<bool>,
    in_bloom: Seq<Seq<bool>>,
    n: nat,
) -> Seq<usize>
    decreases n,
{
    if n == 0 {
        Seq::empty()
    } else {
        let rest = kept_pending(txs, stake_ok, tx_ok, in_bloom, (n - 1) as nat);
        if pending_kept(txs, stake_ok, tx_ok, in_bloom, n - 1) {
            rest.push((n - 1) as usize)
        } else {
            rest
        }
    }
}

/// Which pending transactions a node keeps after a block, by index: staker
/// transactions whose stake check passed (`stake_ok`), and the others whose
/// check passed (`tx_ok`) and none of whose tags the spent-tag filter holds. The
/// filter's answers are those of `bloom.contains` on each tag of the ordinary
/// transactions, whose digests are returned (none for staker transactions).
pub fn keep_pending<A, S>(
    txs: &Vec<PolynomialTransaction<A, S>>,
    stake_ok: &Vec<bool>,
    tx_ok: &Vec<bool>,
    bloom: &BloomFile,
    filter: &Vec<u8>,
) -> (r: (Vec<usize>, Vec<Vec<Vec<KeyedDigest>>>))
    requires
        stake_ok@.len() == txs@.len(),
        tx_ok@.len() == txs@.len(),
        filter@.len() == FILE_BYTES,
    ensures
        r.1@.len() == txs@.len(),
        forall|i: int|
            0 <= i < txs@.len() ==> (#[trigger] r.1@[i])@.len() == (if ends_in(txs@[i].inputs@, 1) {
                0
            } else {
                txs@[i].tags@.len()
            }),
        forall|i: int, k: int|
            0 <= i < txs@.len() && 0 <= k < r.1@[i]@.len() ==> item_digests(
                bloom.keys(),
                compressed_view(txs@[i].tags@[k]),
                (#[trigger] r.1@[i]@[k])@,
            ),
        r.0@ == kept_pending(txs@, stake_ok@, tx_ok@, answers_of(filter@, r.1@), txs@.len()),
{
    let n = txs.len();
    let mut kept: Vec<usize> = Vec::new();
    let mut dss: Vec<Vec<Vec<KeyedDigest>>> = Vec::new();
    let mut i: usize = 0;
    while i < n
        invariant
            n == txs@.len(),
            i <= n,
            stake_ok@.len() == n,
            tx_ok@.len() == n,
            filter@.len() == FILE_BYTES,
            dss@.len() == i,
            forall|a: int|
                0 <= a < i ==> (#[trigger] dss@[a])@.len() == (if ends_in(txs@[a].inputs@, 1) {
                    0
                } else {
                    txs@[a].tags@.len()
                }),
            forall|a: int, k: int|
                0 <= a < i && 0 <= k < dss@[a]@.len() ==> item_digests(
                    bloom.keys(),
                    compressed_view(txs@[a].tags@[k]),
                    (#[trigger] dss@[a]@[k])@,
                ),
            forall|a: int| 0 <= a < i ==> #[trigger] answers_of(filter@, dss@)[a] == answers_of(
                filter@,
                dss@.take(i as int),
            )[a],
            kept@ == kept_pending(txs@, stake_ok@, tx_ok@, answers_of(filter@, dss@), i as nat),
        decreases n - i,
    {
        let x = &txs[i];
        let mut tds: Vec<Vec<KeyedDigest>> = Vec::new();
        let mut hit = false;
        let staker = ends_with(&x.inputs, 1);
        if !staker {
            let mut k: usize = 0;
            while k < x.tags.len()
                invariant
                    k <= x.tags@.len(),
                    filter@.len() == FILE_BYTES,
                    tds@.len() == k,
                    *x == txs@[i as int],
                    i < txs@.len(),
                    forall|q: int|
                        0 <= q < k ==> item_digests(bloom.keys(), compressed_view(x.tags@[q]), (#[trigger] tds@[q])@),
                    hit == exists|q: int| 0 <= q < k && all_bits_set(filter@, digest_values(#[trigger] tds@[q]@)),
                decreases x.tags@.len() - k,
            {
                let tb = compressed_bytes(&x.tags[k]);
                let (h, ds) = bloom.contains(filter, &tb);
                let ghost before = tds@;
                let ghost old_hit = hit;
                tds.push(ds);
                if h {
                    hit = true;
                }
                proof {
                    assert forall|q: int| 0 <= q < k implies #[trigger] tds@[q] == before[q] by {}
                    assert(h == all_bits_set(filter@, digest_values(tds@[k as int]@)));
                    if hit {
                        if h {
                            assert(all_bits_set(filter@, digest_values(tds@[k as int]@)));
                        } else {
                            let q = choose|q: int| 0 <= q < k && all_bits_set(filter@, digest_values(#[trigger] before[q]@));
                            assert(tds@[q] == before[q]);
                            assert(all_bits_set(filter@, digest_values(tds@[q]@)));
                        }
                    } else {
                        assert forall|q: int| 0 <= q < k + 1 implies !all_bits_set(filter@, digest_values(#[trigger] tds@[q]@)) by {
                            if q < k {
                                assert(tds@[q] == before[q]);
                                assert(!all_bits_set(filter@, digest_values(before[q]@)));
                            }
                        }
                    }
                }
                k = k + 1;
            }
        }
        let keep = if staker { stake_ok[i] } else { !hit && tx_ok[i] };
        let ghost prev = dss@;
        dss.push(tds);
        proof {
            let ans = answers_of(filter@, dss@);
            assert(dss@.take(i as int) =~= prev);
            assert forall|a: int| 0 <= a < i + 1 implies #[trigger] answers_of(filter@, dss@)[a] == answers_of(
                filter@,
                dss@.take(i + 1),
            )[a] by {
                assert(dss@.take(i + 1) =~= dss@);
            }
            assert forall|a: int| 0 <= a < i implies #[trigger] ans[a] == answers_of(filter@, prev)[a] by {
                assert(dss@[a] == prev[a]);
            }
            lemma_kept_pending_prefix(txs@, stake_ok@, tx_ok@, answers_of(filter@, prev), ans, i as nat);
            assert(bloom_hit(ans, i as int) == hit) by {
                if hit {
                    let q = choose|q: int| 0 <= q < tds@.len() && all_bits_set(filter@, digest_values(#[trigger] tds@[q]@));
                    assert(ans[i as int][q]);
                }
                if bloom_hit(ans, i as int) {
                    let q = choose|q: int| 0 <= q < ans[i as int].len() && #[trigger] ans[i as int][q];
                    assert(all_bits_set(filter@, digest_values(tds@[q]@)));
                }
            }
        }
        if keep {
            kept.push(i);
        }
        i = i + 1;
    }
    (kept, dss)
}

/// The kept pending transactions among the first `a` read only their answers.
proof fn lemma_kept_pending_prefix<A, S>(
    txs: Seq<PolynomialTransaction<A, S>>,
    stake_ok: Seq<bool>,
    tx_ok: Seq<bool>,
    b1: Seq<Seq<bool>>,
    b2: Seq<Seq<bool>>,
    a: nat,
)
    requires
        forall|k: int| 0 <= k < a ==> #[trigger] b1[k] == b2[k],
    ensures
        kept_pending(txs, stake_ok, tx_ok, b1, a) == kept_pending(txs, stake_ok, tx_ok, b2, a),
    decreases a,
{
    if a > 0 {
        lemma_kept_pending_prefix(txs, stake_ok, tx_ok, b1, b2, (a - 1) as nat);
        assert(b1[a - 1] == b2[a - 1]);
    }
}

} // verus!
