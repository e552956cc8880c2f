//! The arithmetic of the shielded pool's rewards, and the bytes from which
//! the asset types of its tokens are derived.

use crate::bytes::append_bytes;
use crate::digest::Digest;
use crate::encoding::{encode_u64, u64_bytes};
use crate::key::Key;
use vstd::prelude::*;

verus! {

/// Ten to the power of `n`.
pub open spec fn pow10(n: nat) -> nat
    decreases n,
{
    if n == 0 {
        1
    } else {
        10 * pow10((n - 1) as nat)
    }
}

proof fn lemma_pow10_grows(n: nat, m: nat)
    requires
        n <= m,
    ensures
        pow10(n) <= pow10(m),
        pow10(n) >= 1,
    decreases m,
{
    if n < m {
        lemma_pow10_grows(n, (m - 1) as nat);
    } else if n > 0 {
        lemma_pow10_grows((n - 1) as nat, (n - 1) as nat);
    }
}

proof fn lemma_pow10_19()
    ensures
        pow10(19) == 10_000_000_000_000_000_000nat,
        pow10(20) > u64::MAX,
{
    reveal_with_fuel(pow10, 21);
}

/// The factor between the units of a token and those of the native
/// token: ten to the power of the difference of their denominations.
/// `None` where the token's denomination is the smaller one, and where the
/// factor is more than a `u64` can hold.
pub fn denomination_offset(denomination: u8, denomination_base: u8) -> (r: Option<u64>)
    ensures
        match r {
            Some(offset) => denomination_base <= denomination && offset == pow10(
                (denomination - denomination_base) as nat,
            ),
            None => denomination < denomination_base || pow10(
                (denomination - denomination_base) as nat,
            ) > u64::MAX,
        },
{
    if denomination < denomination_base {
        return None;
    }
    let exponent = denomination - denomination_base;
    if exponent > 19 {
        proof {
            lemma_pow10_19();
            lemma_pow10_grows(20, exponent as nat);
        }
        return None;
    }
    let mut offset: u64 = 1;
    let mut i: u8 = 0;
    while i < exponent
        invariant
            i <= exponent <= 19,
            offset == pow10(i as nat),
        decreases exponent - i,
    {
        proof {
            lemma_pow10_19();
            lemma_pow10_grows((i + 1) as nat, 19);
        }
        offset = offset * 10;
        i += 1;
    }
    Some(offset)
}

/// What the reward calculation of one token comes to.
#[derive(Clone, Copy, Debug, PartialEq, Eq, Structural)]
pub struct MaspRewards {
    /// The reward for every `precision` units of the token.
    pub reward: u128,
    /// The number of units that the reward is for.
    pub precision: u128,
    /// The inflation to remember for the next epoch.
    pub last_inflation: u128,
}

/// The inflation per hundred units of the token in the pool; zero for an
/// empty pool.
pub open spec fn noterized_inflation(inflation: u64, total_in_masp: u64) -> nat {
    if total_in_masp == 0 {
        0
    } else {
        ((100 * inflation) / (total_in_masp as int)) as nat
    }
}

/// The reward rate: the larger of the inflation per hundred units and the
/// largest signed 64-bit integer.
pub open spec fn clamped_inflation(inflation: u64, total_in_masp: u64) -> nat {
    if noterized_inflation(inflation, total_in_masp) >= i64::MAX {
        noterized_inflation(inflation, total_in_masp)
    } else {
        i64::MAX as nat
    }
}

/// The rewards of a token, from the inflation that the controller has
/// set, the amount of the token in the pool, and the factor between its
/// units and those of the native token.
pub fn masp_rewards(inflation: u64, total_token_in_masp: u64, denomination_offset: u64) -> (r:
    MaspRewards)
    ensures
        r.reward == clamped_inflation(inflation, total_token_in_masp),
        r.precision == 100 * denomination_offset,
        r.last_inflation == (clamped_inflation(inflation, total_token_in_masp) / 100)
            * total_token_in_masp,
{
    // inflation-per-token = inflation / locked tokens = n/100
    // ∴ n = (inflation * 100) / locked tokens
    let total_in: u128 = total_token_in_masp as u128;
    let noterized: u128 = if total_in == 0 {
        0
    } else {
        (100 * (inflation as u128)) / total_in
    };
    let bound: u128 = i64::MAX as u128;
    let clamped: u128 = if noterized >= bound {
        noterized
    } else {
        bound
    };
    assert(clamped / 100 <= u64::MAX) by {
        assert(noterized <= 100 * (inflation as u128));
    }
    assert((clamped / 100) * total_in <= u128::MAX) by (nonlinear_arith)
        requires
            clamped / 100 <= u64::MAX,
            total_in <= u64::MAX,
    ;
    MaspRewards {
        reward: clamped,
        precision: 100 * (denomination_offset as u128),
        last_inflation: (clamped / 100) * total_in,
    }
}

/// What rewarding the native token for one epoch comes to.
#[derive(Clone, Copy, Debug, PartialEq, Eq, Structural)]
pub struct NativeReward {
    /// What a unit of the token of the epoch before is worth now.
    pub new_normed_inflation: u128,
    /// What is to be minted for the balance of the pool.
    pub minted: u128,
}

/// What a unit of the native token of the epoch before is worth after
/// the reward.
pub open spec fn grown_inflation(normed_inflation: u128, reward: u128, precision: u128) -> int {
    normed_inflation + (normed_inflation * reward) / (precision as int)
}

/// The native token's reward: the normed inflation grows by the reward
/// rate, and the balance of the pool by the same factor. `None` where a
/// step is more than a `u128` can hold, and where the rate is for no
/// units at all.
pub open spec fn native_step(
    normed_inflation: u128,
    reward: u128,
    precision: u128,
    balance: u128,
) -> Option<NativeReward> {
    let grown = grown_inflation(normed_inflation, reward, precision);
    if precision == 0 || normed_inflation == 0 || normed_inflation * reward > u128::MAX || grown
        > u128::MAX || balance * grown > u128::MAX {
        None
    } else {
        Some(
            NativeReward {
                new_normed_inflation: grown as u128,
                minted: ((balance * grown) / (normed_inflation as int) - balance) as u128,
            },
        )
    }
}

/// The native token's reward.
pub fn native_reward(normed_inflation: u128, reward: u128, precision: u128, balance: u128) -> (r:
    Option<NativeReward>)
    ensures
        r == native_step(normed_inflation, reward, precision, balance),
        r matches Some(n) ==> (balance * n.new_normed_inflation) / (normed_inflation as int)
            >= balance,
{
    if precision == 0 || normed_inflation == 0 {
        return None;
    }
    let scaled = match normed_inflation.checked_mul(reward) {
        Some(v) => v,
        None => {
            return None;
        },
    };
    // The amount that will be given of the new native token for every
    // amount of the native token given in the previous epoch
    let new_normed_inflation = match normed_inflation.checked_add(scaled / precision) {
        Some(v) => v,
        None => {
            return None;
        },
    };
    let grown = match balance.checked_mul(new_normed_inflation) {
        Some(v) => v,
        None => {
            return None;
        },
    };
    assert(grown / normed_inflation >= balance) by (nonlinear_arith)
        requires
            grown == balance * new_normed_inflation,
            new_normed_inflation >= normed_inflation,
            normed_inflation > 0,
    ;
    Some(NativeReward { new_normed_inflation, minted: grown / normed_inflation - balance })
}

/// What rewarding another token for one epoch comes to.
#[derive(Clone, Copy, Debug, PartialEq, Eq, Structural)]
pub struct TokenReward {
    /// The reward in terms of the native token of the first epoch.
    pub real_reward: u128,
    /// What is to be minted for the balance of the pool.
    pub minted: u128,
}

/// The reward in terms of the native token of the first epoch.
pub open spec fn real_reward(reward: u128, normed_inflation: u128) -> int {
    (reward as int) / (normed_inflation as int)
}

/// Another token's reward, in terms of the native token of the first
/// epoch, and what it mints for the balance of the pool. `None` where a
/// step is more than a `u128` can hold, and where the rate is for no
/// units at all.
pub open spec fn token_step(
    normed_inflation: u128,
    reward: u128,
    precision: u128,
    balance: u128,
) -> Option<TokenReward> {
    let in_real_terms = real_reward(reward, normed_inflation);
    if precision == 0 || normed_inflation == 0 || balance * in_real_terms > u128::MAX || ((balance
        * in_real_terms) / (precision as int)) * normed_inflation > u128::MAX {
        None
    } else {
        Some(
            TokenReward {
                real_reward: in_real_terms as u128,
                minted: (((balance * in_real_terms) / (precision as int)) * normed_inflation) as u128,
            },
        )
    }
}

/// Another token's reward.
pub fn token_reward(normed_inflation: u128, reward: u128, precision: u128, balance: u128) -> (r:
    Option<TokenReward>)
    ensures
        r == token_step(normed_inflation, reward, precision, balance),
{
    if precision == 0 || normed_inflation == 0 {
        return None;
    }
    // Express the inflation reward in real terms, that is, with respect
    // to the native asset in the zeroth epoch
    let in_real_terms = reward / normed_inflation;
    let scaled = match balance.checked_mul(in_real_terms) {
        Some(v) => v,
        None => {
            return None;
        },
    };
    let minted = match (scaled / precision).checked_mul(normed_inflation) {
        Some(v) => v,
        None => {
            return None;
        },
    };
    Some(TokenReward { real_reward: in_real_terms, minted })
}

/// The asset types of a token in one epoch, one for each denomination.
#[derive(Clone, Copy, Debug)]
pub struct DenomAssets {
    pub zero: Digest,
    pub one: Digest,
    pub two: Digest,
    pub three: Digest,
}

/// A token that the shielded pool rewards, with what its reward
/// calculation came to and the balance that the pool holds of it.
#[derive(Debug)]
pub struct RewardedToken {
    /// The token as the ledger names it: its address and sub-prefix.
    pub token: Vec<u8>,
    pub is_native: bool,
    /// The reward for every `precision` units of the token.
    pub reward: u128,
    pub precision: u128,
    pub balance: u128,
    /// The asset types of the token in the epoch before.
    pub old_assets: DenomAssets,
    /// The asset types of the token in the current epoch.
    pub new_assets: DenomAssets,
}

/// How far the distribution of an epoch's rewards has come.
#[derive(Clone, Copy, Debug, PartialEq, Eq, Structural)]
pub struct Distributed {
    /// What a unit of the native token of the first epoch is worth.
    pub normed_inflation: u128,
    /// What is to be minted for the pool in all.
    pub total_reward: u128,
}

/// The distribution after one more token; `None` where a step is more
/// than a `u128` can hold.
pub open spec fn distribute_step(d: Distributed, t: RewardedToken) -> Option<Distributed> {
    if t.is_native {
        match native_step(d.normed_inflation, t.reward, t.precision, t.balance) {
            Some(n) => if d.total_reward + n.minted <= u128::MAX {
                Some(
                    Distributed {
                        normed_inflation: n.new_normed_inflation,
                        total_reward: (d.total_reward + n.minted) as u128,
                    },
                )
            } else {
                None
            },
            None => None,
        }
    } else {
        match token_step(d.normed_inflation, t.reward, t.precision, t.balance) {
            Some(x) => if d.total_reward + x.minted <= u128::MAX {
                Some(Distributed { total_reward: (d.total_reward + x.minted) as u128, ..d })
            } else {
                None
            },
            None => None,
        }
    }
}

/// The distribution after the tokens, one after the other.
pub open spec fn distributed(start: Distributed, tokens: Seq<RewardedToken>) -> Option<Distributed>
    decreases tokens.len(),
{
    if tokens.len() == 0 {
        Some(start)
    } else {
        match distributed(start, tokens.drop_last()) {
            Some(d) => distribute_step(d, tokens.last()),
            None => None,
        }
    }
}

/// How the leaves of the conversion tree are handed to the threads.
#[derive(Clone, Copy, Debug, PartialEq, Eq, Structural)]
pub struct NotesPerThread {
    /// The most leaves that a thread updates.
    pub max: usize,
    /// The fewest leaves that a thread updates.
    pub min: usize,
    /// The size of the subtrees that are built apart: a power of two.
    pub rounded: usize,
}

/// Two to the power of `n`.
pub open spec fn pow2(n: nat) -> nat
    decreases n,
{
    if n == 0 {
        1
    } else {
        2 * pow2((n - 1) as nat)
    }
}

/// Splits `assets` leaves among `num_threads` threads as evenly as can
/// be: the most and the fewest leaves of a thread, and the size of the
/// subtrees, which is the least power of two that is at least a quarter
/// of the most.
pub fn notes_per_thread(assets: usize, num_threads: usize) -> (r: NotesPerThread)
    requires
        assets > 0,
        num_threads > 0,
    ensures
        r.max == (assets - 1) / (num_threads as int) + 1,
        r.min == assets / num_threads,
        exists|n: nat| r.rounded == pow2(n),
        r.max <= r.rounded * 4,
        r.rounded == 1 || r.max > r.rounded * 2,
{
    // ceil(assets.len() / num_threads)
    let notes_per_thread_max = (assets - 1) / num_threads + 1;
    // floor(assets.len() / num_threads)
    let notes_per_thread_min = assets / num_threads;
    // Merkle trees must have exactly 2^n leaves to be mergeable
    let mut notes_per_thread_rounded: usize = 1;
    let ghost mut n: nat = 0;
    // the most is more than four times the size
    while (notes_per_thread_max - 1) / 4 >= notes_per_thread_rounded
        invariant
            notes_per_thread_max >= 1,
            notes_per_thread_rounded == pow2(n),
            notes_per_thread_rounded >= 1,
            notes_per_thread_rounded == 1 || notes_per_thread_max > notes_per_thread_rounded * 2,
        decreases notes_per_thread_max - notes_per_thread_rounded,
    {
        notes_per_thread_rounded = notes_per_thread_rounded * 2;
        proof {
            n = n + 1;
        }
    }
    NotesPerThread {
        max: notes_per_thread_max,
        min: notes_per_thread_min,
        rounded: notes_per_thread_rounded,
    }
}

/// Which of two reward tokens comes first: the native token goes before
/// every other one, and two tokens of one kind stay as they are.
#[derive(Clone, Copy, Debug, PartialEq, Eq, Structural)]
pub enum Order {
    Less,
    Equal,
    Greater,
}

/// The order in which rewards are computed: the native token first,
/// because the rewards of the others depend on it.
pub fn native_first(x_is_native: bool, y_is_native: bool) -> (r: Order)
    ensures
        r == (if x_is_native == y_is_native {
            Order::Equal
        } else if x_is_native {
            Order::Less
        } else {
            Order::Greater
        }),
{
    if x_is_native == y_is_native {
        Order::Equal
    } else if x_is_native {
        Order::Less
    } else {
        Order::Greater
    }
}

/// The four denominations that an amount of 256 bits is split into.
#[derive(Clone, Copy, Debug, PartialEq, Eq, Structural)]
pub enum MaspDenom {
    Zero,
    One,
    Two,
    Three,
}

pub open spec fn denom_byte(denom: MaspDenom) -> u8 {
    match denom {
        MaspDenom::Zero => 0,
        MaspDenom::One => 1,
        MaspDenom::Two => 2,
        MaspDenom::Three => 3,
    }
}

/// The four bytes that stand for a length, lowest first.
pub open spec fn u32_bytes(v: u32) -> Seq<u8> {
    seq![
        (v & 0xff) as u8,
        ((v >> 8) & 0xff) as u8,
        ((v >> 16) & 0xff) as u8,
        ((v >> 24) & 0xff) as u8,
    ]
}

/// The bytes that an asset type is derived from: the token's address as
/// it is serialized, the sub-prefix as a string with its length in front
/// (empty where there is none), the denomination and the epoch.
pub open spec fn asset_type_bytes(
    address: Seq<u8>,
    sub_prefix: Option<Seq<u8>>,
    denom: MaspDenom,
    epoch: u64,
) -> Seq<u8> {
    let sub = match sub_prefix {
        Some(s) => s,
        None => Seq::empty(),
    };
    address + u32_bytes(sub.len() as u32) + sub + seq![denom_byte(denom)] + u64_bytes(epoch)
}

pub open spec fn key_view(key: Option<Key>) -> Option<Seq<u8>> {
    match key {
        Some(k) => Some(k@),
        None => None,
    }
}

/// Construct the bytes of a MASP asset type with given epoch for given
/// token. `None` where the sub-prefix is longer than a 32-bit length can
/// say.
pub fn encode_asset_type(address: &[u8], sub_prefix: &Option<Key>, denom: MaspDenom, epoch: u64) -> (r:
    Option<Vec<u8>>)
    ensures
        match r {
            Some(bytes) => bytes@ == asset_type_bytes(address@, key_view(*sub_prefix), denom, epoch),
            None => sub_prefix matches Some(k) && k@.len() > u32::MAX,
        },
{
    let mut bytes: Vec<u8> = Vec::new();
    append_bytes(&mut bytes, address);
    let length: u32 = match sub_prefix {
        Some(k) => {
            if k.len() > 0xffff_ffff {
                return None;
            }
            k.len() as u32
        },
        None => 0,
    };
    bytes.push((length & 0xff) as u8);
    bytes.push(((length >> 8) & 0xff) as u8);
    bytes.push(((length >> 16) & 0xff) as u8);
    bytes.push(((length >> 24) & 0xff) as u8);
    match sub_prefix {
        Some(k) => {
            append_bytes(&mut bytes, k.as_bytes());
        },
        None => {},
    }
    let denom_tag: u8 = match denom {
        MaspDenom::Zero => 0,
        MaspDenom::One => 1,
        MaspDenom::Two => 2,
        MaspDenom::Three => 3,
    };
    bytes.push(denom_tag);
    let e = encode_u64(epoch);
    append_bytes(&mut bytes, e.as_slice());
    proof {
        assert(bytes@ =~= asset_type_bytes(address@, key_view(*sub_prefix), denom, epoch));
    }
    Some(bytes)
}

} // verus!
