//! What the shielded pool remembers from epoch to epoch: the normed
//! inflation of the native token, and the asset types of the rewarded
//! tokens with their places in the conversion tree. The state is updated
//! once an epoch and staged with the block that opens the epoch.

use crate::bytes::{append_bytes, clone_bytes, sub_bytes, suffix_bytes};
use crate::conversions::{
    clamped_inflation, denom_byte, distributed, masp_rewards, native_reward, token_reward,
    DenomAssets, Distributed, MaspDenom, MaspRewards, RewardedToken,
};
use crate::encoding::{decode_u64, encode_u64, lemma_u64_bytes, u64_bytes};
use crate::error::Error;
use crate::gas::gas_of;
use crate::image::{
    image, law_image_round_trip, parse_image, read_image, sizes_fit, write_image, Entries,
};
use crate::key::Key;
use crate::ordered::{lemma_listing, listing, seq_to_map, sorted, OrderedMap};
use crate::storage::{visible, Storage};
use crate::store::{pairs_view, ByteStore};
use crate::write_log::ModificationView;
use vstd::bytes::spec_u64_from_le_bytes;
use vstd::prelude::*;

verus! {

/// What the pool remembers of one asset type.
#[derive(Debug)]
pub struct AssetInfo {
    /// The token that the asset type is of, as the ledger names it.
    pub token: Vec<u8>,
    pub denom: MaspDenom,
    /// The epoch that the asset type belongs to.
    pub epoch: u64,
    /// The place of the asset's conversion among the leaves of the tree.
    pub position: u64,
}

pub struct AssetInfoView {
    pub token: Seq<u8>,
    pub denom: MaspDenom,
    pub epoch: u64,
    pub position: u64,
}

impl View for AssetInfo {
    type V = AssetInfoView;

    open spec fn view(&self) -> AssetInfoView {
        AssetInfoView {
            token: self.token@,
            denom: self.denom,
            epoch: self.epoch,
            position: self.position,
        }
    }
}

/// The assets in ascending order of their asset types.
pub type Assets = Seq<(Seq<u8>, AssetInfoView)>;

pub type AssetMap = Map<Seq<u8>, AssetInfoView>;

/// What the shielded pool remembers of its rewards from epoch to epoch.
pub struct ConversionState {
    /// The last amount of the native token distributed.
    pub normed_inflation: Option<u128>,
    /// The assets by their asset types.
    pub assets: OrderedMap<AssetInfo>,
}

pub struct ConversionView {
    pub normed_inflation: Option<u128>,
    pub assets: Assets,
}

impl View for ConversionState {
    type V = ConversionView;

    open spec fn view(&self) -> ConversionView {
        ConversionView { normed_inflation: self.normed_inflation, assets: self.assets() }
    }
}

/// The tokens of one kind, native or not, in their order.
pub open spec fn only(tokens: Seq<RewardedToken>, native: bool) -> Seq<RewardedToken>
    decreases tokens.len(),
{
    if tokens.len() == 0 {
        tokens
    } else if tokens.last().is_native == native {
        only(tokens.drop_last(), native).push(tokens.last())
    } else {
        only(tokens.drop_last(), native)
    }
}

/// The order in which the tokens are rewarded: the native tokens in their
/// order, then the others in theirs.
pub open spec fn native_first_order(tokens: Seq<RewardedToken>) -> Seq<RewardedToken> {
    only(tokens, true) + only(tokens, false)
}

/// Where a distribution starts from: the normed inflation that the state
/// remembers, or one where it remembers none, and nothing minted.
pub open spec fn starting_from(state: ConversionState) -> Distributed {
    Distributed {
        normed_inflation: match state.normed_inflation {
            Some(n) => n,
            None => 1,
        },
        total_reward: 0,
    }
}

pub open spec fn info_of(token: Seq<u8>, denom: MaspDenom, epoch: u64, position: u64) -> AssetInfoView {
    AssetInfoView { token, denom, epoch, position }
}

/// The assets with the four asset types of a token entered.
pub open spec fn with_token(
    m: AssetMap,
    token: Seq<u8>,
    assets: DenomAssets,
    epoch: u64,
    position: u64,
) -> AssetMap {
    m.insert(assets.zero@, info_of(token, MaspDenom::Zero, epoch, position)).insert(
        assets.one@,
        info_of(token, MaspDenom::One, epoch, position),
    ).insert(assets.two@, info_of(token, MaspDenom::Two, epoch, position)).insert(
        assets.three@,
        info_of(token, MaspDenom::Three, epoch, position),
    )
}

/// The asset types of a token: those of the current epoch, or those of
/// the epoch before.
pub open spec fn assets_of(t: RewardedToken, current: bool) -> DenomAssets {
    if current {
        t.new_assets
    } else {
        t.old_assets
    }
}

/// The assets with the asset types of the tokens entered, token by token.
pub open spec fn with_tokens(
    m: AssetMap,
    tokens: Seq<RewardedToken>,
    current: bool,
    epoch: u64,
    position: u64,
) -> AssetMap
    decreases tokens.len(),
{
    if tokens.len() == 0 {
        m
    } else {
        with_token(
            with_tokens(m, tokens.drop_last(), current, epoch, position),
            tokens.last().token@,
            assets_of(tokens.last(), current),
            epoch,
            position,
        )
    }
}

/// The assets, each with its rank in the order of asset types as its
/// position.
pub open spec fn ranked(assets: Assets) -> Assets {
    Seq::new(
        assets.len(),
        |i: int| (assets[i].0, AssetInfoView { position: i as u64, ..assets[i].1 }),
    )
}

/// The assets after an update. The asset types that the tokens had in the
/// epoch before are entered with that epoch; then every asset gets its
/// rank as its position, which is the place of its conversion among the
/// leaves of the tree; then the asset types of the current epoch are
/// entered with the place behind the last leaf.
pub open spec fn updated_assets(
    assets: Assets,
    tokens: Seq<RewardedToken>,
    last_epoch: u64,
    epoch: u64,
) -> AssetMap {
    let leaves = ranked(listing(with_tokens(seq_to_map(assets), tokens, false, last_epoch, 0)));
    with_tokens(seq_to_map(leaves), tokens, true, epoch, leaves.len() as u64)
}

/// The tokens of one kind are of that kind, and every token of that kind
/// is among them.
pub proof fn lemma_only(tokens: Seq<RewardedToken>, native: bool)
    ensures
        forall|i: int|
            0 <= i < only(tokens, native).len() ==> (#[trigger] only(tokens, native)[i]).is_native
                == native,
        forall|i: int|
            0 <= i < tokens.len() && (#[trigger] tokens[i]).is_native == native ==> only(
                tokens,
                native,
            ).contains(tokens[i]),
        only(tokens, true).len() + only(tokens, false).len() == tokens.len(),
    decreases tokens.len(),
{
    if tokens.len() > 0 {
        let front = tokens.drop_last();
        lemma_only(front, native);
        lemma_only(front, !native);
        let all = only(tokens, native);
        assert forall|i: int|
            0 <= i < tokens.len() && (#[trigger] tokens[i]).is_native == native implies all.contains(
            tokens[i],
        ) by {
            if i < tokens.len() - 1 {
                assert(front[i] == tokens[i]);
                let j = choose|j: int| 0 <= j < only(front, native).len() && only(front, native)[j]
                    == front[i];
                assert(all[j] == tokens[i]);
            } else {
                assert(all[all.len() - 1] == tokens[i]);
            }
        }
    }
}

/// In the order in which the tokens are rewarded every token has its
/// place, and no native token stands behind a token that is not native.
pub proof fn law_native_first(tokens: Seq<RewardedToken>)
    ensures
        native_first_order(tokens).len() == tokens.len(),
        forall|i: int|
            0 <= i < tokens.len() ==> native_first_order(tokens).contains(#[trigger] tokens[i]),
        forall|i: int, j: int|
            0 <= i < j < native_first_order(tokens).len() && (#[trigger] native_first_order(
                tokens,
            )[j]).is_native ==> (#[trigger] native_first_order(tokens)[i]).is_native,
{
    lemma_only(tokens, true);
    lemma_only(tokens, false);
    let natives = only(tokens, true);
    let others = only(tokens, false);
    let ordered = native_first_order(tokens);
    assert forall|i: int| 0 <= i < tokens.len() implies ordered.contains(#[trigger] tokens[i]) by {
        if tokens[i].is_native {
            let j = choose|j: int| 0 <= j < natives.len() && natives[j] == tokens[i];
            assert(ordered[j] == tokens[i]);
        } else {
            let j = choose|j: int| 0 <= j < others.len() && others[j] == tokens[i];
            assert(ordered[natives.len() + j] == tokens[i]);
        }
    }
    assert forall|i: int, j: int|
        0 <= i < j < ordered.len() && (#[trigger] ordered[j]).is_native implies (
        #[trigger] ordered[i]).is_native by {
        if j >= natives.len() {
            assert(ordered[j] == others[j - natives.len()]);
        }
        assert(ordered[i] == natives[i]);
    }
}

pub proof fn lemma_only_add(a: Seq<RewardedToken>, b: Seq<RewardedToken>, native: bool)
    ensures
        only(a + b, native) == only(a, native) + only(b, native),
    decreases b.len(),
{
    if b.len() == 0 {
        assert(a + b =~= a);
        assert(only(a, native) + only(b, native) =~= only(a, native));
    } else {
        lemma_only_add(a, b.drop_last(), native);
        assert((a + b).drop_last() =~= a + b.drop_last());
        assert((a + b).last() == b.last());
        if b.last().is_native == native {
            assert(only(a, native) + only(b.drop_last(), native).push(b.last()) =~= (only(
                a,
                native,
            ) + only(b.drop_last(), native)).push(b.last()));
        }
    }
}

/// A distribution over two lists is the one over the second, started from
/// where the one over the first ended.
pub proof fn lemma_distributed_add(start: Distributed, a: Seq<RewardedToken>, b: Seq<RewardedToken>)
    ensures
        distributed(start, a + b) == (match distributed(start, a) {
            Some(d) => distributed(d, b),
            None => None,
        }),
    decreases b.len(),
{
    if b.len() == 0 {
        assert(a + b =~= a);
    } else {
        lemma_distributed_add(start, a, b.drop_last());
        assert((a + b).drop_last() =~= a + b.drop_last());
        assert((a + b).last() == b.last());
    }
}

pub proof fn lemma_with_tokens_add(
    m: AssetMap,
    a: Seq<RewardedToken>,
    b: Seq<RewardedToken>,
    current: bool,
    epoch: u64,
    position: u64,
)
    ensures
        with_tokens(m, a + b, current, epoch, position) == with_tokens(
            with_tokens(m, a, current, epoch, position),
            b,
            current,
            epoch,
            position,
        ),
    decreases b.len(),
{
    if b.len() == 0 {
        assert(a + b =~= a);
    } else {
        lemma_with_tokens_add(m, a, b.drop_last(), current, epoch, position);
        assert((a + b).drop_last() =~= a + b.drop_last());
        assert((a + b).last() == b.last());
    }
}

/// Distributes the rewards of the tokens of one kind, in their order.
fn distribute_kind(start: Distributed, tokens: &Vec<RewardedToken>, native: bool) -> (r: Option<
    Distributed,
>)
    ensures
        r == distributed(start, only(tokens@, native)),
{
    let mut normed_inflation = start.normed_inflation;
    let mut total_reward = start.total_reward;
    let mut i: usize = 0;
    proof {
        assert(tokens@.subrange(0, 0) =~= Seq::<RewardedToken>::empty());
    }
    while i < tokens.len()
        invariant
            i <= tokens.len(),
            distributed(start, only(tokens@.subrange(0, i as int), native)) == Some(
                Distributed { normed_inflation, total_reward },
            ),
        decreases tokens.len() - i,
    {
        let ghost seen = only(tokens@.subrange(0, i as int), native);
        proof {
            assert(tokens@.subrange(0, i + 1).drop_last() =~= tokens@.subrange(0, i as int));
            assert(tokens@.subrange(0, i + 1).last() == tokens@[i as int]);
            assert(seen.push(tokens@[i as int]).drop_last() =~= seen);
            assert(tokens@ =~= tokens@.subrange(0, i + 1) + tokens@.subrange(
                i + 1,
                tokens@.len() as int,
            ));
            lemma_only_add(
                tokens@.subrange(0, i + 1),
                tokens@.subrange(i + 1, tokens@.len() as int),
                native,
            );
            lemma_distributed_add(
                start,
                only(tokens@.subrange(0, i + 1), native),
                only(tokens@.subrange(i + 1, tokens@.len() as int), native),
            );
        }
        let t = &tokens[i];
        if t.is_native == native {
            let minted = if t.is_native {
                match native_reward(normed_inflation, t.reward, t.precision, t.balance) {
                    Some(n) => {
                        match total_reward.checked_add(n.minted) {
                            Some(v) => {
                                normed_inflation = n.new_normed_inflation;
                                Some(v)
                            },
                            None => None,
                        }
                    },
                    None => None,
                }
            } else {
                match token_reward(normed_inflation, t.reward, t.precision, t.balance) {
                    Some(x) => total_reward.checked_add(x.minted),
                    None => None,
                }
            };
            match minted {
                Some(v) => {
                    total_reward = v;
                },
                None => {
                    return None;
                },
            }
        }
        i += 1;
    }
    proof {
        assert(tokens@.subrange(0, tokens@.len() as int) =~= tokens@);
    }
    Some(Distributed { normed_inflation, total_reward })
}

fn enter(assets: &mut OrderedMap<AssetInfo>, asset: &[u8; 32], token: &[u8], denom: MaspDenom, epoch: u64, position: u64)
    requires
        old(assets).wf(),
    ensures
        final(assets).wf(),
        final(assets)@ == old(assets)@.insert(asset@, info_of(token@, denom, epoch, position)),
{
    assets.insert(
        clone_bytes(asset),
        AssetInfo { token: clone_bytes(token), denom, epoch, position },
    );
}

/// Enters the asset types of the tokens of one kind, in their order.
fn enter_kind(
    assets: &mut OrderedMap<AssetInfo>,
    tokens: &Vec<RewardedToken>,
    native: bool,
    current: bool,
    epoch: u64,
    position: u64,
)
    requires
        old(assets).wf(),
    ensures
        final(assets).wf(),
        final(assets)@ == with_tokens(old(assets)@, only(tokens@, native), current, epoch, position),
{
    let mut i: usize = 0;
    proof {
        assert(tokens@.subrange(0, 0) =~= Seq::<RewardedToken>::empty());
    }
    while i < tokens.len()
        invariant
            i <= tokens.len(),
            assets.wf(),
            assets@ == with_tokens(
                old(assets)@,
                only(tokens@.subrange(0, i as int), native),
                current,
                epoch,
                position,
            ),
        decreases tokens.len() - i,
    {
        let ghost seen = only(tokens@.subrange(0, i as int), native);
        proof {
            assert(tokens@.subrange(0, i + 1).drop_last() =~= tokens@.subrange(0, i as int));
            assert(tokens@.subrange(0, i + 1).last() == tokens@[i as int]);
            assert(seen.push(tokens@[i as int]).drop_last() =~= seen);
        }
        let t = &tokens[i];
        if t.is_native == native {
            let a = if current {
                t.new_assets
            } else {
                t.old_assets
            };
            enter(assets, &a.zero, t.token.as_slice(), MaspDenom::Zero, epoch, position);
            enter(assets, &a.one, t.token.as_slice(), MaspDenom::One, epoch, position);
            enter(assets, &a.two, t.token.as_slice(), MaspDenom::Two, epoch, position);
            enter(assets, &a.three, t.token.as_slice(), MaspDenom::Three, epoch, position);
        }
        i += 1;
    }
    proof {
        assert(tokens@.subrange(0, tokens@.len() as int) =~= tokens@);
    }
}

/// Gives every asset its rank as its position.
fn rank(assets: &OrderedMap<AssetInfo>) -> (r: OrderedMap<AssetInfo>)
    requires
        assets.wf(),
    ensures
        r.wf(),
        r.pairs() == ranked(assets.pairs()),
{
    let n = assets.len();
    let ghost goal = ranked(assets.pairs());
    let mut out: Vec<(Vec<u8>, AssetInfo)> = Vec::new();
    let mut i: usize = 0;
    while i < n
        invariant
            i <= n,
            n == assets.pairs().len(),
            goal == ranked(assets.pairs()),
            out@.len() == i,
            forall|j: int| 0 <= j < i ==> (#[trigger] out@[j]).0@ == goal[j].0 && out@[j].1@ == goal[j].1,
        decreases n - i,
    {
        let info = assets.value_at(i);
        out.push(
            (
                clone_bytes(assets.key_at(i).as_slice()),
                AssetInfo {
                    token: clone_bytes(info.token.as_slice()),
                    denom: info.denom,
                    epoch: info.epoch,
                    position: i as u64,
                },
            ),
        );
        i += 1;
    }
    proof {
        let made = Seq::new(out@.len(), |j: int| (out@[j].0@, out@[j].1@));
        assert(made =~= goal);
        assert forall|a: int, b: int| 0 <= a < b < goal.len() implies crate::bytes::lex_lt(
            #[trigger] goal[a].0,
            #[trigger] goal[b].0,
        ) by {
            assert(crate::bytes::lex_lt(assets.pairs()[a].0, assets.pairs()[b].0));
        }
    }
    OrderedMap::from_sorted(out)
}

/// The lower and the upper half of a 128-bit integer.
pub open spec fn halves(n: u128) -> (u64, u64) {
    ((n & 0xffff_ffff_ffff_ffff) as u64, (n >> 64) as u64)
}

/// The 128-bit integer with the given halves.
pub open spec fn joined(low: u64, high: u64) -> u128 {
    ((high as u128) << 64) | (low as u128)
}

proof fn lemma_halves(n: u128)
    ensures
        joined(halves(n).0, halves(n).1) == n,
{
    assert((((n >> 64) as u64) as u128) << 64 | (((n & 0xffff_ffff_ffff_ffff) as u64) as u128) == n)
        by (bit_vector);
}

proof fn lemma_joined(low: u64, high: u64)
    ensures
        halves(joined(low, high)) == (low, high),
{
    assert(((((high as u128) << 64) | (low as u128)) & 0xffff_ffff_ffff_ffff) as u64 == low)
        by (bit_vector);
    assert(((((high as u128) << 64) | (low as u128)) >> 64) as u64 == high) by (bit_vector);
}

/// The bytes of the normed inflation: a zero byte where none is
/// remembered, else a one and its sixteen bytes, lowest first.
pub open spec fn normed_bytes(normed_inflation: Option<u128>) -> Seq<u8> {
    match normed_inflation {
        None => seq![0u8],
        Some(n) => seq![1u8] + u64_bytes(halves(n).0) + u64_bytes(halves(n).1),
    }
}

/// The bytes of what is remembered of an asset: the denomination, the
/// epoch, the position, and the token.
pub open spec fn info_bytes(info: AssetInfoView) -> Seq<u8> {
    seq![denom_byte(info.denom)] + u64_bytes(info.epoch) + u64_bytes(info.position) + info.token
}

pub open spec fn denom_of(b: u8) -> MaspDenom {
    if b == 0 {
        MaspDenom::Zero
    } else if b == 1 {
        MaspDenom::One
    } else if b == 2 {
        MaspDenom::Two
    } else {
        MaspDenom::Three
    }
}

/// What the bytes say of an asset, if they say it.
pub open spec fn parse_info(b: Seq<u8>) -> Option<AssetInfoView> {
    if b.len() >= 17 && b[0] <= 3 {
        Some(
            AssetInfoView {
                token: b.subrange(17, b.len() as int),
                denom: denom_of(b[0]),
                epoch: spec_u64_from_le_bytes(b.subrange(1, 9)),
                position: spec_u64_from_le_bytes(b.subrange(9, 17)),
            },
        )
    } else {
        None
    }
}

/// The assets as entries of an image: each asset type with the bytes of
/// what is remembered of it.
pub open spec fn asset_entries(assets: Assets) -> Entries {
    Seq::new(assets.len(), |i: int| (assets[i].0, info_bytes(assets[i].1)))
}

/// The bytes that a conversion state is stored as: the normed inflation,
/// then the image of the assets.
pub open spec fn view_bytes(v: ConversionView) -> Seq<u8> {
    normed_bytes(v.normed_inflation) + image(asset_entries(v.assets))
}

/// The bytes that a conversion state is stored as.
pub open spec fn state_bytes(state: ConversionState) -> Seq<u8> {
    view_bytes(state@)
}

/// Every entry says something of an asset.
pub open spec fn infos_ok(entries: Entries) -> bool {
    forall|i: int| 0 <= i < entries.len() ==> parse_info((#[trigger] entries[i]).1) is Some
}

/// The assets that the entries of an image stand for.
pub open spec fn parsed_assets(entries: Entries) -> Assets {
    Seq::new(entries.len(), |i: int| (entries[i].0, parse_info(entries[i].1)->Some_0))
}

/// The normed inflation at the head of the bytes, with what follows it.
pub open spec fn parse_normed(b: Seq<u8>) -> Option<(Option<u128>, Seq<u8>)> {
    if b.len() >= 1 && b[0] == 0 {
        Some((None, b.subrange(1, b.len() as int)))
    } else if b.len() >= 17 && b[0] == 1 {
        Some(
            (
                Some(
                    joined(
                        spec_u64_from_le_bytes(b.subrange(1, 9)),
                        spec_u64_from_le_bytes(b.subrange(9, 17)),
                    ),
                ),
                b.subrange(17, b.len() as int),
            ),
        )
    } else {
        None
    }
}

/// The conversion state that the bytes stand for, if they stand for one:
/// the assets must be whole, in ascending order, and each readable.
pub open spec fn parse_state(b: Seq<u8>) -> Option<ConversionView> {
    match parse_normed(b) {
        Some((normed_inflation, rest)) => match parse_image(rest) {
            Some(entries) => if sorted(entries) && infos_ok(entries) {
                Some(ConversionView { normed_inflation, assets: parsed_assets(entries) })
            } else {
                None
            },
            None => None,
        },
        None => None,
    }
}

proof fn lemma_parse_info(info: AssetInfoView)
    ensures
        parse_info(info_bytes(info)) == Some(info),
{
    let b = info_bytes(info);
    lemma_u64_bytes(info.epoch);
    lemma_u64_bytes(info.position);
    assert(b.subrange(1, 9) =~= u64_bytes(info.epoch));
    assert(b.subrange(9, 17) =~= u64_bytes(info.position));
    assert(b.subrange(17, b.len() as int) =~= info.token);
    assert(b[0] == denom_byte(info.denom));
}

/// A state that is stored and read back is the same state.
pub proof fn law_state_round_trip(v: ConversionView)
    requires
        sorted(v.assets),
        sizes_fit(asset_entries(v.assets)),
    ensures
        parse_state(view_bytes(v)) == Some(v),
{
    let entries = asset_entries(v.assets);
    let img = image(entries);
    let b = view_bytes(v);
    law_image_round_trip(entries);
    match v.normed_inflation {
        None => {
            assert(b.subrange(1, b.len() as int) =~= img);
        },
        Some(n) => {
            lemma_u64_bytes(halves(n).0);
            lemma_u64_bytes(halves(n).1);
            lemma_halves(n);
            assert(b.subrange(1, 9) =~= u64_bytes(halves(n).0));
            assert(b.subrange(9, 17) =~= u64_bytes(halves(n).1));
            assert(b.subrange(17, b.len() as int) =~= img);
            assert(b[0] == 1);
        },
    }
    assert(sorted(entries)) by {
        assert forall|i: int, j: int| 0 <= i < j < entries.len() implies crate::bytes::lex_lt(
            #[trigger] entries[i].0,
            #[trigger] entries[j].0,
        ) by {
            assert(crate::bytes::lex_lt(v.assets[i].0, v.assets[j].0));
        }
    }
    assert forall|i: int| 0 <= i < entries.len() implies parse_info((#[trigger] entries[i]).1)
        == Some(v.assets[i].1) by {
        lemma_parse_info(v.assets[i].1);
    }
    assert(parsed_assets(entries) =~= v.assets);
}

fn denom_tag(denom: MaspDenom) -> (r: u8)
    ensures
        r == denom_byte(denom),
{
    match denom {
        MaspDenom::Zero => 0,
        MaspDenom::One => 1,
        MaspDenom::Two => 2,
        MaspDenom::Three => 3,
    }
}

impl ConversionState {
    /// The assets in ascending order of their asset types.
    pub open spec fn assets(&self) -> Assets {
        self.assets.pairs()
    }

    pub open spec fn wf(&self) -> bool {
        self.assets.wf()
    }

    /// A state that remembers the given normed inflation and no asset.
    pub fn new(normed_inflation: Option<u128>) -> (r: Self)
        ensures
            r.wf(),
            r@ == (ConversionView { normed_inflation, assets: Seq::empty() }),
    {
        ConversionState { normed_inflation, assets: OrderedMap::new() }
    }

    /// The number of assets that the state remembers.
    pub fn assets_len(&self) -> (n: usize)
        ensures
            n == self.assets().len(),
    {
        self.assets.len()
    }

    /// The asset type at a rank.
    pub fn asset_type_at(&self, i: usize) -> (k: &Vec<u8>)
        requires
            i < self.assets().len(),
        ensures
            k@ == self.assets()[i as int].0,
    {
        self.assets.key_at(i)
    }

    /// What is remembered of the asset at a rank.
    pub fn asset_at(&self, i: usize) -> (info: &AssetInfo)
        requires
            i < self.assets().len(),
        ensures
            info@ == self.assets()[i as int].1,
    {
        self.assets.value_at(i)
    }

    /// What is remembered of an asset type, if anything.
    pub fn asset(&self, asset_type: &[u8]) -> (r: Option<&AssetInfo>)
        requires
            self.wf(),
        ensures
            match r {
                Some(info) => seq_to_map(self.assets()).contains_key(asset_type@) && seq_to_map(
                    self.assets(),
                )[asset_type@] == info@,
                None => !seq_to_map(self.assets()).contains_key(asset_type@),
            },
    {
        self.assets.get(asset_type)
    }

    /// The bytes that the state is stored as.
    pub fn encode(&self) -> (r: Vec<u8>)
        requires
            self.wf(),
        ensures
            r@ == state_bytes(*self),
            parse_state(r@) == Some(self@),
    {
        let mut r: Vec<u8> = Vec::new();
        match self.normed_inflation {
            None => {
                r.push(0);
                assert(r@ =~= normed_bytes(self.normed_inflation));
            },
            Some(n) => {
                r.push(1);
                let low = (n & 0xffff_ffff_ffff_ffff) as u64;
                let high = (n >> 64) as u64;
                append_bytes(&mut r, encode_u64(low).as_slice());
                append_bytes(&mut r, encode_u64(high).as_slice());
                assert(r@ =~= normed_bytes(self.normed_inflation));
            },
        }
        let n = self.assets.len();
        let ghost goal = asset_entries(self.assets());
        let mut entries: Vec<(Vec<u8>, Vec<u8>)> = Vec::new();
        let mut i: usize = 0;
        while i < n
            invariant
                i <= n,
                n == self.assets().len(),
                goal == asset_entries(self.assets()),
                entries@.len() == i,
                forall|j: int| 0 <= j < i ==> (#[trigger] entries@[j]).0@ == goal[j].0
                    && entries@[j].1@ == goal[j].1,
            decreases n - i,
        {
            let info = self.assets.value_at(i);
            let mut b: Vec<u8> = Vec::new();
            b.push(denom_tag(info.denom));
            append_bytes(&mut b, encode_u64(info.epoch).as_slice());
            append_bytes(&mut b, encode_u64(info.position).as_slice());
            append_bytes(&mut b, info.token.as_slice());
            assert(b@ =~= info_bytes(self.assets()[i as int].1));
            entries.push((clone_bytes(self.assets.key_at(i).as_slice()), b));
            i += 1;
        }
        proof {
            assert(pairs_view(entries@) =~= goal);
            assert forall|j: int| 0 <= j < goal.len() implies (#[trigger] goal[j]).0.len()
                <= u64::MAX && goal[j].1.len() <= u64::MAX by {
                assert(goal[j].0 == entries@[j].0@);
                assert(goal[j].1 == entries@[j].1@);
                assert(entries@[j].0.len() <= usize::MAX);
                assert(entries@[j].1.len() <= usize::MAX);
            }
            law_state_round_trip(self@);
        }
        let img = write_image(&entries);
        append_bytes(&mut r, img.as_slice());
        r
    }

    /// The state that the bytes stand for, if they stand for one.
    pub fn decode(bytes: &[u8]) -> (r: Option<ConversionState>)
        ensures
            match r {
                Some(state) => state.wf() && parse_state(bytes@) == Some(state@),
                None => parse_state(bytes@) is None,
            },
    {
        let n = bytes.len();
        let (normed_inflation, from) = if n >= 1 && bytes[0] == 0 {
            (None, 1usize)
        } else if n >= 17 && bytes[0] == 1 {
            let low = match decode_u64(sub_bytes(bytes, 1, 9).as_slice()) {
                Some(v) => v,
                None => {
                    return None;
                },
            };
            let high = match decode_u64(sub_bytes(bytes, 9, 17).as_slice()) {
                Some(v) => v,
                None => {
                    return None;
                },
            };
            proof {
                lemma_u64_bytes(low);
                lemma_u64_bytes(high);
            }
            (Some(((high as u128) << 64) | (low as u128)), 17usize)
        } else {
            return None;
        };
        let rest = suffix_bytes(bytes, from);
        assert(parse_normed(bytes@) == Some((normed_inflation, rest@)));
        let entries = match read_image(rest.as_slice()) {
            Some(e) => e,
            None => {
                return None;
            },
        };
        let ghost parsed = pairs_view(entries@);
        let m = entries.len();
        let mut out: Vec<(Vec<u8>, AssetInfo)> = Vec::new();
        let mut i: usize = 0;
        while i < m
            invariant
                i <= m,
                m == entries@.len(),
                parsed == pairs_view(entries@),
                parse_normed(bytes@) == Some((normed_inflation, rest@)),
                parse_image(rest@) == Some(parsed),
                sorted(parsed),
                out@.len() == i,
                forall|j: int| 0 <= j < i ==> parse_info((#[trigger] parsed[j]).1) is Some,
                forall|j: int|
                    0 <= j < i ==> (#[trigger] out@[j]).0@ == parsed[j].0 && Some(out@[j].1@)
                        == parse_info(parsed[j].1),
            decreases m - i,
        {
            let b = &entries[i].1;
            assert(parsed[i as int] == (entries@[i as int].0@, b@));
            if b.len() < 17 || b[0] > 3 {
                assert(parse_info(parsed[i as int].1) is None);
                return None;
            }
            let epoch = match decode_u64(sub_bytes(b.as_slice(), 1, 9).as_slice()) {
                Some(v) => v,
                None => {
                    return None;
                },
            };
            let position = match decode_u64(sub_bytes(b.as_slice(), 9, 17).as_slice()) {
                Some(v) => v,
                None => {
                    return None;
                },
            };
            proof {
                lemma_u64_bytes(epoch);
                lemma_u64_bytes(position);
            }
            let denom = if b[0] == 0 {
                MaspDenom::Zero
            } else if b[0] == 1 {
                MaspDenom::One
            } else if b[0] == 2 {
                MaspDenom::Two
            } else {
                MaspDenom::Three
            };
            out.push(
                (
                    clone_bytes(entries[i].0.as_slice()),
                    AssetInfo { token: suffix_bytes(b.as_slice(), 17), denom, epoch, position },
                ),
            );
            i += 1;
        }
        proof {
            let made = Seq::new(out@.len(), |j: int| (out@[j].0@, out@[j].1@));
            assert(made =~= parsed_assets(parsed));
            assert forall|a: int, b: int| 0 <= a < b < made.len() implies crate::bytes::lex_lt(
                #[trigger] made[a].0,
                #[trigger] made[b].0,
            ) by {
                assert(crate::bytes::lex_lt(parsed[a].0, parsed[b].0));
            }
        }
        Some(ConversionState { normed_inflation, assets: OrderedMap::from_sorted(out) })
    }
}

/// The 256-bit form of an amount: 32 bytes, lowest first.
pub open spec fn amount_bytes(n: u128) -> Seq<u8> {
    u64_bytes(halves(n).0) + u64_bytes(halves(n).1) + Seq::new(16, |i: int| 0u8)
}

/// The rewards of a token for the epoch, from the inflation and the
/// locked ratio that the controller has set, the amount of the token in
/// the pool, and the factor between its units and those of the native
/// token. The inflation to remember is staged under `last_inflation_key`
/// and the locked ratio, as it is handed in, under
/// `last_locked_ratio_key`.
pub fn calculate_masp_rewards<S: ByteStore>(
    storage: &mut Storage<S>,
    last_inflation_key: &Key,
    last_locked_ratio_key: &Key,
    inflation: u64,
    locked_ratio: &[u8],
    total_token_in_masp: u64,
    denomination_offset: u64,
) -> (r: MaspRewards)
    requires
        old(storage).wf(),
    ensures
        final(storage).wf(),
        final(storage).db() == old(storage).db(),
        final(storage).leaves() == old(storage).leaves(),
        final(storage).block() == old(storage).block(),
        final(storage).done() == old(storage).done(),
        final(storage).setup() == old(storage).setup(),
        final(storage).promoted() == old(storage).promoted(),
        r.reward == clamped_inflation(inflation, total_token_in_masp),
        r.precision == 100 * denomination_offset,
        r.last_inflation == (clamped_inflation(inflation, total_token_in_masp) / 100)
            * total_token_in_masp,
        final(storage).log() == old(storage).log().insert(
            last_inflation_key@,
            ModificationView::Write { value: amount_bytes(r.last_inflation) },
        ).insert(last_locked_ratio_key@, ModificationView::Write { value: locked_ratio@ }),
{
    let r = masp_rewards(inflation, total_token_in_masp, denomination_offset);
    let low = (r.last_inflation & 0xffff_ffff_ffff_ffff) as u64;
    let high = (r.last_inflation >> 64) as u64;
    let mut amount = encode_u64(low);
    append_bytes(&mut amount, encode_u64(high).as_slice());
    let mut i: usize = 0;
    while i < 16
        invariant
            i <= 16,
            amount@ == u64_bytes(low) + u64_bytes(high) + Seq::new(i as nat, |j: int| 0u8),
        decreases 16 - i,
    {
        amount.push(0);
        assert(amount@ =~= u64_bytes(low) + u64_bytes(high) + Seq::new(
            (i + 1) as nat,
            |j: int| 0u8,
        ));
        i += 1;
    }
    // What is remembered must match the rate that is returned: the next
    // update of the conversions goes by it.
    let _ = storage.write(last_inflation_key, amount);
    let _ = storage.write(last_locked_ratio_key, clone_bytes(locked_ratio));
    r
}

/// Update the MASP's allowed conversions for the epoch that the open block
/// begins. The rewards are distributed token by token, the native token
/// first, because the rewards of the others depend on it: the native
/// token grows the normed inflation, and every token adds to what is
/// minted for the pool. The asset types of the tokens are entered and
/// ranked; the state is staged under `state_key`, to be committed with the
/// block. Returns the total to mint; `None`, with nothing changed, where
/// a step of the distribution is more than a `u128` can hold.
pub fn update_allowed_conversions<S: ByteStore>(
    storage: &mut Storage<S>,
    state: &mut ConversionState,
    state_key: &Key,
    tokens: &Vec<RewardedToken>,
) -> (r: Option<u128>)
    requires
        old(storage).wf(),
        old(state).wf(),
    ensures
        final(storage).wf(),
        final(state).wf(),
        final(storage).db() == old(storage).db(),
        final(storage).leaves() == old(storage).leaves(),
        final(storage).block() == old(storage).block(),
        final(storage).done() == old(storage).done(),
        final(storage).setup() == old(storage).setup(),
        final(storage).promoted() == old(storage).promoted(),
        match distributed(starting_from(*old(state)), native_first_order(tokens@)) {
            Some(d) => r == Some(d.total_reward) && final(state).normed_inflation == (
            if tokens@.len() == 0 {
                old(state).normed_inflation
            } else {
                Some(d.normed_inflation)
            }) && seq_to_map(final(state).assets()) == updated_assets(
                old(state).assets(),
                native_first_order(tokens@),
                old(storage).done().last_epoch,
                old(storage).block().epoch,
            ) && final(storage).log() == old(storage).log().insert(
                state_key@,
                ModificationView::Write { value: state_bytes(*final(state)) },
            ),
            None => r is None && *final(state) == *old(state) && final(storage).log() == old(
                storage,
            ).log(),
        },
{
    // The inflation of the native token is counted from one.
    let ref_inflation: u128 = 1;
    let start = Distributed {
        normed_inflation: match state.normed_inflation {
            Some(n) => n,
            None => ref_inflation,
        },
        total_reward: 0,
    };
    proof {
        lemma_distributed_add(start, only(tokens@, true), only(tokens@, false));
    }
    // The native tokens come first: the others are rewarded by the normed
    // inflation that the native ones leave.
    let natives = match distribute_kind(start, tokens, true) {
        Some(d) => d,
        None => {
            return None;
        },
    };
    let all = match distribute_kind(natives, tokens, false) {
        Some(d) => d,
        None => {
            return None;
        },
    };
    let last_epoch = storage.get_committed().last_epoch;
    let epoch = storage.get_current_epoch();
    let ghost before = state.assets@;
    proof {
        lemma_with_tokens_add(
            before,
            only(tokens@, true),
            only(tokens@, false),
            false,
            last_epoch,
            0,
        );
    }
    // The asset types of the epoch before get a conversion of their own.
    enter_kind(&mut state.assets, tokens, true, false, last_epoch, 0);
    enter_kind(&mut state.assets, tokens, false, false, last_epoch, 0);
    proof {
        lemma_listing(state.assets.pairs());
    }
    // Every conversion gets the position of its leaf.
    let leaves = rank(&state.assets);
    let size = leaves.len() as u64;
    proof {
        lemma_with_tokens_add(
            leaves@,
            only(tokens@, true),
            only(tokens@, false),
            true,
            epoch,
            size,
        );
    }
    state.assets = leaves;
    // The asset types of the epoch that begins have no conversion yet:
    // they are entered with the position behind the last leaf.
    enter_kind(&mut state.assets, tokens, true, true, epoch, size);
    enter_kind(&mut state.assets, tokens, false, true, epoch, size);
    if tokens.len() > 0 {
        // Save the new normed inflation
        state.normed_inflation = Some(all.normed_inflation);
    }
    // The state is committed with the block, so that the next epoch
    // starts from it.
    let _ = save_conversion_state(storage, state_key, state);
    Some(all.total_reward)
}

/// Stages the conversion state under `key`, so that it is committed with
/// the block. Costs the length of the key and of the stored bytes.
pub fn save_conversion_state<S: ByteStore>(
    storage: &mut Storage<S>,
    key: &Key,
    state: &ConversionState,
) -> (r: Result<u64, Error>)
    requires
        old(storage).wf(),
        state.wf(),
    ensures
        final(storage).wf(),
        final(storage).db() == old(storage).db(),
        final(storage).leaves() == old(storage).leaves(),
        final(storage).block() == old(storage).block(),
        final(storage).done() == old(storage).done(),
        final(storage).setup() == old(storage).setup(),
        final(storage).promoted() == old(storage).promoted(),
        final(storage).log() == old(storage).log().insert(
            key@,
            ModificationView::Write { value: state_bytes(*state) },
        ),
        r == Ok::<u64, Error>(gas_of(key@.len() + state_bytes(*state).len())),
{
    storage.write(key, state.encode())
}

/// The conversion state that is stored under `key`: `Ok(None)` where
/// nothing is stored there, a decode error where what is stored there is
/// no conversion state.
pub fn load_conversion_state<S: ByteStore>(storage: &Storage<S>, key: &Key) -> (r: Result<
    Option<ConversionState>,
    Error,
>)
    requires
        storage.wf(),
    ensures
        match r {
            Ok(Some(state)) => state.wf() && (visible(storage.db(), storage.log(), key@) matches Some(
                b,
            ) && parse_state(b) == Some(state@)),
            Ok(None) => visible(storage.db(), storage.log(), key@) is None,
            Err(e) => e == Error::DecodeError && (visible(storage.db(), storage.log(), key@) matches Some(
                b,
            ) && parse_state(b) is None),
        },
{
    match storage.read(key) {
        Ok((Some(bytes), _)) => match ConversionState::decode(bytes.as_slice()) {
            Some(state) => Ok(Some(state)),
            None => Err(Error::DecodeError),
        },
        Ok((None, _)) => Ok(None),
        Err(e) => Err(e),
    }
}

} // verus!
