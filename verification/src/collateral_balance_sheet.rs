//! The collateral balance sheet: each account's collateral, in the primary
//! asset and in secondary assets, in its cross-margin domain and in the
//! isolated domain of each market; the registered secondary assets with their
//! prices and haircuts; and the totals held by the sheet.
use vstd::prelude::*;
use crate::addr_map::{addr_eq, AddrMap};
use crate::i64_aggregator::{new_i64_aggregator, I64Aggregator};
use crate::math::{get_decimals_multiplier, new_precision, Precision};

verus! {

pub const EINSUFFICIENT_BALANCE: u64 = 1;

pub const EINVALID_AMOUNT: u64 = 2;

pub const ENOT_ADMIN: u64 = 4;

pub const EINVALID_HAIRCUT_BPS: u64 = 5;

pub const ECOLLATERAL_FUNGIBLE_ASSET_MISMATCH: u64 = 6;

pub const ECOLLATERAL_AMOUNT_IS_NOT_ZERO: u64 = 7;

/// A haircut of 100%.
pub const MAX_HAIRCUT_BPS: u64 = 10000;

/// The balance of one secondary asset.
#[derive(Clone, Copy, Debug)]
pub enum AssetBalance {
    V1 { asset_type: [u8; 32], balance: u64 },
}

/// The collateral of one balance: primary, secondary assets, and the amount
/// reserved.
#[derive(Debug)]
pub struct CollateralBalances {
    pub primary_balance: I64Aggregator,
    pub secondary_balances: Vec<AssetBalance>,
    pub reserved_amount: u64,
}

/// Where collateral sits: an account's cross-margin domain, or its isolated
/// domain in one market.
#[derive(Clone, Copy, Debug)]
pub enum CollateralBalanceType {
    Cross { account: [u8; 32] },
    Isolated { account: [u8; 32], market: [u8; 32] },
}

#[derive(Clone, Copy, Debug, PartialEq, Eq, Structural)]
pub enum CollateralBalanceChangeType {
    UserMovement,
    Fee,
    PnL,
    Margin,
    Liquidation,
}

/// A registered secondary asset: its value per unit in the primary asset,
/// its haircut in basis points, and its precision.
#[derive(Clone, Copy, Debug)]
pub struct SecondaryAssetInfo {
    pub value_in_primary_per_unit: u64,
    pub haircut_bps: u64,
    pub asset_precision: Precision,
}

/// A change of the reserved collateral of an account.
#[derive(Clone, Copy, Debug)]
pub struct ReservedCollateralChangedEvent {
    pub account: [u8; 32],
    pub previous_amount: u64,
    pub new_amount: u64,
}

/// The collateral of a balance, summed up: primary, secondary (valued in the
/// primary asset after haircuts), and reserved.
#[derive(Clone, Copy, Debug, PartialEq, Eq, Structural)]
pub enum CollateralStatus {
    V1 { primary: i64, secondary: u64, reserved: u64 },
}

/// An amount of an asset held by the sheet but by no account in it.
#[derive(Clone, Copy, Debug)]
pub struct CollateralFungibleAsset {
    pub metadata: [u8; 32],
    pub amount: u64,
}

impl CollateralStatus {
    pub fn get_primary_balance_from_status(&self) -> (r: i64)
        ensures
            r == self->primary,
    {
        match self {
            CollateralStatus::V1 { primary, .. } => *primary,
        }
    }

    pub fn get_secondary_balance_from_status(&self) -> (r: u64)
        ensures
            r == self->secondary,
    {
        match self {
            CollateralStatus::V1 { secondary, .. } => *secondary,
        }
    }

    /// Primary plus secondary collateral (the secondary value read as a
    /// signed number).
    pub fn get_total_balance_from_status(&self) -> (r: i64)
        requires
            i64::MIN <= self->primary + (self->secondary as i64) <= i64::MAX,
        ensures
            r == self->primary + (self->secondary as i64),
    {
        match self {
            CollateralStatus::V1 { primary, secondary, .. } => {
                *primary + (#[verifier::truncate] (*secondary as i64))
            },
        }
    }

    pub fn get_reserved_balance_from_status(&self) -> (r: u64)
        ensures
            r == self->reserved,
    {
        match self {
            CollateralStatus::V1 { reserved, .. } => *reserved,
        }
    }
}

/// The status of a balance with nothing in it.
pub fn empty_collateral_status() -> (r: CollateralStatus)
    ensures
        r == (CollateralStatus::V1 { primary: 0, secondary: 0, reserved: 0 }),
{
    CollateralStatus::V1 { primary: 0, secondary: 0, reserved: 0 }
}

impl CollateralFungibleAsset {
    /// No amount of an asset.
    pub fn zero(metadata: [u8; 32]) -> (r: Self)
        ensures
            r.metadata == metadata,
            r.amount == 0,
    {
        CollateralFungibleAsset { metadata, amount: 0 }
    }

    /// Splits `amount` off, where there is that much.
    pub fn extract(&mut self, amount: u64) -> (r: Result<CollateralFungibleAsset, u64>)
        ensures
            old(self).amount < amount ==> r == Err::<CollateralFungibleAsset, u64>(
                EINSUFFICIENT_BALANCE,
            ) && *final(self) == *old(self),
            old(self).amount >= amount ==> (r matches Ok(part) && part.metadata == old(
                self,
            ).metadata && part.amount == amount) && final(self).metadata == old(self).metadata
                && final(self).amount == old(self).amount - amount,
    {
        if self.amount < amount {
            return Err(EINSUFFICIENT_BALANCE);
        }
        self.amount = self.amount - amount;
        Ok(CollateralFungibleAsset { metadata: self.metadata, amount })
    }

    /// Adds an amount of the same asset.
    pub fn merge(&mut self, src: CollateralFungibleAsset) -> (r: Result<(), u64>)
        requires
            src.metadata == old(self).metadata ==> old(self).amount + src.amount <= u64::MAX,
        ensures
            src.metadata != old(self).metadata ==> r == Err::<(), u64>(
                ECOLLATERAL_FUNGIBLE_ASSET_MISMATCH,
            ) && *final(self) == *old(self),
            src.metadata == old(self).metadata ==> r is Ok && final(self).metadata == old(
                self,
            ).metadata && final(self).amount == old(self).amount + src.amount,
    {
        if !addr_eq(&src.metadata, &self.metadata) {
            return Err(ECOLLATERAL_FUNGIBLE_ASSET_MISMATCH);
        }
        self.amount = self.amount + src.amount;
        Ok(())
    }

    /// Disposes of an empty amount.
    pub fn destroy_zero(self) -> (r: Result<(), u64>)
        ensures
            r == (if self.amount != 0 {
                Err(ECOLLATERAL_AMOUNT_IS_NOT_ZERO)
            } else {
                Ok(())
            }),
    {
        if self.amount != 0 {
            return Err(ECOLLATERAL_AMOUNT_IS_NOT_ZERO);
        }
        Ok(())
    }

    pub fn amount(&self) -> (r: u64)
        ensures
            r == self.amount,
    {
        self.amount
    }
}

pub fn change_type_user_movement() -> (r: CollateralBalanceChangeType)
    ensures
        r == CollateralBalanceChangeType::UserMovement,
{
    CollateralBalanceChangeType::UserMovement
}

pub fn change_type_fee() -> (r: CollateralBalanceChangeType)
    ensures
        r == CollateralBalanceChangeType::Fee,
{
    CollateralBalanceChangeType::Fee
}

pub fn change_type_pnl() -> (r: CollateralBalanceChangeType)
    ensures
        r == CollateralBalanceChangeType::PnL,
{
    CollateralBalanceChangeType::PnL
}

pub fn change_type_margin() -> (r: CollateralBalanceChangeType)
    ensures
        r == CollateralBalanceChangeType::Margin,
{
    CollateralBalanceChangeType::Margin
}

pub fn change_type_liquidation() -> (r: CollateralBalanceChangeType)
    ensures
        r == CollateralBalanceChangeType::Liquidation,
{
    CollateralBalanceChangeType::Liquidation
}

pub fn balance_type_isolated(account: [u8; 32], market: [u8; 32]) -> (r: CollateralBalanceType)
    ensures
        r == (CollateralBalanceType::Isolated { account, market }),
{
    CollateralBalanceType::Isolated { account, market }
}

pub fn balance_type_cross(account: [u8; 32]) -> (r: CollateralBalanceType)
    ensures
        r == (CollateralBalanceType::Cross { account }),
{
    CollateralBalanceType::Cross { account }
}

/// The account a balance belongs to.
pub open spec fn balance_account(balance_type: CollateralBalanceType) -> [u8; 32] {
    match balance_type {
        CollateralBalanceType::Cross { account } => account,
        CollateralBalanceType::Isolated { account, .. } => account,
    }
}

pub fn get_account_from_balance_type(balance_type: &CollateralBalanceType) -> (r: [u8; 32])
    ensures
        r == balance_account(*balance_type),
{
    match balance_type {
        CollateralBalanceType::Cross { account } => *account,
        CollateralBalanceType::Isolated { account, .. } => *account,
    }
}

// ------------------------------------------------------------------
// Secondary balances of one balance.
// ------------------------------------------------------------------
/// The position of the first balance of `asset` (the length where there is
/// none).
pub open spec fn secondary_index(s: Seq<AssetBalance>, asset: [u8; 32]) -> nat
    decreases s.len(),
{
    if s.len() == 0 {
        0
    } else if s[0]->asset_type == asset {
        0
    } else {
        1 + secondary_index(s.drop_first(), asset)
    }
}

/// The balance of `asset` (zero where there is none).
pub open spec fn secondary_balance_of(s: Seq<AssetBalance>, asset: [u8; 32]) -> u64 {
    let i = secondary_index(s, asset);
    if i < s.len() {
        s[i as int]->balance
    } else {
        0
    }
}

/// The balances with the balance of `asset` set to `amount` (added at the
/// end where there is none).
pub open spec fn with_secondary_balance(s: Seq<AssetBalance>, asset: [u8; 32], amount: u64) -> Seq<
    AssetBalance,
> {
    let i = secondary_index(s, asset);
    if i < s.len() {
        s.update(i as int, AssetBalance::V1 { asset_type: asset, balance: amount })
    } else {
        s.push(AssetBalance::V1 { asset_type: asset, balance: amount })
    }
}

proof fn lemma_secondary_index(s: Seq<AssetBalance>, asset: [u8; 32])
    ensures
        secondary_index(s, asset) <= s.len(),
        forall|j: int| 0 <= j < secondary_index(s, asset) ==> #[trigger] s[j]->asset_type != asset,
        secondary_index(s, asset) < s.len() ==> s[secondary_index(s, asset) as int]->asset_type
            == asset,
    decreases s.len(),
{
    if s.len() > 0 && s[0]->asset_type != asset {
        lemma_secondary_index(s.drop_first(), asset);
        assert forall|j: int| 0 <= j < secondary_index(s, asset) implies #[trigger] s[j]->asset_type
            != asset by {
            if j > 0 {
                assert(s[j] == s.drop_first()[j - 1]);
            }
        }
    }
}

proof fn lemma_secondary_index_at(s: Seq<AssetBalance>, asset: [u8; 32], i: int)
    requires
        0 <= i <= s.len(),
        forall|j: int| 0 <= j < i ==> #[trigger] s[j]->asset_type != asset,
        i < s.len() ==> s[i]->asset_type == asset,
    ensures
        secondary_index(s, asset) == i,
    decreases s.len(),
{
    if s.len() > 0 && i > 0 {
        assert(s[0]->asset_type != asset);
        assert forall|j: int| 0 <= j < i - 1 implies #[trigger] s.drop_first()[j]->asset_type
            != asset by {
            assert(s.drop_first()[j] == s[j + 1]);
        }
        lemma_secondary_index_at(s.drop_first(), asset, i - 1);
    }
}

fn find_secondary(balances: &Vec<AssetBalance>, asset: [u8; 32]) -> (r: usize)
    ensures
        r == secondary_index(balances@, asset),
        r <= balances@.len(),
{
    let mut i: usize = 0;
    while i < balances.len()
        invariant
            i <= balances@.len(),
            forall|j: int| 0 <= j < i ==> #[trigger] balances@[j]->asset_type != asset,
        decreases balances@.len() - i,
    {
        let AssetBalance::V1 { asset_type, .. } = balances[i];
        if addr_eq(&asset_type, &asset) {
            proof {
                lemma_secondary_index_at(balances@, asset, i as int);
            }
            return i;
        }
        i += 1;
    }
    proof {
        lemma_secondary_index_at(balances@, asset, i as int);
    }
    i
}

fn get_secondary_balance(secondary_balances: &Vec<AssetBalance>, asset_type: [u8; 32]) -> (r: u64)
    ensures
        r == secondary_balance_of(secondary_balances@, asset_type),
{
    let i = find_secondary(secondary_balances, asset_type);
    if i < secondary_balances.len() {
        let AssetBalance::V1 { balance, .. } = secondary_balances[i];
        balance
    } else {
        0
    }
}

fn set_secondary_balance(secondary_balances: &mut Vec<AssetBalance>, asset_type: [u8; 32], amount: u64)
    ensures
        final(secondary_balances)@ == with_secondary_balance(old(secondary_balances)@, asset_type, amount),
{
    let i = find_secondary(secondary_balances, asset_type);
    if i < secondary_balances.len() {
        secondary_balances.set(i, AssetBalance::V1 { asset_type, balance: amount });
    } else {
        secondary_balances.push(AssetBalance::V1 { asset_type, balance: amount });
    }
}

/// The balances with `amount` of `asset` added.
pub open spec fn secondary_added(s: Seq<AssetBalance>, asset: [u8; 32], amount: u64) -> Seq<AssetBalance> {
    with_secondary_balance(s, asset, (secondary_balance_of(s, asset) + amount) as u64)
}

// ------------------------------------------------------------------
// The value of secondary collateral.
// ------------------------------------------------------------------
/// The value of a balance of a registered asset in the primary asset, before
/// the haircut.
pub open spec fn value_before_haircut(balance: u64, info: SecondaryAssetInfo) -> u64 {
    ((balance * info.value_in_primary_per_unit) / (info.asset_precision.multiplier as int)) as u64
}

/// The haircut taken off a value.
pub open spec fn haircut_of(value: u64, info: SecondaryAssetInfo) -> u64 {
    ((value * info.haircut_bps) / (MAX_HAIRCUT_BPS as int)) as u64
}

/// What one secondary balance adds to the collateral, in the primary asset:
/// its value after the haircut, where the balance is positive and the asset
/// registered.
pub open spec fn secondary_term(ab: AssetBalance, stores: Map<[u8; 32], SecondaryAssetInfo>) -> int {
    if ab->balance > 0 && stores.contains_key(ab->asset_type) {
        let info = stores[ab->asset_type];
        let v = value_before_haircut(ab->balance, info);
        v - haircut_of(v, info)
    } else {
        0
    }
}

/// Whether the term of a secondary balance can be computed: a positive
/// multiplier, and a haircut no larger than the value.
pub open spec fn secondary_term_ok(ab: AssetBalance, stores: Map<[u8; 32], SecondaryAssetInfo>) -> bool {
    ab->balance > 0 && stores.contains_key(ab->asset_type) ==> {
        let info = stores[ab->asset_type];
        &&& info.asset_precision.multiplier > 0
        &&& haircut_of(value_before_haircut(ab->balance, info), info) <= value_before_haircut(
            ab->balance,
            info,
        )
    }
}

/// The value of the first `n` secondary balances.
pub open spec fn secondary_value(
    s: Seq<AssetBalance>,
    stores: Map<[u8; 32], SecondaryAssetInfo>,
    n: nat,
) -> int
    decreases n,
{
    if n == 0 {
        0
    } else {
        secondary_value(s, stores, (n - 1) as nat) + secondary_term(s[n - 1], stores)
    }
}

/// Whether the value of the secondary balances can be computed without
/// overflow or underflow.
pub open spec fn secondary_value_ok(s: Seq<AssetBalance>, stores: Map<[u8; 32], SecondaryAssetInfo>) -> bool {
    &&& forall|i: int| 0 <= i < s.len() ==> #[trigger] secondary_term_ok(s[i], stores)
    &&& secondary_value(s, stores, s.len()) <= u64::MAX
}

/// A positive balance of a registered asset whose haircut is at most the
/// whole value adds its value in the primary asset less the haircut:
/// `v - v * haircut_bps / 10000`, where `v` is the balance times the value
/// per unit over the asset's decimal multiplier. A balance that is zero or
/// of an unregistered asset adds nothing. A haircut that takes at least one
/// unit leaves the balance worth strictly less than its value.
pub proof fn lemma_secondary_term_after_haircut(ab: AssetBalance, stores: Map<[u8; 32], SecondaryAssetInfo>)
    requires
        ab->balance > 0 && stores.contains_key(ab->asset_type) ==> {
            let info = stores[ab->asset_type];
            &&& info.asset_precision.multiplier > 0
            &&& info.haircut_bps <= 10000
            &&& ab->balance * info.value_in_primary_per_unit / (info.asset_precision.multiplier as int)
                <= u64::MAX
        },
    ensures
        !(ab->balance > 0 && stores.contains_key(ab->asset_type)) ==> secondary_term(ab, stores) == 0,
        ab->balance > 0 && stores.contains_key(ab->asset_type) ==> {
            let info = stores[ab->asset_type];
            let v = ab->balance * info.value_in_primary_per_unit / (info.asset_precision.multiplier as int);
            &&& secondary_term(ab, stores) == v - v * info.haircut_bps / 10000
            &&& 0 <= secondary_term(ab, stores) <= v
            &&& v * info.haircut_bps >= 10000 ==> secondary_term(ab, stores) < v
        },
{
    if ab->balance > 0 && stores.contains_key(ab->asset_type) {
        let info = stores[ab->asset_type];
        let v = ab->balance * info.value_in_primary_per_unit / (info.asset_precision.multiplier as int);
        assert(v >= 0) by (nonlinear_arith)
            requires
                ab->balance >= 0,
                info.value_in_primary_per_unit >= 0,
                info.asset_precision.multiplier > 0,
                v == ab->balance * info.value_in_primary_per_unit / (info.asset_precision.multiplier as int),
        ;
        assert(value_before_haircut(ab->balance, info) == v);
        let h = v * info.haircut_bps / 10000;
        assert(0 <= h <= v) by (nonlinear_arith)
            requires
                v >= 0,
                0 <= info.haircut_bps <= 10000,
                h == v * info.haircut_bps / 10000,
        ;
        assert(v * info.haircut_bps >= 10000 ==> h >= 1) by (nonlinear_arith)
            requires
                h == v * info.haircut_bps / 10000,
        ;
        assert(haircut_of(v as u64, info) == h);
    }
}

proof fn lemma_secondary_value_monotone(
    s: Seq<AssetBalance>,
    stores: Map<[u8; 32], SecondaryAssetInfo>,
    i: nat,
    n: nat,
)
    requires
        i <= n <= s.len(),
        forall|j: int| 0 <= j < s.len() ==> #[trigger] secondary_term_ok(s[j], stores),
    ensures
        0 <= secondary_value(s, stores, i) <= secondary_value(s, stores, n),
    decreases n,
{
    if n > 0 {
        assert(secondary_term_ok(s[n - 1], stores));
        if i < n {
            lemma_secondary_value_monotone(s, stores, i, (n - 1) as nat);
        } else {
            lemma_secondary_value_monotone(s, stores, (n - 1) as nat, (n - 1) as nat);
        }
    }
}

// ------------------------------------------------------------------
// The balance sheet.
// ------------------------------------------------------------------
/// The primary collateral of an optional balance (zero where there is none).
pub open spec fn primary_of(b: Option<CollateralBalances>) -> int {
    match b {
        Some(b) => b.primary_balance.view() as int,
        None => 0,
    }
}

/// The secondary balances of an optional balance (none where there is none).
pub open spec fn secondaries_of(b: Option<CollateralBalances>) -> Seq<AssetBalance> {
    match b {
        Some(b) => b.secondary_balances@,
        None => Seq::empty(),
    }
}

/// The reserved amount of an optional balance (zero where there is none).
pub open spec fn reserved_of(b: Option<CollateralBalances>) -> u64 {
    match b {
        Some(b) => b.reserved_amount,
        None => 0,
    }
}

/// The collateral balance sheet.
#[derive(Debug)]
pub struct CollateralBalanceSheet {
    primary_asset_type: [u8; 32],
    primary_asset_precision: Precision,
    global_primary_store_balance: u64,
    secondary_stores: AddrMap<SecondaryAssetInfo>,
    global_secondary_store_balances: AddrMap<u64>,
    cross_balances: AddrMap<CollateralBalances>,
    isolated_balances: AddrMap<AddrMap<CollateralBalances>>,
}

fn create_empty_collateral_balances() -> (r: CollateralBalances)
    ensures
        r.primary_balance.view() == 0,
        r.secondary_balances@.len() == 0,
        r.reserved_amount == 0,
{
    CollateralBalances {
        primary_balance: new_i64_aggregator(),
        secondary_balances: Vec::new(),
        reserved_amount: 0,
    }
}

impl CollateralBalanceSheet {
    pub closed spec fn wf(&self) -> bool {
        &&& self.secondary_stores.wf()
        &&& self.global_secondary_store_balances.wf()
        &&& self.cross_balances.wf()
        &&& self.isolated_balances.wf()
        &&& forall|a: [u8; 32]| #[trigger]
            self.isolated_balances.view().contains_key(a) ==> self.isolated_balances.view()[a].wf()
    }

    /// The primary asset.
    pub closed spec fn primary_asset(&self) -> [u8; 32] {
        self.primary_asset_type
    }

    /// The precision of the primary asset.
    pub closed spec fn primary_precision(&self) -> Precision {
        self.primary_asset_precision
    }

    /// The sheet's total of the primary asset.
    pub closed spec fn global_primary(&self) -> u64 {
        self.global_primary_store_balance
    }

    /// The registered secondary assets.
    pub closed spec fn stores(&self) -> Map<[u8; 32], SecondaryAssetInfo> {
        self.secondary_stores.view()
    }

    /// The sheet's total of each secondary asset.
    pub closed spec fn global_secondary(&self) -> Map<[u8; 32], u64> {
        self.global_secondary_store_balances.view()
    }

    /// The balance at `bt`, if there is one.
    pub closed spec fn balances(&self, bt: CollateralBalanceType) -> Option<CollateralBalances> {
        match bt {
            CollateralBalanceType::Cross { account } => if self.cross_balances.view().contains_key(
                account,
            ) {
                Some(self.cross_balances.view()[account])
            } else {
                None
            },
            CollateralBalanceType::Isolated { account, market } => if self.isolated_balances.view().contains_key(
                account,
            ) && self.isolated_balances.view()[account].view().contains_key(market) {
                Some(self.isolated_balances.view()[account].view()[market])
            } else {
                None
            },
        }
    }

    /// Everything but the balances is as in `other`.
    pub open spec fn same_assets(&self, other: &Self) -> bool {
        &&& self.primary_asset() == other.primary_asset()
        &&& self.primary_precision() == other.primary_precision()
        &&& self.stores() == other.stores()
    }

    /// The balances other than at `bt` are as in `other`.
    pub open spec fn other_balances_same(&self, other: &Self, bt: CollateralBalanceType) -> bool {
        forall|b: CollateralBalanceType| b != bt ==> #[trigger] self.balances(b) == other.balances(b)
    }

    /// Takes the balance at `bt` out of the sheet.
    fn take_balances(&mut self, bt: CollateralBalanceType) -> (r: Option<CollateralBalances>)
        requires
            old(self).wf(),
        ensures
            final(self).wf(),
            r == old(self).balances(bt),
            final(self).balances(bt) is None,
            final(self).other_balances_same(&*old(self), bt),
            final(self).same_assets(&*old(self)),
            final(self).global_primary() == old(self).global_primary(),
            final(self).global_secondary() == old(self).global_secondary(),
    {
        match bt {
            CollateralBalanceType::Cross { account } => {
                let r = self.cross_balances.remove(&account);
                proof {
                    assert forall|b: CollateralBalanceType| b != bt implies #[trigger] self.balances(
                        b,
                    ) == old(self).balances(b) by {
                        match b {
                            CollateralBalanceType::Cross { account: a } => {
                                if a == account {
                                    assert(b == bt);
                                }
                            },
                            _ => {},
                        }
                    }
                }
                r
            },
            CollateralBalanceType::Isolated { account, market } => {
                match self.isolated_balances.remove(&account) {
                    Some(mut inner) => {
                        let r = inner.remove(&market);
                        self.isolated_balances.insert(account, inner);
                        proof {
                            assert forall|b: CollateralBalanceType| b != bt implies #[trigger] self.balances(
                                b,
                            ) == old(self).balances(b) by {
                                match b {
                                    CollateralBalanceType::Isolated { account: a, market: m } => {
                                        if a == account && m == market {
                                            assert(b == bt);
                                        }
                                    },
                                    _ => {},
                                }
                            }
                        }
                        r
                    },
                    None => {
                        proof {
                            assert(self.isolated_balances.view() =~= old(self).isolated_balances.view());
                        }
                        None
                    },
                }
            },
        }
    }

    /// Puts a balance into the sheet at `bt`.
    fn put_balances(&mut self, bt: CollateralBalanceType, b: CollateralBalances)
        requires
            old(self).wf(),
        ensures
            final(self).wf(),
            final(self).balances(bt) == Some(b),
            final(self).other_balances_same(&*old(self), bt),
            final(self).same_assets(&*old(self)),
            final(self).global_primary() == old(self).global_primary(),
            final(self).global_secondary() == old(self).global_secondary(),
    {
        match bt {
            CollateralBalanceType::Cross { account } => {
                self.cross_balances.insert(account, b);
                proof {
                    assert forall|x: CollateralBalanceType| x != bt implies #[trigger] self.balances(
                        x,
                    ) == old(self).balances(x) by {
                        match x {
                            CollateralBalanceType::Cross { account: a } => {
                                if a == account {
                                    assert(x == bt);
                                }
                            },
                            _ => {},
                        }
                    }
                }
            },
            CollateralBalanceType::Isolated { account, market } => {
                let mut inner = match self.isolated_balances.remove(&account) {
                    Some(inner) => inner,
                    None => AddrMap::new(),
                };
                inner.insert(market, b);
                self.isolated_balances.insert(account, inner);
                proof {
                    assert forall|x: CollateralBalanceType| x != bt implies #[trigger] self.balances(
                        x,
                    ) == old(self).balances(x) by {
                        match x {
                            CollateralBalanceType::Isolated { account: a, market: m } => {
                                if a == account && m == market {
                                    assert(x == bt);
                                }
                            },
                            _ => {},
                        }
                    }
                }
            },
        }
    }

    /// A reference to the balance at `bt`, if there is one.
    fn get_balances(&self, bt: &CollateralBalanceType) -> (r: Option<&CollateralBalances>)
        requires
            self.wf(),
        ensures
            match r {
                Some(b) => self.balances(*bt) == Some(*b),
                None => self.balances(*bt) is None,
            },
    {
        match bt {
            CollateralBalanceType::Cross { account } => self.cross_balances.get(account),
            CollateralBalanceType::Isolated { account, market } => {
                match self.isolated_balances.get(account) {
                    Some(inner) => {
                        proof {
                            assert(self.isolated_balances.view()[*account].wf());
                        }
                        inner.get(market)
                    },
                    None => None,
                }
            },
        }
    }

    /// A sheet for the given primary asset, with nothing in it.
    pub fn initialize(primary_asset_type: [u8; 32], primary_decimals: u8) -> (r: Self)
        requires
            primary_decimals <= 19,
        ensures
            r.wf(),
            r.primary_asset() == primary_asset_type,
            r.primary_precision().decimals == primary_decimals,
            r.primary_precision().wf(),
            r.global_primary() == 0,
            r.stores() == Map::<[u8; 32], SecondaryAssetInfo>::empty(),
            r.global_secondary() == Map::<[u8; 32], u64>::empty(),
            forall|bt: CollateralBalanceType| #[trigger] r.balances(bt) is None,
    {
        let precision = match new_precision(primary_decimals) {
            Ok(p) => p,
            Err(_) => vstd::pervasive::unreached(),
        };
        CollateralBalanceSheet {
            primary_asset_type,
            primary_asset_precision: precision,
            global_primary_store_balance: 0,
            secondary_stores: AddrMap::new(),
            global_secondary_store_balances: AddrMap::new(),
            cross_balances: AddrMap::new(),
            isolated_balances: AddrMap::new(),
        }
    }

    pub fn primary_asset_metadata(&self) -> (r: [u8; 32])
        ensures
            r == self.primary_asset(),
    {
        self.primary_asset_type
    }

    pub fn primary_asset_precision(&self) -> (r: Precision)
        ensures
            r == self.primary_precision(),
    {
        self.primary_asset_precision
    }

    /// Whether an asset is the primary asset or a registered secondary one.
    pub fn is_asset_supported(&self, asset_type: [u8; 32]) -> (r: bool)
        requires
            self.wf(),
        ensures
            r == (asset_type == self.primary_asset() || self.stores().contains_key(asset_type)),
    {
        addr_eq(&asset_type, &self.primary_asset_type) || self.secondary_stores.contains_key(
            &asset_type,
        )
    }

    pub fn value_in_primary_per_unit(&self, asset_type: [u8; 32]) -> (r: u64)
        requires
            self.wf(),
            self.stores().contains_key(asset_type),
        ensures
            r == self.stores()[asset_type].value_in_primary_per_unit,
    {
        self.secondary_stores.get(&asset_type).unwrap().value_in_primary_per_unit
    }

    /// The amount of a registered asset worth `value_in_primary`, rounded
    /// down (cut to 64 bits).
    pub fn secondary_asset_amount_from_value_in_primary(
        &self,
        value_in_primary: u64,
        asset_type: [u8; 32],
    ) -> (r: u64)
        requires
            self.wf(),
            self.stores().contains_key(asset_type),
            self.stores()[asset_type].value_in_primary_per_unit != 0,
        ensures
            r == ((value_in_primary * self.stores()[asset_type].asset_precision.multiplier)
                / (self.stores()[asset_type].value_in_primary_per_unit as int)) as u64,
    {
        let info = self.secondary_stores.get(&asset_type).unwrap();
        let multiplier = get_decimals_multiplier(&info.asset_precision);
        proof {
            assert(value_in_primary * multiplier <= u64::MAX * u64::MAX) by (nonlinear_arith)
                requires
                    value_in_primary <= u64::MAX,
                    multiplier <= u64::MAX,
            ;
        }
        let prod = (value_in_primary as u128) * (multiplier as u128);
        #[verifier::truncate] ((prod / (info.value_in_primary_per_unit as u128)) as u64)
    }

    pub fn haircut_bps(&self, asset_type: [u8; 32]) -> (r: u64)
        requires
            self.wf(),
            self.stores().contains_key(asset_type),
        ensures
            r == self.stores()[asset_type].haircut_bps,
    {
        self.secondary_stores.get(&asset_type).unwrap().haircut_bps
    }

    /// Sets the haircut of a registered secondary asset.
    pub fn update_haircut_bps(&mut self, asset_type: [u8; 32], new_haircut_bps: u64)
        requires
            old(self).wf(),
            asset_type != old(self).primary_asset(),
            new_haircut_bps <= MAX_HAIRCUT_BPS,
            old(self).stores().contains_key(asset_type),
        ensures
            final(self).wf(),
            final(self).stores() == old(self).stores().insert(
                asset_type,
                SecondaryAssetInfo { haircut_bps: new_haircut_bps, ..old(self).stores()[asset_type] },
            ),
            final(self).primary_asset() == old(self).primary_asset(),
            final(self).primary_precision() == old(self).primary_precision(),
            final(self).global_primary() == old(self).global_primary(),
            final(self).global_secondary() == old(self).global_secondary(),
            forall|bt: CollateralBalanceType| #[trigger] final(self).balances(bt) == old(self).balances(bt),
    {
        let i = self.secondary_stores.index_of(&asset_type).unwrap();
        let info = self.secondary_stores.value_at_mut(i);
        info.haircut_bps = new_haircut_bps;
    }

    /// Registers a secondary asset (or registers it anew), with a total of
    /// zero.
    pub fn add_secondary_asset(
        &mut self,
        asset_type: [u8; 32],
        value_in_primary_per_unit: u64,
        haircut_bps: u64,
        asset_decimals: u8,
    )
        requires
            old(self).wf(),
            asset_decimals <= 19,
        ensures
            final(self).wf(),
            final(self).stores().dom() == old(self).stores().dom().insert(asset_type),
            forall|a: [u8; 32]| a != asset_type ==> #[trigger] final(self).stores()[a] == old(self).stores()[a],
            final(self).stores()[asset_type].value_in_primary_per_unit == value_in_primary_per_unit,
            final(self).stores()[asset_type].haircut_bps == haircut_bps,
            final(self).stores()[asset_type].asset_precision.decimals == asset_decimals,
            final(self).stores()[asset_type].asset_precision.wf(),
            final(self).global_secondary() == old(self).global_secondary().insert(asset_type, 0),
            final(self).primary_asset() == old(self).primary_asset(),
            final(self).primary_precision() == old(self).primary_precision(),
            final(self).global_primary() == old(self).global_primary(),
            forall|bt: CollateralBalanceType| #[trigger] final(self).balances(bt) == old(self).balances(bt),
    {
        let precision = match new_precision(asset_decimals) {
            Ok(p) => p,
            Err(_) => vstd::pervasive::unreached(),
        };
        self.secondary_stores.insert(
            asset_type,
            SecondaryAssetInfo { value_in_primary_per_unit, haircut_bps, asset_precision: precision },
        );
        self.global_secondary_store_balances.insert(asset_type, 0);
    }

    /// The primary collateral at `bt` (zero where there is no balance).
    pub fn balance_of_primary_asset(&self, balance_type: &CollateralBalanceType) -> (r: i64)
        requires
            self.wf(),
        ensures
            r == primary_of(self.balances(*balance_type)),
    {
        match self.get_balances(balance_type) {
            Some(b) => b.primary_balance.read(),
            None => 0,
        }
    }

    /// Whether there is a balance at `bt` with primary collateral of at
    /// least `threshold` (read as a signed number).
    pub fn balance_of_primary_asset_at_least(
        &self,
        balance_type: &CollateralBalanceType,
        threshold: u64,
    ) -> (r: bool)
        requires
            self.wf(),
        ensures
            r == (match self.balances(*balance_type) {
                Some(b) => b.primary_balance.view() >= (threshold as i64),
                None => false,
            }),
    {
        match self.get_balances(balance_type) {
            Some(b) => b.primary_balance.is_at_least(#[verifier::truncate] (threshold as i64)),
            None => false,
        }
    }

    pub fn get_global_primary_store_balance(&self) -> (r: u64)
        ensures
            r == self.global_primary(),
    {
        self.global_primary_store_balance
    }

    /// The sheet's total of a secondary asset (zero for an unknown one).
    pub fn get_global_secondary_store_balance(&self, asset_type: [u8; 32]) -> (r: u64)
        requires
            self.wf(),
        ensures
            r == (if self.global_secondary().contains_key(asset_type) {
                self.global_secondary()[asset_type]
            } else {
                0
            }),
    {
        match self.global_secondary_store_balances.get(&asset_type) {
            Some(v) => *v,
            None => 0,
        }
    }

    pub fn get_primary_store_balance_in_fungible_amount(&self) -> (r: u64)
        ensures
            r == self.global_primary(),
    {
        self.global_primary_store_balance
    }

    /// The sheet's total of a secondary asset (zero for an unknown one).
    pub fn get_secondary_store_balance_in_fungible_amount(&self, asset_type: [u8; 32]) -> (r: u64)
        requires
            self.wf(),
        ensures
            r == (if self.global_secondary().contains_key(asset_type) {
                self.global_secondary()[asset_type]
            } else {
                0
            }),
    {
        self.get_global_secondary_store_balance(asset_type)
    }

    /// The balance of a secondary asset at `bt`.
    pub fn secondary_asset_amount(&self, balance_type: &CollateralBalanceType, asset_type: [u8; 32]) -> (r:
        u64)
        requires
            self.wf(),
        ensures
            r == secondary_balance_of(secondaries_of(self.balances(*balance_type)), asset_type),
    {
        match self.get_balances(balance_type) {
            Some(b) => get_secondary_balance(&b.secondary_balances, asset_type),
            None => 0,
        }
    }

    /// The value of a balance's secondary assets in the primary asset, after
    /// haircuts; unregistered assets count for nothing.
    pub fn get_secondary_assets_value_in_primary(
        balances: &CollateralBalances,
        secondary_stores: &AddrMap<SecondaryAssetInfo>,
    ) -> (r: u64)
        requires
            secondary_stores.wf(),
            secondary_value_ok(balances.secondary_balances@, secondary_stores.view()),
        ensures
            r == secondary_value(
                balances.secondary_balances@,
                secondary_stores.view(),
                balances.secondary_balances@.len(),
            ),
    {
        let s = &balances.secondary_balances;
        let ghost stores = secondary_stores.view();
        let mut total: u64 = 0;
        let mut i: usize = 0;
        while i < s.len()
            invariant
                secondary_stores.wf(),
                stores == secondary_stores.view(),
                i <= s@.len(),
                total == secondary_value(s@, stores, i as nat),
                secondary_value_ok(s@, stores),
            decreases s@.len() - i,
        {
            proof {
                lemma_secondary_value_monotone(s@, stores, (i + 1) as nat, s@.len());
                assert(secondary_term_ok(s@[i as int], stores));
            }
            let AssetBalance::V1 { asset_type, balance } = s[i];
            if balance > 0 {
                match secondary_stores.get(&asset_type) {
                    Some(store) => {
                        let multiplier = get_decimals_multiplier(&store.asset_precision);
                        proof {
                            assert(balance * store.value_in_primary_per_unit <= u64::MAX * u64::MAX)
                                by (nonlinear_arith)
                                requires
                                    balance <= u64::MAX,
                                    store.value_in_primary_per_unit <= u64::MAX,
                            ;
                        }
                        let prod = (balance as u128) * (store.value_in_primary_per_unit as u128);
                        let value_in_primary: u64 = #[verifier::truncate] ((prod / (multiplier as u128)) as u64);
                        proof {
                            assert(value_in_primary * store.haircut_bps <= u64::MAX * u64::MAX)
                                by (nonlinear_arith)
                                requires
                                    value_in_primary <= u64::MAX,
                                    store.haircut_bps <= u64::MAX,
                            ;
                        }
                        let hprod = (value_in_primary as u128) * (store.haircut_bps as u128);
                        let haircut_amount: u64 = #[verifier::truncate] ((hprod / (MAX_HAIRCUT_BPS as u128)) as u64);
                        let final_value = value_in_primary - haircut_amount;
                        total = total + final_value;
                    },
                    None => {},
                }
            }
            i += 1;
        }
        total
    }
}

/// The sheet after the primary collateral at `bt` changes by `delta` (the
/// balance being created where it is missing); nothing else changes but the
/// primary total, which each operation states.
pub open spec fn primary_changed(
    before: CollateralBalanceSheet,
    after: CollateralBalanceSheet,
    bt: CollateralBalanceType,
    delta: int,
) -> bool {
    &&& after.balances(bt) is Some
    &&& primary_of(after.balances(bt)) == primary_of(before.balances(bt)) + delta
    &&& secondaries_of(after.balances(bt)) == secondaries_of(before.balances(bt))
    &&& reserved_of(after.balances(bt)) == reserved_of(before.balances(bt))
    &&& after.other_balances_same(&before, bt)
    &&& after.same_assets(&before)
    &&& after.global_secondary() == before.global_secondary()
}

/// Whether the primary collateral at `bt` can change by `delta`.
pub open spec fn primary_change_ok(s: CollateralBalanceSheet, bt: CollateralBalanceType, delta: int) -> bool {
    i64::MIN <= primary_of(s.balances(bt)) + delta <= i64::MAX
}

/// The secondary balances after those of `src` (the first `n`, positive
/// ones only) are added to `acc`, one by one.
pub open spec fn merged_secondaries(acc: Seq<AssetBalance>, src: Seq<AssetBalance>, n: nat) -> Seq<
    AssetBalance,
>
    decreases n,
{
    if n == 0 {
        acc
    } else {
        let prev = merged_secondaries(acc, src, (n - 1) as nat);
        if src[n - 1]->balance > 0 {
            secondary_added(prev, src[n - 1]->asset_type, src[n - 1]->balance)
        } else {
            prev
        }
    }
}

/// Whether adding the first `n` balances of `src` to `acc` does not overflow.
pub open spec fn merge_ok(acc: Seq<AssetBalance>, src: Seq<AssetBalance>, n: nat) -> bool
    decreases n,
{
    if n == 0 {
        true
    } else {
        let prev = merged_secondaries(acc, src, (n - 1) as nat);
        &&& merge_ok(acc, src, (n - 1) as nat)
        &&& secondary_balance_of(prev, src[n - 1]->asset_type) + src[n - 1]->balance <= u64::MAX
    }
}

proof fn lemma_merge_ok_prefix(acc: Seq<AssetBalance>, src: Seq<AssetBalance>, i: nat, n: nat)
    requires
        i <= n,
        merge_ok(acc, src, n),
    ensures
        merge_ok(acc, src, i),
    decreases n,
{
    if i < n {
        lemma_merge_ok_prefix(acc, src, i, (n - 1) as nat);
    }
}

impl CollateralBalanceSheet {
    /// The value of all the collateral at `bt`: primary plus secondary (the
    /// secondary value read as a signed number); zero where there is no
    /// balance.
    pub fn total_collateral_value(&self, balance_type: &CollateralBalanceType) -> (r: i64)
        requires
            self.wf(),
            self.balances(*balance_type) matches Some(b) ==> {
                &&& secondary_value_ok(b.secondary_balances@, self.stores())
                &&& i64::MIN <= b.primary_balance.view() + (secondary_value(
                    b.secondary_balances@,
                    self.stores(),
                    b.secondary_balances@.len(),
                ) as u64 as i64) <= i64::MAX
            },
        ensures
            r == (match self.balances(*balance_type) {
                Some(b) => b.primary_balance.view() + (secondary_value(
                    b.secondary_balances@,
                    self.stores(),
                    b.secondary_balances@.len(),
                ) as u64 as i64),
                None => 0,
            }),
    {
        match self.get_balances(balance_type) {
            Some(b) => {
                let primary_balance = b.primary_balance.read();
                let secondary = Self::get_secondary_assets_value_in_primary(b, &self.secondary_stores);
                primary_balance + (#[verifier::truncate] (secondary as i64))
            },
            None => 0,
        }
    }

    /// The status of the collateral at `bt` (empty where there is no
    /// balance).
    pub fn get_collateral_status(&self, balance_type: &CollateralBalanceType) -> (r: CollateralStatus)
        requires
            self.wf(),
            self.balances(*balance_type) matches Some(b) ==> secondary_value_ok(
                b.secondary_balances@,
                self.stores(),
            ),
        ensures
            r == (match self.balances(*balance_type) {
                Some(b) => CollateralStatus::V1 {
                    primary: b.primary_balance.view(),
                    secondary: secondary_value(
                        b.secondary_balances@,
                        self.stores(),
                        b.secondary_balances@.len(),
                    ) as u64,
                    reserved: b.reserved_amount,
                },
                None => CollateralStatus::V1 { primary: 0, secondary: 0, reserved: 0 },
            }),
    {
        match self.get_balances(balance_type) {
            Some(b) => CollateralStatus::V1 {
                primary: b.primary_balance.read(),
                secondary: Self::get_secondary_assets_value_in_primary(b, &self.secondary_stores),
                reserved: b.reserved_amount,
            },
            None => empty_collateral_status(),
        }
    }

    /// Whether there is any collateral at `bt`: primary, or secondary of
    /// some value.
    pub fn has_any_collateral(&self, balance_type: &CollateralBalanceType) -> (r: bool)
        requires
            self.wf(),
            self.balances(*balance_type) matches Some(b) ==> secondary_value_ok(
                b.secondary_balances@,
                self.stores(),
            ),
        ensures
            r == (match self.balances(*balance_type) {
                Some(b) => b.primary_balance.view() != 0 || secondary_value(
                    b.secondary_balances@,
                    self.stores(),
                    b.secondary_balances@.len(),
                ) != 0,
                None => false,
            }),
    {
        match self.get_balances(balance_type) {
            Some(b) => {
                if b.primary_balance.read() != 0 {
                    return true;
                }
                Self::get_secondary_assets_value_in_primary(b, &self.secondary_stores) != 0
            },
            None => false,
        }
    }

    /// The collateral reserved in an account's cross-margin domain.
    pub fn get_reserved_collateral(&self, account: [u8; 32]) -> (r: u64)
        requires
            self.wf(),
        ensures
            r == reserved_of(self.balances(CollateralBalanceType::Cross { account })),
    {
        let balance_type = balance_type_cross(account);
        match self.get_balances(&balance_type) {
            Some(b) => b.reserved_amount,
            None => 0,
        }
    }

    /// Sets the collateral reserved in an account's cross-margin domain.
    pub fn set_reserved_collateral(&mut self, account: [u8; 32], amount: u64)
        requires
            old(self).wf(),
        ensures
            final(self).wf(),
            final(self).balances(CollateralBalanceType::Cross { account }) is Some,
            reserved_of(final(self).balances(CollateralBalanceType::Cross { account })) == amount,
            primary_of(final(self).balances(CollateralBalanceType::Cross { account })) == primary_of(
                old(self).balances(CollateralBalanceType::Cross { account }),
            ),
            secondaries_of(final(self).balances(CollateralBalanceType::Cross { account }))
                == secondaries_of(old(self).balances(CollateralBalanceType::Cross { account })),
            final(self).other_balances_same(&*old(self), CollateralBalanceType::Cross { account }),
            final(self).same_assets(&*old(self)),
            final(self).global_primary() == old(self).global_primary(),
            final(self).global_secondary() == old(self).global_secondary(),
    {
        let bt = balance_type_cross(account);
        let mut b = match self.take_balances(bt) {
            Some(b) => b,
            None => create_empty_collateral_balances(),
        };
        b.reserved_amount = amount;
        self.put_balances(bt, b);
    }

    /// Adds `amount` of the primary asset to the sheet, credited at `to`.
    pub fn deposit_primary_collateral(
        &mut self,
        to: CollateralBalanceType,
        amount: u64,
        _change_type: CollateralBalanceChangeType,
    )
        requires
            old(self).wf(),
            old(self).global_primary() + amount <= u64::MAX,
            primary_change_ok(*old(self), to, amount as i64 as int),
        ensures
            final(self).wf(),
            primary_changed(*old(self), *final(self), to, amount as i64 as int),
            final(self).global_primary() == old(self).global_primary() + amount,
    {
        self.global_primary_store_balance = self.global_primary_store_balance + amount;
        let mut b = match self.take_balances(to) {
            Some(b) => b,
            None => create_empty_collateral_balances(),
        };
        b.primary_balance.add(#[verifier::truncate] (amount as i64));
        self.put_balances(to, b);
        proof {
            assert(self.balances(to) is Some);
            assert(primary_of(self.balances(to)) == primary_of(old(self).balances(to)) + amount as i64 as int);
            assert(secondaries_of(self.balances(to)) == secondaries_of(old(self).balances(to)));
            assert(reserved_of(self.balances(to)) == reserved_of(old(self).balances(to)));
            assert(self.other_balances_same(&*old(self), to));
            assert(self.same_assets(&*old(self)));
            assert(self.global_secondary() == old(self).global_secondary());
        }
    }

    /// Adds `amount` of a registered secondary asset to the sheet, credited
    /// at `to`.
    pub fn deposit_secondary_collateral(
        &mut self,
        to: CollateralBalanceType,
        asset_type: [u8; 32],
        amount: u64,
        _change_type: CollateralBalanceChangeType,
    )
        requires
            old(self).wf(),
            old(self).stores().contains_key(asset_type),
            (if old(self).global_secondary().contains_key(asset_type) {
                old(self).global_secondary()[asset_type] as int
            } else {
                0
            }) + amount <= u64::MAX,
            secondary_balance_of(secondaries_of(old(self).balances(to)), asset_type) + amount
                <= u64::MAX,
        ensures
            final(self).wf(),
            final(self).global_secondary() == old(self).global_secondary().insert(
                asset_type,
                ((if old(self).global_secondary().contains_key(asset_type) {
                    old(self).global_secondary()[asset_type] as int
                } else {
                    0
                }) + amount) as u64,
            ),
            final(self).balances(to) is Some,
            secondaries_of(final(self).balances(to)) == secondary_added(
                secondaries_of(old(self).balances(to)),
                asset_type,
                amount,
            ),
            primary_of(final(self).balances(to)) == primary_of(old(self).balances(to)),
            reserved_of(final(self).balances(to)) == reserved_of(old(self).balances(to)),
            final(self).other_balances_same(&*old(self), to),
            final(self).same_assets(&*old(self)),
            final(self).global_primary() == old(self).global_primary(),
    {
        let current = match self.global_secondary_store_balances.get(&asset_type) {
            Some(v) => *v,
            None => 0,
        };
        self.global_secondary_store_balances.insert(asset_type, current + amount);
        let mut b = match self.take_balances(to) {
            Some(b) => b,
            None => create_empty_collateral_balances(),
        };
        let bal = get_secondary_balance(&b.secondary_balances, asset_type);
        set_secondary_balance(&mut b.secondary_balances, asset_type, bal + amount);
        self.put_balances(to, b);
    }
}

/// The sheet after `amount` of the primary asset moves from `from` to `to`
/// inside the sheet: taken off `from`, then credited at `to`.
pub open spec fn primary_transferred(
    before: CollateralBalanceSheet,
    after: CollateralBalanceSheet,
    from: CollateralBalanceType,
    to: CollateralBalanceType,
    amount: u64,
) -> bool {
    &&& after.same_assets(&before)
    &&& after.global_secondary() == before.global_secondary()
    &&& after.global_primary() == before.global_primary()
    &&& if amount == 0 {
        forall|b: CollateralBalanceType| #[trigger] after.balances(b) == before.balances(b)
    } else if from == to {
        &&& after.balances(from) is Some
        &&& primary_of(after.balances(from)) == primary_of(before.balances(from))
        &&& secondaries_of(after.balances(from)) == secondaries_of(before.balances(from))
        &&& reserved_of(after.balances(from)) == reserved_of(before.balances(from))
        &&& after.other_balances_same(&before, from)
    } else {
        &&& after.balances(from) is Some
        &&& after.balances(to) is Some
        &&& primary_of(after.balances(from)) == primary_of(before.balances(from)) - (
        amount as i64)
        &&& primary_of(after.balances(to)) == primary_of(before.balances(to)) + (amount as i64)
        &&& secondaries_of(after.balances(from)) == secondaries_of(before.balances(from))
        &&& secondaries_of(after.balances(to)) == secondaries_of(before.balances(to))
        &&& reserved_of(after.balances(from)) == reserved_of(before.balances(from))
        &&& reserved_of(after.balances(to)) == reserved_of(before.balances(to))
        &&& forall|b: CollateralBalanceType|
            b != from && b != to ==> #[trigger] after.balances(b) == before.balances(b)
    }
}

/// Whether `amount` of the primary asset can move from `from` to `to`: `from`
/// has a balance, and neither step overflows.
pub open spec fn transfer_ok(
    s: CollateralBalanceSheet,
    from: CollateralBalanceType,
    to: CollateralBalanceType,
    amount: u64,
) -> bool {
    amount != 0 ==> {
        &&& s.balances(from) is Some
        &&& amount as i64 != i64::MIN
        &&& primary_change_ok(s, from, -(amount as i64))
        &&& from != to ==> primary_change_ok(s, to, amount as i64 as int)
    }
}

impl CollateralBalanceSheet {
    /// Adds `amount` of an asset, primary or secondary, credited at `to`.
    pub fn deposit_collateral_amount(
        &mut self,
        to: CollateralBalanceType,
        asset_type: [u8; 32],
        amount: u64,
        change_type: CollateralBalanceChangeType,
    )
        requires
            old(self).wf(),
            asset_type == old(self).primary_asset() ==> {
                &&& old(self).global_primary() + amount <= u64::MAX
                &&& primary_change_ok(*old(self), to, amount as i64 as int)
            },
            asset_type != old(self).primary_asset() ==> {
                &&& old(self).stores().contains_key(asset_type)
                &&& (if old(self).global_secondary().contains_key(asset_type) {
                    old(self).global_secondary()[asset_type] as int
                } else {
                    0
                }) + amount <= u64::MAX
                &&& secondary_balance_of(secondaries_of(old(self).balances(to)), asset_type)
                    + amount <= u64::MAX
            },
        ensures
            final(self).wf(),
            asset_type == old(self).primary_asset() ==> primary_changed(
                *old(self),
                *final(self),
                to,
                amount as i64 as int,
            ) && final(self).global_primary() == old(self).global_primary() + amount,
            asset_type != old(self).primary_asset() ==> {
                &&& final(self).global_secondary() == old(self).global_secondary().insert(
                    asset_type,
                    ((if old(self).global_secondary().contains_key(asset_type) {
                        old(self).global_secondary()[asset_type] as int
                    } else {
                        0
                    }) + amount) as u64,
                )
                &&& final(self).balances(to) is Some
                &&& secondaries_of(final(self).balances(to)) == secondary_added(
                    secondaries_of(old(self).balances(to)),
                    asset_type,
                    amount,
                )
                &&& primary_of(final(self).balances(to)) == primary_of(old(self).balances(to))
                &&& reserved_of(final(self).balances(to)) == reserved_of(old(self).balances(to))
                &&& final(self).other_balances_same(&*old(self), to)
                &&& final(self).same_assets(&*old(self))
                &&& final(self).global_primary() == old(self).global_primary()
            },
    {
        if addr_eq(&asset_type, &self.primary_asset_type) {
            self.deposit_primary_collateral(to, amount, change_type);
        } else {
            self.deposit_secondary_collateral(to, asset_type, amount, change_type);
        }
    }

    /// Takes `amount` (positive) of the primary asset out of the sheet,
    /// debited at `from`, with no check of the balance.
    pub fn withdraw_primary_collateral_unchecked(
        &mut self,
        from: CollateralBalanceType,
        amount: u64,
        _change_type: CollateralBalanceChangeType,
    )
        requires
            old(self).wf(),
            amount > 0,
            old(self).balances(from) is Some,
            amount as i64 != i64::MIN,
            primary_change_ok(*old(self), from, -(amount as i64)),
            old(self).global_primary() >= amount,
        ensures
            final(self).wf(),
            primary_changed(*old(self), *final(self), from, -(amount as i64)),
            final(self).global_primary() == old(self).global_primary() - amount,
    {
        self.global_primary_store_balance = self.global_primary_store_balance - amount;
        let mut b = match self.take_balances(from) {
            Some(b) => b,
            None => vstd::pervasive::unreached(),
        };
        let signed: i64 = #[verifier::truncate] (amount as i64);
        b.primary_balance.add(-signed);
        self.put_balances(from, b);
        proof {
            assert(self.balances(from) is Some);
            assert(primary_of(self.balances(from)) == primary_of(old(self).balances(from)) - (amount as i64));
            assert(secondaries_of(self.balances(from)) == secondaries_of(old(self).balances(from)));
            assert(reserved_of(self.balances(from)) == reserved_of(old(self).balances(from)));
            assert(self.other_balances_same(&*old(self), from));
            assert(self.same_assets(&*old(self)));
        }
    }

    /// Takes `amount` (positive) of an asset out of the sheet, debited at
    /// `from`; a secondary asset must be registered and its balance at `from`
    /// must cover the amount.
    pub fn withdraw_collateral_unchecked_for_asset(
        &mut self,
        from: CollateralBalanceType,
        amount: u64,
        asset_type: [u8; 32],
        change_type: CollateralBalanceChangeType,
    )
        requires
            old(self).wf(),
            amount > 0,
            old(self).balances(from) is Some,
            asset_type == old(self).primary_asset() ==> {
                &&& amount as i64 != i64::MIN
                &&& primary_change_ok(*old(self), from, -(amount as i64))
                &&& old(self).global_primary() >= amount
            },
            asset_type != old(self).primary_asset() ==> {
                &&& old(self).stores().contains_key(asset_type)
                &&& secondary_balance_of(secondaries_of(old(self).balances(from)), asset_type)
                    >= amount
                &&& old(self).global_secondary().contains_key(asset_type)
                &&& old(self).global_secondary()[asset_type] >= amount
            },
        ensures
            final(self).wf(),
            asset_type == old(self).primary_asset() ==> primary_changed(
                *old(self),
                *final(self),
                from,
                -(amount as i64),
            ) && final(self).global_primary() == old(self).global_primary() - amount,
            asset_type != old(self).primary_asset() ==> {
                &&& final(self).global_secondary() == old(self).global_secondary().insert(
                    asset_type,
                    (old(self).global_secondary()[asset_type] - amount) as u64,
                )
                &&& final(self).balances(from) is Some
                &&& secondaries_of(final(self).balances(from)) == with_secondary_balance(
                    secondaries_of(old(self).balances(from)),
                    asset_type,
                    (secondary_balance_of(secondaries_of(old(self).balances(from)), asset_type)
                        - amount) as u64,
                )
                &&& primary_of(final(self).balances(from)) == primary_of(old(self).balances(from))
                &&& reserved_of(final(self).balances(from)) == reserved_of(
                    old(self).balances(from),
                )
                &&& final(self).other_balances_same(&*old(self), from)
                &&& final(self).same_assets(&*old(self))
                &&& final(self).global_primary() == old(self).global_primary()
            },
    {
        if addr_eq(&asset_type, &self.primary_asset_type) {
            self.withdraw_primary_collateral_unchecked(from, amount, change_type);
        } else {
            let current = *self.global_secondary_store_balances.get(&asset_type).unwrap();
            self.global_secondary_store_balances.insert(asset_type, current - amount);
            let mut b = match self.take_balances(from) {
                Some(b) => b,
                None => vstd::pervasive::unreached(),
            };
            let bal = get_secondary_balance(&b.secondary_balances, asset_type);
            set_secondary_balance(&mut b.secondary_balances, asset_type, bal - amount);
            self.put_balances(from, b);
            proof {
                assert(self.balances(from) is Some);
                assert(primary_of(self.balances(from)) == primary_of(old(self).balances(from)));
                assert(reserved_of(self.balances(from)) == reserved_of(old(self).balances(from)));
                assert(self.other_balances_same(&*old(self), from));
                assert(self.same_assets(&*old(self)));
            }
        }
    }

    fn transfer_primary_asset(
        &mut self,
        from: CollateralBalanceType,
        to: CollateralBalanceType,
        amount: u64,
    )
        requires
            old(self).wf(),
            transfer_ok(*old(self), from, to, amount),
        ensures
            final(self).wf(),
            primary_transferred(*old(self), *final(self), from, to, amount),
    {
        if amount == 0 {
            assert forall|b: CollateralBalanceType| #[trigger] self.balances(b) == old(self).balances(b) by {}
            return ;
        }
        let signed: i64 = #[verifier::truncate] (amount as i64);
        let mut fb = match self.take_balances(from) {
            Some(b) => b,
            None => vstd::pervasive::unreached(),
        };
        fb.primary_balance.add(-signed);
        self.put_balances(from, fb);
        let ghost mid = *self;
        let mut tb = match self.take_balances(to) {
            Some(b) => b,
            None => create_empty_collateral_balances(),
        };
        tb.primary_balance.add(signed);
        self.put_balances(to, tb);
        proof {
            assert(self.same_assets(&*old(self)));
            if from == to {
                assert(self.balances(from) is Some);
                assert(primary_of(self.balances(from)) == primary_of(old(self).balances(from)));
                assert(secondaries_of(self.balances(from)) == secondaries_of(old(self).balances(from)));
                assert(reserved_of(self.balances(from)) == reserved_of(old(self).balances(from)));
                assert forall|b: CollateralBalanceType| b != from implies #[trigger] self.balances(b) == old(self).balances(b) by {
                    assert(mid.balances(b) == old(self).balances(b));
                }
            } else {
                assert(self.balances(from) is Some);
                assert(self.balances(to) is Some);
                assert(primary_of(self.balances(from)) == primary_of(old(self).balances(from)) - (amount as i64));
                assert(primary_of(self.balances(to)) == primary_of(old(self).balances(to)) + (amount as i64));
                assert(secondaries_of(self.balances(from)) == secondaries_of(old(self).balances(from)));
                assert(secondaries_of(self.balances(to)) == secondaries_of(old(self).balances(to)));
                assert(reserved_of(self.balances(from)) == reserved_of(old(self).balances(from)));
                assert(reserved_of(self.balances(to)) == reserved_of(old(self).balances(to)));
                assert(mid.balances(to) == old(self).balances(to));
                assert(self.balances(from) == mid.balances(from));
                assert forall|b: CollateralBalanceType|
                    b != from && b != to implies #[trigger] self.balances(b) == old(self).balances(b) by {
                    assert(mid.balances(b) == old(self).balances(b));
                }
            }
        }
    }

    /// Moves `amount` of the primary asset from an account's cross-margin
    /// domain to its isolated domain in `market`.
    pub fn transfer_from_crossed_to_isolated(
        &mut self,
        account: [u8; 32],
        amount: u64,
        market: [u8; 32],
        _change_type: CollateralBalanceChangeType,
    )
        requires
            old(self).wf(),
            transfer_ok(
                *old(self),
                CollateralBalanceType::Cross { account },
                CollateralBalanceType::Isolated { account, market },
                amount,
            ),
        ensures
            final(self).wf(),
            primary_transferred(
                *old(self),
                *final(self),
                CollateralBalanceType::Cross { account },
                CollateralBalanceType::Isolated { account, market },
                amount,
            ),
    {
        self.transfer_primary_asset(
            balance_type_cross(account),
            balance_type_isolated(account, market),
            amount,
        );
    }

    /// Moves `amount` of the primary asset from an account's isolated domain
    /// in `market` back to its cross-margin domain.
    pub fn transfer_from_isolated_to_crossed(
        &mut self,
        account: [u8; 32],
        amount: u64,
        market: [u8; 32],
        _change_type: CollateralBalanceChangeType,
    )
        requires
            old(self).wf(),
            transfer_ok(
                *old(self),
                CollateralBalanceType::Isolated { account, market },
                CollateralBalanceType::Cross { account },
                amount,
            ),
        ensures
            final(self).wf(),
            primary_transferred(
                *old(self),
                *final(self),
                CollateralBalanceType::Isolated { account, market },
                CollateralBalanceType::Cross { account },
                amount,
            ),
    {
        self.transfer_primary_asset(
            balance_type_isolated(account, market),
            balance_type_cross(account),
            amount,
        );
    }

    /// Moves `amount` of the primary asset from `from` to a backstop
    /// liquidator.
    pub fn transfer_amount_to_backstop_liquidator(
        &mut self,
        from: CollateralBalanceType,
        liquidator: CollateralBalanceType,
        amount: u64,
    )
        requires
            old(self).wf(),
            transfer_ok(*old(self), from, liquidator, amount),
        ensures
            final(self).wf(),
            primary_transferred(*old(self), *final(self), from, liquidator, amount),
    {
        if amount == 0 {
            return ;
        }
        self.transfer_primary_asset(from, liquidator, amount);
    }

    /// Takes `amount` of the primary asset off `from` without changing the
    /// sheet's total (it is set against the other side's unrealised loss).
    pub fn decrease_balance_unchecked(
        &mut self,
        from: CollateralBalanceType,
        amount: u64,
        _from_change_type: CollateralBalanceChangeType,
    )
        requires
            old(self).wf(),
            amount != 0 ==> {
                &&& old(self).balances(from) is Some
                &&& amount as i64 != i64::MIN
                &&& primary_change_ok(*old(self), from, -(amount as i64))
            },
        ensures
            final(self).wf(),
            final(self).global_primary() == old(self).global_primary(),
            amount == 0 ==> forall|b: CollateralBalanceType| #[trigger] final(self).balances(b) == old(self).balances(b),
            amount == 0 ==> final(self).same_assets(&*old(self)) && final(self).global_secondary() == old(self).global_secondary(),
            amount != 0 ==> primary_changed(*old(self), *final(self), from, -(amount as i64)),
    {
        if amount == 0 {
            return ;
        }
        let mut b = match self.take_balances(from) {
            Some(b) => b,
            None => vstd::pervasive::unreached(),
        };
        let signed: i64 = #[verifier::truncate] (amount as i64);
        b.primary_balance.add(-signed);
        self.put_balances(from, b);
        proof {
            assert(self.balances(from) is Some);
            assert(primary_of(self.balances(from)) == primary_of(old(self).balances(from)) - (amount as i64));
            assert(secondaries_of(self.balances(from)) == secondaries_of(old(self).balances(from)));
            assert(reserved_of(self.balances(from)) == reserved_of(old(self).balances(from)));
            assert(self.other_balances_same(&*old(self), from));
            assert(self.same_assets(&*old(self)));
        }
    }

    /// Adds `amount` of the primary asset at `to` without changing the
    /// sheet's total (it is set against the other side's unrealised profit).
    pub fn increase_balance(
        &mut self,
        to: CollateralBalanceType,
        amount: u64,
        _to_change_type: CollateralBalanceChangeType,
    )
        requires
            old(self).wf(),
            amount != 0 ==> primary_change_ok(*old(self), to, amount as i64 as int),
        ensures
            final(self).wf(),
            final(self).global_primary() == old(self).global_primary(),
            amount == 0 ==> forall|b: CollateralBalanceType| #[trigger] final(self).balances(b) == old(self).balances(b),
            amount == 0 ==> final(self).same_assets(&*old(self)) && final(self).global_secondary() == old(self).global_secondary(),
            amount != 0 ==> primary_changed(*old(self), *final(self), to, amount as i64 as int),
    {
        if amount == 0 {
            return ;
        }
        let mut b = match self.take_balances(to) {
            Some(b) => b,
            None => create_empty_collateral_balances(),
        };
        b.primary_balance.add(#[verifier::truncate] (amount as i64));
        self.put_balances(to, b);
        proof {
            assert(self.balances(to) is Some);
            assert(primary_of(self.balances(to)) == primary_of(old(self).balances(to)) + amount as i64 as int);
            assert(secondaries_of(self.balances(to)) == secondaries_of(old(self).balances(to)));
            assert(reserved_of(self.balances(to)) == reserved_of(old(self).balances(to)));
            assert(self.other_balances_same(&*old(self), to));
            assert(self.same_assets(&*old(self)));
        }
    }
}

/// The balance a liquidator starts from when it takes over `from`: its own
/// (none where it is `from` itself, whose balance is taken out first).
pub open spec fn liquidator_base(
    s: CollateralBalanceSheet,
    from: CollateralBalanceType,
    liquidator: CollateralBalanceType,
) -> Option<CollateralBalances> {
    if liquidator == from {
        None
    } else {
        s.balances(liquidator)
    }
}

impl CollateralBalanceSheet {
    /// Moves everything at `from` to a backstop liquidator: the balance at
    /// `from` is removed, its primary collateral and its positive secondary
    /// balances are added to the liquidator's (created where missing); the
    /// sheet's totals do not change. Nothing happens where `from` has no
    /// balance.
    pub fn transfer_to_backstop_liquidator(
        &mut self,
        from: CollateralBalanceType,
        liquidator: CollateralBalanceType,
    )
        requires
            old(self).wf(),
            old(self).balances(from) matches Some(fb) ==> {
                &&& i64::MIN <= primary_of(liquidator_base(*old(self), from, liquidator))
                    + fb.primary_balance.view() <= i64::MAX
                &&& merge_ok(
                    secondaries_of(liquidator_base(*old(self), from, liquidator)),
                    fb.secondary_balances@,
                    fb.secondary_balances@.len(),
                )
            },
        ensures
            final(self).wf(),
            final(self).same_assets(&*old(self)),
            final(self).global_primary() == old(self).global_primary(),
            final(self).global_secondary() == old(self).global_secondary(),
            old(self).balances(from) is None ==> forall|b: CollateralBalanceType| #[trigger]
                final(self).balances(b) == old(self).balances(b),
            old(self).balances(from) matches Some(fb) ==> {
                &&& liquidator != from ==> final(self).balances(from) is None
                &&& final(self).balances(liquidator) is Some
                &&& primary_of(final(self).balances(liquidator)) == primary_of(
                    liquidator_base(*old(self), from, liquidator),
                ) + fb.primary_balance.view()
                &&& secondaries_of(final(self).balances(liquidator)) == merged_secondaries(
                    secondaries_of(liquidator_base(*old(self), from, liquidator)),
                    fb.secondary_balances@,
                    fb.secondary_balances@.len(),
                )
                &&& reserved_of(final(self).balances(liquidator)) == reserved_of(
                    liquidator_base(*old(self), from, liquidator),
                )
                &&& forall|b: CollateralBalanceType|
                    b != from && b != liquidator ==> #[trigger] final(self).balances(b) == old(
                        self,
                    ).balances(b)
            },
    {
        let from_balances = match self.take_balances(from) {
            Some(b) => b,
            None => {
                return ;
            },
        };
        let ghost mid = *self;
        let from_balance_i64 = from_balances.primary_balance.read();
        let mut lb = match self.take_balances(liquidator) {
            Some(b) => b,
            None => create_empty_collateral_balances(),
        };
        proof {
            assert(mid.balances(liquidator) == liquidator_base(*old(self), from, liquidator));
            assert(lb.secondary_balances@ =~= secondaries_of(liquidator_base(*old(self), from, liquidator)));
            assert(old(self).balances(from) == Some(from_balances));
        }
        let ghost base_primary = lb.primary_balance.view();
        let ghost base_reserved = lb.reserved_amount;
        if from_balance_i64 != 0 {
            lb.primary_balance.add(from_balance_i64);
        }
        assert(lb.primary_balance.view() == base_primary + from_balance_i64);
        let src = &from_balances.secondary_balances;
        let ghost init = lb.secondary_balances@;
        let n = src.len();
        let mut i: usize = 0;
        while i < n
            invariant
                n == src@.len(),
                i <= n,
                merge_ok(init, src@, n as nat),
                lb.secondary_balances@ == merged_secondaries(init, src@, i as nat),
                lb.primary_balance.view() == base_primary + from_balance_i64,
                lb.reserved_amount == base_reserved,
            decreases n - i,
        {
            proof {
                lemma_merge_ok_prefix(init, src@, (i + 1) as nat, n as nat);
            }
            let AssetBalance::V1 { asset_type, balance } = src[i];
            if balance > 0 {
                let cur = get_secondary_balance(&lb.secondary_balances, asset_type);
                set_secondary_balance(&mut lb.secondary_balances, asset_type, cur + balance);
            }
            i += 1;
        }
        proof {
            assert(lb.primary_balance.view() == base_primary + from_balance_i64);
            assert(base_primary == primary_of(liquidator_base(*old(self), from, liquidator)));
            assert(base_reserved == reserved_of(liquidator_base(*old(self), from, liquidator)));
            assert(lb.secondary_balances@ == merged_secondaries(secondaries_of(liquidator_base(*old(self), from, liquidator)), from_balances.secondary_balances@, from_balances.secondary_balances@.len()));
        }
        self.put_balances(liquidator, lb);
        proof {
            assert(self.same_assets(&*old(self)));
            assert(self.balances(liquidator) is Some);
            if liquidator != from {
                assert(self.balances(from) is None);
            }
            assert forall|b: CollateralBalanceType|
                b != from && b != liquidator implies #[trigger] self.balances(b) == old(self).balances(
                b,
            ) by {
                assert(mid.balances(b) == old(self).balances(b));
            }
        }
    }
}

/// Depositing an amount of the primary asset at a balance and then
/// withdrawing the same amount from it gives back that balance's primary
/// collateral and the sheet's total, and leaves every other balance as it
/// was (for amounts that are positive numbers when read as signed ones).
pub proof fn lemma_deposit_then_withdraw_restores(
    s0: CollateralBalanceSheet,
    s1: CollateralBalanceSheet,
    s2: CollateralBalanceSheet,
    bt: CollateralBalanceType,
    amount: u64,
)
    requires
        0 < amount <= i64::MAX,
        primary_changed(s0, s1, bt, amount as i64 as int),
        s1.global_primary() == s0.global_primary() + amount,
        primary_changed(s1, s2, bt, -(amount as i64)),
        s2.global_primary() == s1.global_primary() - amount,
    ensures
        primary_of(s2.balances(bt)) == primary_of(s0.balances(bt)),
        secondaries_of(s2.balances(bt)) == secondaries_of(s0.balances(bt)),
        reserved_of(s2.balances(bt)) == reserved_of(s0.balances(bt)),
        s2.global_primary() == s0.global_primary(),
        s2.other_balances_same(&s0, bt),
{
    assert forall|b: CollateralBalanceType| b != bt implies #[trigger] s2.balances(b) == s0.balances(b) by {
        assert(s1.balances(b) == s0.balances(b));
    }
}

/// Moving primary collateral between two different balances keeps their sum
/// and the sheet's total (for amounts that are positive numbers when read as
/// signed ones).
pub proof fn lemma_transfer_conserves_primary(
    s0: CollateralBalanceSheet,
    s1: CollateralBalanceSheet,
    from: CollateralBalanceType,
    to: CollateralBalanceType,
    amount: u64,
)
    requires
        amount <= i64::MAX,
        from != to,
        primary_transferred(s0, s1, from, to, amount),
    ensures
        primary_of(s1.balances(from)) + primary_of(s1.balances(to)) == primary_of(s0.balances(from))
            + primary_of(s0.balances(to)),
        s1.global_primary() == s0.global_primary(),
{
    if amount == 0 {
        assert(s1.balances(from) == s0.balances(from));
        assert(s1.balances(to) == s0.balances(to));
    }
}

} // verus!
