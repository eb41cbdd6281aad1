//! Builder codes: a front end ("builder") may charge a fee on the orders it
//! routes, up to the maximum that the account approved and the global cap.
use vstd::prelude::*;
use crate::addr_map::{AddrMap, addr_eq};

verus! {

pub const EINVALID_AMOUNT: u64 = 1;

pub const EBUILDER_NOT_REGISTERED: u64 = 2;

pub const EINVALID_ADDRESS: u64 = 3;

pub const EINVALID_MAX_FEE: u64 = 4;

/// Fees are counted in units of 1/1_000_000 of the notional.
pub const FEE_PRECISION: u64 = 10000;

#[derive(Clone, Copy, Debug)]
pub struct BuilderCode {
    pub builder: [u8; 32],
    pub fees: u64,
}

#[derive(Clone, Copy, Debug)]
pub struct BuilderAndAccount {
    pub account: [u8; 32],
    pub builder: [u8; 32],
}

/// The global cap and, per account and builder, the maximum fee approved.
pub enum Registry {
    V1 { global_max_fee: u64, approved_max_fees: AddrMap<AddrMap<u64>> },
}

impl Registry {
    pub open spec fn global_max(&self) -> u64 {
        self->global_max_fee
    }

    pub open spec fn approvals(&self) -> AddrMap<AddrMap<u64>> {
        self->approved_max_fees
    }

    pub open spec fn wf(&self) -> bool {
        &&& self.approvals().wf()
        &&& forall|a: [u8; 32]| #[trigger]
            self.approvals().view().contains_key(a) ==> self.approvals().view()[a].wf()
    }

    /// The maximum fee that `account` approved for `builder`, as stored.
    pub open spec fn approved(&self, account: [u8; 32], builder: [u8; 32]) -> Option<u64> {
        if self.approvals().view().contains_key(account) && self.approvals().view()[
        account].view().contains_key(builder) {
            Some(self.approvals().view()[account].view()[builder])
        } else {
            None
        }
    }
}

/// A registry with no approvals, created by the dex's own address only.
pub fn initialize(admin_addr: [u8; 32], decibel_dex_addr: [u8; 32], global_max_fee: u64) -> (r:
    Result<Registry, u64>)
    ensures
        admin_addr != decibel_dex_addr ==> r == Err::<Registry, u64>(EINVALID_ADDRESS),
        admin_addr == decibel_dex_addr ==> (r matches Ok(reg) && reg.wf() && reg.global_max()
            == global_max_fee && forall|a: [u8; 32], b: [u8; 32]| reg.approved(a, b) is None),
{
    if !addr_eq(&admin_addr, &decibel_dex_addr) {
        return Err(EINVALID_ADDRESS);
    }
    let approved_max_fees = AddrMap::new();
    Ok(Registry::V1 { global_max_fee, approved_max_fees })
}

/// A builder code for `builder` with `fees`, which must be positive and
/// within the global cap.
pub fn new_builder_code(registry: &Registry, builder: [u8; 32], fees: u64) -> (r: Result<
    BuilderCode,
    u64,
>)
    ensures
        fees == 0 ==> r == Err::<BuilderCode, u64>(EINVALID_AMOUNT),
        fees != 0 && fees > registry.global_max() ==> r == Err::<BuilderCode, u64>(
            EINVALID_MAX_FEE,
        ),
        fees != 0 && fees <= registry.global_max() ==> r == Ok::<BuilderCode, u64>(
            BuilderCode { builder, fees },
        ),
{
    let Registry::V1 { global_max_fee, .. } = registry;
    if fees == 0 {
        return Err(EINVALID_AMOUNT);
    }
    if fees > *global_max_fee {
        return Err(EINVALID_MAX_FEE);
    }
    Ok(BuilderCode { builder, fees })
}

pub fn set_global_max_fee(registry: &mut Registry, new_max_fee: u64)
    requires
        old(registry).wf(),
    ensures
        final(registry).wf(),
        final(registry).global_max() == new_max_fee,
        final(registry).approvals() == old(registry).approvals(),
{
    let Registry::V1 { global_max_fee, .. } = registry;
    *global_max_fee = new_max_fee;
}

/// Records that `user_address` accepts fees up to `max_fee` from `builder`.
pub fn approve_max_fee(
    registry: &mut Registry,
    user_address: [u8; 32],
    builder: [u8; 32],
    max_fee: u64,
) -> (r: Result<(), u64>)
    requires
        old(registry).wf(),
    ensures
        final(registry).wf(),
        final(registry).global_max() == old(registry).global_max(),
        max_fee > old(registry).global_max() ==> r == Err::<(), u64>(EINVALID_MAX_FEE) && forall|
            a: [u8; 32],
            b: [u8; 32],
        | final(registry).approved(a, b) == old(registry).approved(a, b),
        max_fee <= old(registry).global_max() ==> r == Ok::<(), u64>(()) && forall|
            a: [u8; 32],
            b: [u8; 32],
        |
            #[trigger] final(registry).approved(a, b) == if a == user_address && b == builder {
                Some(max_fee)
            } else {
                old(registry).approved(a, b)
            },
{
    let Registry::V1 { global_max_fee, approved_max_fees } = registry;
    if max_fee > *global_max_fee {
        return Err(EINVALID_MAX_FEE);
    }
    let ghost outer_before = approved_max_fees.view();
    let mut inner = match approved_max_fees.remove(&user_address) {
        Some(m) => m,
        None => AddrMap::new(),
    };
    let ghost inner_before = inner.view();
    inner.insert(builder, max_fee);
    approved_max_fees.insert(user_address, inner);
    proof {
        assert forall|a: [u8; 32]| #[trigger]
            approved_max_fees.view().contains_key(a) implies approved_max_fees.view()[a].wf() by {
            if a != user_address {
                assert(outer_before.contains_key(a));
            }
        }
        assert forall|a: [u8; 32], b: [u8; 32]|
            #[trigger] registry.approved(a, b) == if a == user_address && b == builder {
                Some(max_fee)
            } else {
                old(registry).approved(a, b)
            } by {
            if a == user_address {
                if outer_before.contains_key(a) {
                    assert(inner_before == outer_before[a].view());
                } else {
                    assert(inner_before == Map::<[u8; 32], u64>::empty());
                }
            }
        }
    }
    Ok(())
}

/// Withdraws the approval of `builder` by `user_address`.
pub fn revoke_max_fee(registry: &mut Registry, user_address: [u8; 32], builder: [u8; 32]) -> (r:
    Result<(), u64>)
    requires
        old(registry).wf(),
    ensures
        final(registry).wf(),
        final(registry).global_max() == old(registry).global_max(),
        old(registry).approved(user_address, builder) is None ==> r == Err::<(), u64>(
            EBUILDER_NOT_REGISTERED,
        ),
        old(registry).approved(user_address, builder) is Some ==> r == Ok::<(), u64>(()),
        forall|a: [u8; 32], b: [u8; 32]|
            #[trigger] final(registry).approved(a, b) == if a == user_address && b == builder {
                None
            } else {
                old(registry).approved(a, b)
            },
{
    let Registry::V1 { approved_max_fees, .. } = registry;
    let ghost outer_before = approved_max_fees.view();
    match approved_max_fees.remove(&user_address) {
        None => {
            proof {
                assert(approved_max_fees.view() =~= outer_before);
            }
            Err(EBUILDER_NOT_REGISTERED)
        },
        Some(mut inner) => {
            let ghost inner_before = inner.view();
            let removed = inner.remove(&builder);
            approved_max_fees.insert(user_address, inner);
            proof {
                assert forall|a: [u8; 32]| #[trigger]
                    approved_max_fees.view().contains_key(a) implies approved_max_fees.view()[a].wf() by {
                    if a != user_address {
                        assert(outer_before.contains_key(a));
                    }
                }
                assert forall|a: [u8; 32], b: [u8; 32]|
                    #[trigger] registry.approved(a, b) == if a == user_address && b == builder {
                        None
                    } else {
                        old(registry).approved(a, b)
                    } by {
                    if a == user_address {
                        assert(inner_before == outer_before[a].view());
                    }
                }
            }
            match removed {
                None => Err(EBUILDER_NOT_REGISTERED),
                Some(_) => Ok(()),
            }
        },
    }
}

/// The fee rate that applies: the approval capped by the global cap.
pub open spec fn approved_max_fee_spec(registry: Registry, user: [u8; 32], builder: [u8; 32]) -> Option<u64> {
    match registry.approved(user, builder) {
        None => None,
        Some(fee) => Some(
            if fee < registry.global_max() {
                fee
            } else {
                registry.global_max()
            },
        ),
    }
}

/// `notional * rate / 1_000_000`, truncated to 64 bits.
pub open spec fn fee_from_basis_points_spec(notional: u128, rate: u64) -> u64 {
    ((notional * rate) / 1_000_000int) as u64
}

/// The builder fee on a trade of `notional_value`: the smaller of the code's
/// fee and the approved maximum, applied to the notional; zero without an
/// approval.
pub fn get_builder_fee_for_notional(
    registry: &Registry,
    account: [u8; 32],
    code: BuilderCode,
    notional_value: u128,
) -> (r: u64)
    requires
        registry.wf(),
        notional_value * code.fees <= u128::MAX,
    ensures
        r == match approved_max_fee_spec(*registry, account, code.builder) {
            None => 0,
            Some(max_fee) => if max_fee == 0 {
                0
            } else {
                fee_from_basis_points_spec(
                    notional_value,
                    if max_fee < code.fees {
                        max_fee
                    } else {
                        code.fees
                    },
                )
            },
        },
{
    let approved_max_fee = get_approved_max_fee(registry, account, code.builder);
    match approved_max_fee {
        None => 0,
        Some(max_fee) => {
            if max_fee == 0 {
                return 0;
            }
            let fee = if max_fee < code.fees {
                max_fee
            } else {
                code.fees
            };
            assert(notional_value * fee <= notional_value * code.fees) by (nonlinear_arith)
                requires
                    fee <= code.fees,
                    notional_value >= 0,
            ;
            compute_fee_from_basis_points(notional_value, fee)
        },
    }
}

pub fn get_fees_from_builder_code(code: &BuilderCode) -> (r: u64)
    ensures
        r == code.fees,
{
    code.fees
}

pub fn get_builder_from_builder_code(code: &BuilderCode) -> (r: [u8; 32])
    ensures
        r == code.builder,
{
    code.builder
}

pub fn compute_fee_from_basis_points(notional_value: u128, fee_basis_points: u64) -> (r: u64)
    requires
        notional_value * fee_basis_points <= u128::MAX,
    ensures
        r == fee_from_basis_points_spec(notional_value, fee_basis_points),
{
    let numerator = notional_value * (fee_basis_points as u128);
    let denominator = (FEE_PRECISION * 100) as u128;
    (numerator / denominator) as u64
}

/// Whether the code's fee is within the account's approval for its builder.
pub fn validate_builder_code(registry: &Registry, account: [u8; 32], code: &BuilderCode) -> (r:
    Result<(), u64>)
    requires
        registry.wf(),
    ensures
        r == match approved_max_fee_spec(*registry, account, code.builder) {
            None => Err::<(), u64>(EBUILDER_NOT_REGISTERED),
            Some(max_fee) => if code.fees > max_fee {
                Err(EINVALID_MAX_FEE)
            } else {
                Ok(())
            },
        },
{
    let fees = code.fees;
    let approved_max_fee = get_approved_max_fee(registry, account, code.builder);
    match approved_max_fee {
        None => Err(EBUILDER_NOT_REGISTERED),
        Some(max_fee) => {
            if fees > max_fee {
                Err(EINVALID_MAX_FEE)
            } else {
                Ok(())
            }
        },
    }
}

pub fn is_builder_code_valid(registry: &Registry, account: [u8; 32], code: &BuilderCode) -> (r:
    bool)
    requires
        registry.wf(),
    ensures
        r == match approved_max_fee_spec(*registry, account, code.builder) {
            None => false,
            Some(max_fee) => code.fees <= max_fee,
        },
{
    let fees = code.fees;
    let approved_max_fee = get_approved_max_fee(registry, account, code.builder);
    match approved_max_fee {
        None => false,
        Some(max_fee) => fees <= max_fee,
    }
}

/// The approved maximum fee of `user` for `builder`, capped by the global
/// cap.
pub fn get_approved_max_fee(registry: &Registry, user: [u8; 32], builder: [u8; 32]) -> (r: Option<
    u64,
>)
    requires
        registry.wf(),
    ensures
        r == approved_max_fee_spec(*registry, user, builder),
{
    let Registry::V1 { global_max_fee, approved_max_fees } = registry;
    match approved_max_fees.get(&user) {
        None => None,
        Some(inner) => match inner.get(&builder) {
            None => None,
            Some(fee) => Some(
                if *fee < *global_max_fee {
                    *fee
                } else {
                    *global_max_fee
                },
            ),
        },
    }
}

/// An approval reads back as the approved fee capped by the global cap, and
/// a revoked approval reads back as none.
pub proof fn lemma_approve_then_get(
    before: Registry,
    after: Registry,
    user: [u8; 32],
    builder: [u8; 32],
    max_fee: u64,
)
    requires
        after.global_max() == before.global_max(),
        max_fee <= before.global_max(),
        after.approved(user, builder) == Some(max_fee),
    ensures
        approved_max_fee_spec(after, user, builder) == Some(max_fee),
{
}

} // verus!
