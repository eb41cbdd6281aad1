//! Subaccounts: deterministic addresses, ownership, delegated permissions
//! (with expirations and sub-delegation chains of bounded depth), and the
//! owner-or-delegate checks in front of every subaccount operation.
//!
//! The on-chain resources (the `Subaccount` record and the object's owner)
//! and the current time are supplied by the host; without a host this library
//! reads no subaccount (every read is absent), every owner as the zero
//! address and the time as zero, and the contracts below state the results
//! for those readings.
use vstd::prelude::*;
use crate::addr_map::{addr_eq, is_zero_addr, lemma_addr_ext, lemma_zero_addr_unique, zero_addr, zero_addr_spec};
use crate::std_hash::{create_object_address, object_address_spec};

verus! {

pub const ENOT_SUBACCOUNT_OWNER: u64 = 1;

pub const ESUBACCOUNT_DOESNT_EXIST: u64 = 2;

pub const ENOT_SUBACCOUNT_OWNER_OR_LACKS_PERP_TRADING_PERMISSIONS: u64 = 3;

pub const ENOT_SUBACCOUNT_OWNER_OR_LACKS_VAULT_TRADING_PERMISSIONS: u64 = 4;

pub const ENOT_SUBACCOUNT_OWNER_OR_LACKS_FUNDS_MOVEMENT_PERMISSIONS: u64 = 5;

pub const ENOT_SUBACCOUNT_OWNER_OR_LACKS_SUB_DELEGATION_PERMISSIONS: u64 = 6;

pub const ECANNOT_TRANSFER_BETWEEN_DIFFERENT_OWNERS: u64 = 7;

pub const ESUBACCOUNT_IS_NOT_ACTIVE: u64 = 8;

pub const ESUBACCOUNT_HAS_ASSETS_OR_POSITIONS: u64 = 9;

pub const ESEED_CANNOT_BE_PRIMARY_SUBACCOUNT_SEED: u64 = 10;

/// The longest chain of sub-delegations that still grants a permission.
pub const MAX_DELEGATION_DEPTH: u64 = 2;

/// The seed of every account's primary subaccount: `b"primary_subaccount"`.
pub open spec fn primary_seed() -> Seq<u8> {
    seq![
        112u8,
        114u8,
        105u8,
        109u8,
        97u8,
        114u8,
        121u8,
        95u8,
        115u8,
        117u8,
        98u8,
        97u8,
        99u8,
        99u8,
        111u8,
        117u8,
        110u8,
        116u8,
    ]
}

/// The seed of the global subaccount manager: `b"GlobalSubaccountManager"`.
pub open spec fn manager_seed() -> Seq<u8> {
    seq![
        71u8,
        108u8,
        111u8,
        98u8,
        97u8,
        108u8,
        83u8,
        117u8,
        98u8,
        97u8,
        99u8,
        99u8,
        111u8,
        117u8,
        110u8,
        116u8,
        77u8,
        97u8,
        110u8,
        97u8,
        103u8,
        101u8,
        114u8,
    ]
}

fn primary_seed_bytes() -> (r: Vec<u8>)
    ensures
        r@ == primary_seed(),
{
    let r: Vec<u8> = vec![
        112u8,
        114u8,
        105u8,
        109u8,
        97u8,
        114u8,
        121u8,
        95u8,
        115u8,
        117u8,
        98u8,
        97u8,
        99u8,
        99u8,
        111u8,
        117u8,
        110u8,
        116u8,
    ];
    assert(r@ =~= primary_seed());
    r
}

fn manager_seed_bytes() -> (r: Vec<u8>)
    ensures
        r@ == manager_seed(),
{
    let r: Vec<u8> = vec![
        71u8,
        108u8,
        111u8,
        98u8,
        97u8,
        108u8,
        83u8,
        117u8,
        98u8,
        97u8,
        99u8,
        99u8,
        111u8,
        117u8,
        110u8,
        116u8,
        77u8,
        97u8,
        110u8,
        97u8,
        103u8,
        101u8,
        114u8,
    ];
    assert(r@ =~= manager_seed());
    r
}

#[derive(Clone, Copy, Debug)]
pub enum StoredPermission {
    Unlimited,
    UnlimitedUntil(u64),
    UnlimitedVia { authorized_by: [u8; 32] },
    UnlimitedUntilVia { authorized_by: [u8; 32], expiration_time_s: u64 },
}

#[derive(Clone, Copy, Debug)]
pub enum PermissionType {
    TradePerpsAllMarkets,
    TradePerpsOnMarket { market: [u8; 32] },
    SubaccountFundsMovement,
    SubDelegate,
    TradeVaultTokens,
}

/// The permissions granted to one delegate: permission index to grant.
#[derive(Clone, Debug)]
pub enum DelegatedPermissions {
    V1 { perms: Vec<(u8, StoredPermission)> },
}

/// The subaccount record.
#[derive(Clone, Debug)]
pub enum Subaccount {
    V1 {
        extend_ref: Vec<u8>,
        delegated_permissions: Vec<([u8; 32], DelegatedPermissions)>,
        is_active: bool,
    },
}

#[derive(Clone, Debug)]
pub struct SubaccountSeed {
    pub owner_addr: [u8; 32],
    pub seed: Vec<u8>,
}

#[derive(Clone, Debug)]
pub enum SubaccountCreatedEvent {
    V1 { subaccount: [u8; 32], owner: [u8; 32], is_primary: bool, seed: Option<Vec<u8>> },
}

#[derive(Clone, Debug)]
pub enum DelegationChangedEvent {
    V1 {
        subaccount: [u8; 32],
        delegated_account: [u8; 32],
        delegation: Option<PermissionType>,
        expiration_time_s: Option<u64>,
    },
}

#[derive(Clone, Debug)]
pub enum SubaccountActiveChangedEvent {
    V1 { subaccount: [u8; 32], owner: [u8; 32], is_active: bool },
}

#[derive(Clone, Debug)]
pub enum GlobalDexAccountsConfig {
    V1 { subaccount_manager_extend_ref: Vec<u8> },
}

/// The index under which a permission type is stored.
pub open spec fn permission_key(p: PermissionType) -> u8 {
    match p {
        PermissionType::TradePerpsAllMarkets => 0,
        PermissionType::TradePerpsOnMarket { .. } => 1,
        PermissionType::SubaccountFundsMovement => 2,
        PermissionType::SubDelegate => 3,
        PermissionType::TradeVaultTokens => 4,
    }
}

fn permission_type_to_key(perm: &PermissionType) -> (r: u8)
    ensures
        r == permission_key(*perm),
{
    match perm {
        PermissionType::TradePerpsAllMarkets => 0,
        PermissionType::TradePerpsOnMarket { .. } => 1,
        PermissionType::SubaccountFundsMovement => 2,
        PermissionType::SubDelegate => 3,
        PermissionType::TradeVaultTokens => 4,
    }
}

/// The address of the global subaccount manager.
pub open spec fn manager_address() -> Seq<u8> {
    object_address_spec(Seq::new(32, |i: int| 0u8), manager_seed())
}

/// The ULEB128 encoding of a length.
pub open spec fn uleb128(n: nat) -> Seq<u8>
    decreases n,
{
    if n < 128 {
        seq![n as u8]
    } else {
        seq![((n % 128) + 128) as u8] + uleb128(n / 128)
    }
}

/// The BCS encoding of `SubaccountSeed { owner_addr, seed }`: the address,
/// then the seed's length in ULEB128, then the seed.
pub open spec fn subaccount_seed_bcs(owner: Seq<u8>, seed: Seq<u8>) -> Seq<u8> {
    owner + uleb128(seed.len()) + seed
}

/// The address of the subaccount of `owner` made with `seed`.
pub open spec fn subaccount_address_spec(owner: Seq<u8>, seed: Seq<u8>) -> Seq<u8> {
    object_address_spec(manager_address(), subaccount_seed_bcs(owner, seed))
}

fn global_subaccount_manager_address() -> (r: [u8; 32])
    ensures
        r@ == manager_address(),
{
    let decibel_dex_addr = zero_addr();
    let seed = manager_seed_bytes();
    proof {
        assert(decibel_dex_addr@ =~= Seq::new(32, |i: int| 0u8));
    }
    create_object_address(&decibel_dex_addr, seed.as_slice())
}

fn bcs_encode_subaccount_seed(owner_addr: [u8; 32], seed: &[u8]) -> (r: Vec<u8>)
    ensures
        r@ == subaccount_seed_bcs(owner_addr@, seed@),
{
    let mut encoded: Vec<u8> = Vec::new();
    let mut i: usize = 0;
    while i < 32
        invariant
            i <= 32,
            encoded@ == owner_addr@.subrange(0, i as int),
        decreases 32 - i,
    {
        encoded.push(owner_addr[i]);
        i += 1;
        assert(encoded@ =~= owner_addr@.subrange(0, i as int));
    }
    assert(owner_addr@.subrange(0, 32) =~= owner_addr@);
    let len = seed.len();
    let ghost prefix = encoded@;
    let mut val = len;
    let ghost mut written: Seq<u8> = Seq::empty();
    proof {
        reveal_with_fuel(uleb128, 2);
    }
    while val >= 128
        invariant
            encoded@ == prefix + written,
            written + uleb128(val as nat) == uleb128(len as nat),
        decreases val,
    {
        proof {
            assert(uleb128(val as nat) == seq![((val % 128) + 128) as u8] + uleb128(
                (val / 128) as nat,
            ));
        }
        encoded.push(((val % 128) as u8) | 0x80);
        proof {
            let b = ((val % 128) as u8) | 0x80;
            let m = (val % 128) as u8;
            assert(m < 128);
            assert(m | 0x80 == m + 128) by (bit_vector)
                requires
                    m < 128,
            ;
            written = written.push(b);
            assert(written + uleb128((val / 128) as nat) =~= uleb128(len as nat));
        }
        val = val / 128;
    }
    encoded.push(val as u8);
    proof {
        written = written.push(val as u8);
        assert(written =~= uleb128(len as nat));
    }
    let mut j: usize = 0;
    let ghost before_seed = encoded@;
    while j < seed.len()
        invariant
            j <= seed@.len(),
            encoded@ == before_seed + seed@.subrange(0, j as int),
        decreases seed@.len() - j,
    {
        encoded.push(seed[j]);
        j += 1;
        assert(encoded@ =~= before_seed + seed@.subrange(0, j as int));
    }
    assert(seed@.subrange(0, seed@.len() as int) =~= seed@);
    assert(encoded@ =~= subaccount_seed_bcs(owner_addr@, seed@));
    encoded
}

fn compute_subaccount_address(owner_addr: [u8; 32], seed: &[u8]) -> (r: [u8; 32])
    ensures
        r@ == subaccount_address_spec(owner_addr@, seed@),
{
    let manager_addr = global_subaccount_manager_address();
    let full_seed = bcs_encode_subaccount_seed(owner_addr, seed);
    create_object_address(&manager_addr, full_seed.as_slice())
}

/// Whether a stored permission is in force at `check_time`.
pub open spec fn stored_permission_valid_at(p: StoredPermission, check_time: u64) -> bool {
    match p {
        StoredPermission::Unlimited => true,
        StoredPermission::UnlimitedUntil(expiration) => check_time < expiration,
        StoredPermission::UnlimitedVia { .. } => true,
        StoredPermission::UnlimitedUntilVia { expiration_time_s, .. } => check_time
            < expiration_time_s,
    }
}

fn is_stored_permission_valid_at(permission: &StoredPermission, check_time: u64) -> (r: bool)
    ensures
        r == stored_permission_valid_at(*permission, check_time),
{
    match permission {
        StoredPermission::Unlimited => true,
        StoredPermission::UnlimitedUntil(expiration) => check_time < *expiration,
        StoredPermission::UnlimitedVia { .. } => true,
        StoredPermission::UnlimitedUntilVia { expiration_time_s, .. } => check_time
            < *expiration_time_s,
    }
}

/// The subaccount record stored at an address: without a host there is none.
pub open spec fn stored_subaccount(subaccount_addr: [u8; 32]) -> Option<Subaccount> {
    None
}

fn get_subaccount_resource(subaccount_addr: [u8; 32]) -> (r: Option<Subaccount>)
    ensures
        r == stored_subaccount(subaccount_addr),
{
    None
}

/// The owner of a subaccount object, as the host reports it: without a host
/// the zero address.
fn get_subaccount_owner(_subaccount_addr: [u8; 32]) -> (r: [u8; 32])
    ensures
        is_zero_addr(r),
{
    zero_addr()
}

/// The owner check: without a host, only the zero address owns subaccounts.
pub open spec fn owns(owner: [u8; 32]) -> bool {
    is_zero_addr(owner)
}

fn is_subaccount_owner(owner_addr: [u8; 32], subaccount_addr: [u8; 32]) -> (r: bool)
    ensures
        r == owns(owner_addr),
{
    let o = get_subaccount_owner(subaccount_addr);
    let r = addr_eq(&o, &owner_addr);
    proof {
        lemma_zero_addr_unique(o);
        if is_zero_addr(owner_addr) {
            lemma_zero_addr_unique(owner_addr);
        }
    }
    r
}

/// The stored grant of `key` in a delegate's permissions (the first entry).
pub open spec fn lookup_perm(s: Seq<(u8, StoredPermission)>, key: u8) -> Option<StoredPermission>
    decreases s.len(),
{
    if s.len() == 0 {
        None
    } else if s[0].0 == key {
        Some(s[0].1)
    } else {
        lookup_perm(s.drop_first(), key)
    }
}

/// The permissions of the first delegation entry for `auth`.
pub open spec fn delegate_entry(
    s: Seq<([u8; 32], DelegatedPermissions)>,
    auth: [u8; 32],
) -> Option<Seq<(u8, StoredPermission)>>
    decreases s.len(),
{
    if s.len() == 0 {
        None
    } else if s[0].0 == auth {
        Some(s[0].1->perms@)
    } else {
        delegate_entry(s.drop_first(), auth)
    }
}

/// Whether a grant satisfies the request: in force at `check_time`, and,
/// for a grant made by another account, that account is the owner or itself
/// holds one of the permissions (one level less deep).
pub open spec fn grant_ok(
    sp: StoredPermission,
    check_time: u64,
    res: Subaccount,
    perms: Seq<PermissionType>,
    dneb: u64,
    depth: nat,
) -> bool
    decreases depth, 0nat,
{
    match sp {
        StoredPermission::Unlimited => true,
        StoredPermission::UnlimitedUntil(exp) => exp > check_time,
        StoredPermission::UnlimitedVia { authorized_by } => depth >= 1 && (owns(authorized_by)
            || any_permission_granted(authorized_by, res, perms, dneb, (depth - 1) as nat)),
        StoredPermission::UnlimitedUntilVia { authorized_by, expiration_time_s } => depth >= 1
            && expiration_time_s > check_time && (owns(authorized_by) || any_permission_granted(
            authorized_by,
            res,
            perms,
            dneb,
            (depth - 1) as nat,
        )),
    }
}

/// Whether `auth` holds one of `perms` on the subaccount, through a chain of
/// at most `depth` delegations, not expiring before `dneb` (nor before now,
/// which is zero without a host).
pub open spec fn any_permission_granted(
    auth: [u8; 32],
    res: Subaccount,
    perms: Seq<PermissionType>,
    dneb: u64,
    depth: nat,
) -> bool
    decreases depth, 1nat,
{
    if depth == 0 {
        false
    } else {
        match delegate_entry(res->delegated_permissions@, auth) {
            None => false,
            Some(entry) => exists|i: int|
                0 <= i < perms.len() && (#[trigger] lookup_perm(
                    entry,
                    permission_key(perms[i]),
                ) matches Some(sp) && grant_ok(sp, dneb, res, perms, dneb, depth)),
        }
    }
}

fn find_delegate(delegated: &Vec<([u8; 32], DelegatedPermissions)>, auth: [u8; 32]) -> (r: Option<
    usize,
>)
    ensures
        r is None ==> delegate_entry(delegated@, auth) is None,
        r matches Some(i) ==> i < delegated@.len() && delegate_entry(delegated@, auth) == Some(
            delegated@[i as int].1->perms@,
        ),
{
    let mut i: usize = 0;
    assert(delegated@.skip(0) =~= delegated@);
    while i < delegated.len()
        invariant
            i <= delegated@.len(),
            delegate_entry(delegated@, auth) == delegate_entry(delegated@.skip(i as int), auth),
        decreases delegated@.len() - i,
    {
        proof {
            assert(delegated@.skip(i as int).drop_first() =~= delegated@.skip(i + 1));
        }
        if addr_eq(&delegated[i].0, &auth) {
            return Some(i);
        }
        i += 1;
    }
    None
}

fn find_perm(perms: &Vec<(u8, StoredPermission)>, key: u8) -> (r: Option<StoredPermission>)
    ensures
        r == lookup_perm(perms@, key),
{
    let mut i: usize = 0;
    assert(perms@.skip(0) =~= perms@);
    while i < perms.len()
        invariant
            i <= perms@.len(),
            lookup_perm(perms@, key) == lookup_perm(perms@.skip(i as int), key),
        decreases perms@.len() - i,
    {
        proof {
            assert(perms@.skip(i as int).drop_first() =~= perms@.skip(i + 1));
        }
        if perms[i].0 == key {
            return Some(perms[i].1);
        }
        i += 1;
    }
    None
}

fn is_any_permission_granted(
    auth: [u8; 32],
    subaccount_addr: [u8; 32],
    subaccount_resource: &Subaccount,
    permissions: &[PermissionType],
    doesnt_expire_before_s: u64,
    max_depth: u64,
) -> (r: bool)
    ensures
        r == any_permission_granted(
            auth,
            *subaccount_resource,
            permissions@,
            doesnt_expire_before_s,
            max_depth as nat,
        ),
    decreases max_depth, 1nat,
{
    if max_depth == 0 {
        return false;
    }
    let now: u64 = 0;
    let check_time = if now > doesnt_expire_before_s {
        now
    } else {
        doesnt_expire_before_s
    };
    let delegated_permissions = match subaccount_resource {
        Subaccount::V1 { delegated_permissions, .. } => delegated_permissions,
    };
    let idx = find_delegate(delegated_permissions, auth);
    let entry = match idx {
        Some(i) => &delegated_permissions[i].1,
        None => {
            return false;
        },
    };
    let perms = match entry {
        DelegatedPermissions::V1 { perms } => perms,
    };
    let ghost res = *subaccount_resource;
    let ghost ps = permissions@;
    let ghost entry_s = perms@;
    let mut i: usize = 0;
    while i < permissions.len()
        invariant
            i <= ps.len(),
            ps == permissions@,
            entry_s == perms@,
            check_time == doesnt_expire_before_s,
            max_depth >= 1,
            delegate_entry(res->delegated_permissions@, auth) == Some(entry_s),
            res == *subaccount_resource,
            forall|j: int|
                0 <= j < i ==> !(#[trigger] lookup_perm(entry_s, permission_key(ps[j])) matches Some(
                    sp,
                ) && grant_ok(sp, doesnt_expire_before_s, res, ps, doesnt_expire_before_s, max_depth as nat)),
        decreases ps.len() - i,
    {
        let key = permission_type_to_key(&permissions[i]);
        match find_perm(perms, key) {
            Some(stored_perm) => {
                let ok = match stored_perm {
                    StoredPermission::Unlimited => true,
                    StoredPermission::UnlimitedUntil(expiration_time_s) => {
                        expiration_time_s > check_time
                    },
                    StoredPermission::UnlimitedVia { authorized_by } => {
                        is_owner_or_any_permission_granted(
                            authorized_by,
                            subaccount_addr,
                            subaccount_resource,
                            permissions,
                            doesnt_expire_before_s,
                            max_depth - 1,
                        )
                    },
                    StoredPermission::UnlimitedUntilVia { authorized_by, expiration_time_s } => {
                        expiration_time_s > check_time && is_owner_or_any_permission_granted(
                            authorized_by,
                            subaccount_addr,
                            subaccount_resource,
                            permissions,
                            doesnt_expire_before_s,
                            max_depth - 1,
                        )
                    },
                };
                if ok {
                    proof {
                        assert(lookup_perm(entry_s, permission_key(ps[i as int])) == Some(
                            stored_perm,
                        ));
                    }
                    return true;
                }
            },
            None => {},
        }
        i += 1;
    }
    false
}

fn is_owner_or_any_permission_granted(
    auth: [u8; 32],
    subaccount_addr: [u8; 32],
    subaccount_resource: &Subaccount,
    permissions: &[PermissionType],
    doesnt_expire_before_s: u64,
    max_depth: u64,
) -> (r: bool)
    ensures
        r == (owns(auth) || any_permission_granted(
            auth,
            *subaccount_resource,
            permissions@,
            doesnt_expire_before_s,
            max_depth as nat,
        )),
    decreases max_depth, 2nat,
{
    is_subaccount_owner(auth, subaccount_addr) || is_any_permission_granted(
        auth,
        subaccount_addr,
        subaccount_resource,
        permissions,
        doesnt_expire_before_s,
        max_depth,
    )
}

/// The result of the activity check on a subaccount record.
pub open spec fn active_result(res: Subaccount) -> Result<(), u64> {
    if res->is_active {
        Ok(())
    } else {
        Err(ESUBACCOUNT_IS_NOT_ACTIVE)
    }
}

fn assert_active(subaccount_resource: &Subaccount) -> (r: Result<(), u64>)
    ensures
        r == active_result(*subaccount_resource),
{
    let is_active = match subaccount_resource {
        Subaccount::V1 { is_active, .. } => *is_active,
    };
    if !is_active {
        Err(ESUBACCOUNT_IS_NOT_ACTIVE)
    } else {
        Ok(())
    }
}

/// The check that `subaccount` exists and is active.
pub open spec fn exists_and_active_result(subaccount: [u8; 32]) -> Result<(), u64> {
    match stored_subaccount(subaccount) {
        None => Err(ESUBACCOUNT_DOESNT_EXIST),
        Some(res) => active_result(res),
    }
}

/// The owner check followed by the existence and activity checks; on success
/// the subaccount acts as its own signer.
pub open spec fn owner_and_active_result(owner: [u8; 32], subaccount: [u8; 32]) -> Result<
    [u8; 32],
    u64,
> {
    if !owns(owner) {
        Err(ENOT_SUBACCOUNT_OWNER)
    } else {
        match exists_and_active_result(subaccount) {
            Err(e) => Err(e),
            Ok(_) => Ok(subaccount),
        }
    }
}

fn assert_owner_and_active_then_get_signer(owner: [u8; 32], subaccount_addr: [u8; 32]) -> (r:
    Result<[u8; 32], u64>)
    ensures
        r == owner_and_active_result(owner, subaccount_addr),
{
    if !is_subaccount_owner(owner, subaccount_addr) {
        return Err(ENOT_SUBACCOUNT_OWNER);
    }
    let subaccount_resource = match get_subaccount_resource(subaccount_addr) {
        Some(res) => res,
        None => {
            return Err(ESUBACCOUNT_DOESNT_EXIST);
        },
    };
    match assert_active(&subaccount_resource) {
        Err(e) => Err(e),
        Ok(_) => Ok(subaccount_addr),
    }
}

/// The existence and activity checks followed by the owner-or-delegate check
/// for one of `perms`; `err` is the error when neither holds.
pub open spec fn permission_result(
    auth: [u8; 32],
    subaccount: [u8; 32],
    perms: Seq<PermissionType>,
    err: u64,
) -> Result<[u8; 32], u64> {
    match stored_subaccount(subaccount) {
        None => Err(ESUBACCOUNT_DOESNT_EXIST),
        Some(res) => if !res->is_active {
            Err(ESUBACCOUNT_IS_NOT_ACTIVE)
        } else if owns(auth) || any_permission_granted(
            auth,
            res,
            perms,
            0,
            MAX_DELEGATION_DEPTH as nat,
        ) {
            Ok(subaccount)
        } else {
            Err(err)
        },
    }
}

fn assert_has_permission_and_get_signer(
    auth: [u8; 32],
    subaccount_addr: [u8; 32],
    permissions: &[PermissionType],
    error_code: u64,
) -> (r: Result<[u8; 32], u64>)
    ensures
        r == permission_result(auth, subaccount_addr, permissions@, error_code),
{
    let subaccount_resource = match get_subaccount_resource(subaccount_addr) {
        Some(res) => res,
        None => {
            return Err(ESUBACCOUNT_DOESNT_EXIST);
        },
    };
    match assert_active(&subaccount_resource) {
        Err(e) => {
            return Err(e);
        },
        Ok(_) => {},
    }
    if !is_owner_or_any_permission_granted(
        auth,
        subaccount_addr,
        &subaccount_resource,
        permissions,
        0,
        MAX_DELEGATION_DEPTH,
    ) {
        return Err(error_code);
    }
    Ok(subaccount_addr)
}

/// The permissions that let a delegate pass `permission` on: a grant for one
/// market is also covered by a grant for all markets.
pub open spec fn required_permissions(permission: PermissionType) -> Seq<PermissionType> {
    match permission {
        PermissionType::TradePerpsOnMarket { .. } => seq![
            permission,
            PermissionType::TradePerpsAllMarkets,
        ],
        _ => seq![permission],
    }
}

/// The check in front of a delegation: the subaccount exists and is active,
/// and `auth` is its owner, or (for anything but the right to sub-delegate
/// itself) holds the right to sub-delegate now and one of the required
/// permissions until `doesnt_expire_before_s`.
pub open spec fn sub_delegation_result(
    auth: [u8; 32],
    subaccount: [u8; 32],
    permission: PermissionType,
    doesnt_expire_before_s: u64,
) -> Result<(), u64> {
    match stored_subaccount(subaccount) {
        None => Err(ESUBACCOUNT_DOESNT_EXIST),
        Some(res) => if !res->is_active {
            Err(ESUBACCOUNT_IS_NOT_ACTIVE)
        } else if owns(auth) || (!(permission is SubDelegate) && any_permission_granted(
            auth,
            res,
            seq![PermissionType::SubDelegate],
            0,
            MAX_DELEGATION_DEPTH as nat,
        ) && any_permission_granted(
            auth,
            res,
            required_permissions(permission),
            doesnt_expire_before_s,
            MAX_DELEGATION_DEPTH as nat,
        )) {
            Ok(())
        } else {
            Err(ENOT_SUBACCOUNT_OWNER_OR_LACKS_SUB_DELEGATION_PERMISSIONS)
        },
    }
}

fn assert_sub_delegation_permissions(
    auth: [u8; 32],
    subaccount_addr: [u8; 32],
    permission: PermissionType,
    doesnt_expire_before_s: u64,
) -> (r: Result<(), u64>)
    ensures
        r == sub_delegation_result(auth, subaccount_addr, permission, doesnt_expire_before_s),
{
    let subaccount_resource = match get_subaccount_resource(subaccount_addr) {
        Some(res) => res,
        None => {
            return Err(ESUBACCOUNT_DOESNT_EXIST);
        },
    };
    match assert_active(&subaccount_resource) {
        Err(e) => {
            return Err(e);
        },
        Ok(_) => {},
    }
    let required: Vec<PermissionType> = match permission {
        PermissionType::TradePerpsOnMarket { .. } => vec![
            permission,
            PermissionType::TradePerpsAllMarkets,
        ],
        _ => vec![permission],
    };
    proof {
        assert(required@ =~= required_permissions(permission));
    }
    let sub_delegate: Vec<PermissionType> = vec![PermissionType::SubDelegate];
    proof {
        assert(sub_delegate@ =~= seq![PermissionType::SubDelegate]);
    }
    let is_sub_delegate = match permission {
        PermissionType::SubDelegate => true,
        _ => false,
    };
    let is_authorized = is_subaccount_owner(auth, subaccount_addr) || (!is_sub_delegate
        && is_any_permission_granted(
        auth,
        subaccount_addr,
        &subaccount_resource,
        sub_delegate.as_slice(),
        0,
        MAX_DELEGATION_DEPTH,
    ) && is_any_permission_granted(
        auth,
        subaccount_addr,
        &subaccount_resource,
        required.as_slice(),
        doesnt_expire_before_s,
        MAX_DELEGATION_DEPTH,
    ));
    if !is_authorized {
        return Err(ENOT_SUBACCOUNT_OWNER_OR_LACKS_SUB_DELEGATION_PERMISSIONS);
    }
    Ok(())
}

/// The grant that a delegation by `auth` stores: for ever, or until the
/// given time, in both cases marked as made by `auth`.
pub open spec fn delegated_grant(auth: [u8; 32], expiration_time_s: Option<u64>) -> StoredPermission {
    match expiration_time_s {
        None => StoredPermission::UnlimitedVia { authorized_by: auth },
        Some(exp) => StoredPermission::UnlimitedUntilVia {
            authorized_by: auth,
            expiration_time_s: exp,
        },
    }
}

/// The entry (permission index and grant) that a delegation writes into the
/// delegate's table; the host applies the write.
fn add_delegated_permission(
    auth: [u8; 32],
    permission: PermissionType,
    expiration_time_s: Option<u64>,
) -> (r: (u8, StoredPermission))
    ensures
        r == (permission_key(permission), delegated_grant(auth, expiration_time_s)),
{
    let stored_permission = match expiration_time_s {
        None => StoredPermission::UnlimitedVia { authorized_by: auth },
        Some(exp) => StoredPermission::UnlimitedUntilVia {
            authorized_by: auth,
            expiration_time_s: exp,
        },
    };
    let key = permission_type_to_key(&permission);
    (key, stored_permission)
}

/// What `get_subaccount_object_unpermissioned` returns: the subaccount if it
/// exists, or if it is the primary subaccount of the given owner (which is
/// then created at that very address); else the error that it does not exist.
pub open spec fn unpermissioned_result(
    subaccount: [u8; 32],
    init_primary_if_not_exists_for_owner: Option<[u8; 32]>,
) -> Result<[u8; 32], u64> {
    if stored_subaccount(subaccount) is Some {
        Ok(subaccount)
    } else {
        match init_primary_if_not_exists_for_owner {
            Some(owner) => if subaccount@ == subaccount_address_spec(owner@, primary_seed()) {
                Ok(subaccount)
            } else {
                Err(ESUBACCOUNT_DOESNT_EXIST)
            },
            None => Err(ESUBACCOUNT_DOESNT_EXIST),
        }
    }
}

/// The time until which a delegation must be backed: its expiration, or for
/// ever.
pub open spec fn backing_time(expiration_time_s: Option<u64>) -> u64 {
    match expiration_time_s {
        Some(e) => e,
        None => u64::MAX,
    }
}

/// The result of delegating `permission` on `subaccount` to someone, by `auth`.
pub open spec fn delegate_result(
    auth: [u8; 32],
    subaccount: [u8; 32],
    permission: PermissionType,
    expiration_time_s: Option<u64>,
) -> Result<(), u64> {
    match unpermissioned_result(subaccount, Some(auth)) {
        Err(e) => Err(e),
        Ok(obj) => sub_delegation_result(auth, obj, permission, backing_time(expiration_time_s)),
    }
}

fn check_and_delegate_permission(
    auth: [u8; 32],
    subaccount_addr: [u8; 32],
    permission: PermissionType,
    expiration_time_s: Option<u64>,
) -> (r: Result<(), u64>)
    ensures
        r == delegate_result(auth, subaccount_addr, permission, expiration_time_s),
{
    let subaccount_obj = match get_subaccount_object_unpermissioned(subaccount_addr, Some(auth)) {
        Ok(obj) => obj,
        Err(e) => {
            return Err(e);
        },
    };
    let doesnt_expire_before_s = match expiration_time_s {
        Some(e) => e,
        None => u64::MAX,
    };
    match assert_sub_delegation_permissions(
        auth,
        subaccount_obj,
        permission,
        doesnt_expire_before_s,
    ) {
        Err(e) => {
            return Err(e);
        },
        Ok(_) => {},
    }
    let _entry = add_delegated_permission(auth, permission, expiration_time_s);
    Ok(())
}

/// Sets up the global configuration; the host checks the publisher.
pub fn init_global_config(_publisher: [u8; 32]) -> (r: Result<(), u64>)
    ensures
        r is Ok,
{
    Ok(())
}

/// Creates the primary subaccount of a user, at its deterministic address.
pub fn create_primary_subaccount_object(user_addr: [u8; 32]) -> (r: [u8; 32])
    ensures
        r@ == subaccount_address_spec(user_addr@, primary_seed()),
{
    let seed = primary_seed_bytes();
    compute_subaccount_address(user_addr, seed.as_slice())
}

/// Creates a secondary subaccount; its address is chosen by the host, and is
/// the zero address without one.
pub fn create_new_subaccount_object(_owner: [u8; 32]) -> (r: [u8; 32])
    ensures
        is_zero_addr(r),
{
    zero_addr()
}

/// Creates a subaccount of `owner` from a seed; the primary seed is refused.
pub fn create_new_seeded_subaccount(owner: [u8; 32], seed: Vec<u8>) -> (r: Result<[u8; 32], u64>)
    ensures
        seed@ == primary_seed() ==> r == Err::<[u8; 32], u64>(
            ESEED_CANNOT_BE_PRIMARY_SUBACCOUNT_SEED,
        ),
        seed@ != primary_seed() ==> (r matches Ok(a) && a@ == subaccount_address_spec(
            owner@,
            seed@,
        )),
{
    let primary = primary_seed_bytes();
    if bytes_eq(seed.as_slice(), primary.as_slice()) {
        return Err(ESEED_CANNOT_BE_PRIMARY_SUBACCOUNT_SEED);
    }
    Ok(compute_subaccount_address(owner, seed.as_slice()))
}

fn bytes_eq(a: &[u8], b: &[u8]) -> (r: bool)
    ensures
        r == (a@ == b@),
{
    if a.len() != b.len() {
        return false;
    }
    let mut i: usize = 0;
    while i < a.len()
        invariant
            i <= a@.len(),
            a@.len() == b@.len(),
            a@.subrange(0, i as int) == b@.subrange(0, i as int),
        decreases a@.len() - i,
    {
        if a[i] != b[i] {
            assert(a@[i as int] != b@[i as int]);
            return false;
        }
        assert(a@.subrange(0, i + 1) =~= a@.subrange(0, i as int).push(a@[i as int]));
        assert(b@.subrange(0, i + 1) =~= b@.subrange(0, i as int).push(b@[i as int]));
        i += 1;
    }
    assert(a@ =~= a@.subrange(0, a@.len() as int));
    assert(b@ =~= b@.subrange(0, b@.len() as int));
    true
}

/// Delegates trading on all markets and vault trading, in that order,
/// stopping at the first refusal.
pub fn delegate_all_trading_to_for_subaccount(
    auth: [u8; 32],
    subaccount: [u8; 32],
    _account_to_delegate_to: [u8; 32],
    expiration_time_s: Option<u64>,
) -> (r: Result<(), u64>)
    ensures
        r == (match delegate_result(
            auth,
            subaccount,
            PermissionType::TradePerpsAllMarkets,
            expiration_time_s,
        ) {
            Err(e) => Err(e),
            Ok(_) => delegate_result(
                auth,
                subaccount,
                PermissionType::TradeVaultTokens,
                expiration_time_s,
            ),
        }),
{
    match check_and_delegate_permission(
        auth,
        subaccount,
        PermissionType::TradePerpsAllMarkets,
        expiration_time_s,
    ) {
        Err(e) => {
            return Err(e);
        },
        Ok(_) => {},
    }
    check_and_delegate_permission(
        auth,
        subaccount,
        PermissionType::TradeVaultTokens,
        expiration_time_s,
    )
}

/// Delegates trading on all markets.
pub fn delegate_perp_trading_to_for_subaccount(
    auth: [u8; 32],
    subaccount: [u8; 32],
    _account_to_delegate_to: [u8; 32],
    expiration_time_s: Option<u64>,
) -> (r: Result<(), u64>)
    ensures
        r == delegate_result(
            auth,
            subaccount,
            PermissionType::TradePerpsAllMarkets,
            expiration_time_s,
        ),
{
    check_and_delegate_permission(
        auth,
        subaccount,
        PermissionType::TradePerpsAllMarkets,
        expiration_time_s,
    )
}

/// Delegates trading on one market.
pub fn delegate_perp_trading_to_market_for_subaccount(
    auth: [u8; 32],
    subaccount: [u8; 32],
    _account_to_delegate_to: [u8; 32],
    market: [u8; 32],
    expiration_time_s: Option<u64>,
) -> (r: Result<(), u64>)
    ensures
        r == delegate_result(
            auth,
            subaccount,
            PermissionType::TradePerpsOnMarket { market },
            expiration_time_s,
        ),
{
    check_and_delegate_permission(
        auth,
        subaccount,
        PermissionType::TradePerpsOnMarket { market },
        expiration_time_s,
    )
}

/// Delegates the right to sub-delegate.
pub fn delegate_ability_to_sub_delegate_to_for_subaccount(
    auth: [u8; 32],
    subaccount: [u8; 32],
    _account_to_delegate_to: [u8; 32],
    expiration_time_s: Option<u64>,
) -> (r: Result<(), u64>)
    ensures
        r == delegate_result(auth, subaccount, PermissionType::SubDelegate, expiration_time_s),
{
    check_and_delegate_permission(
        auth,
        subaccount,
        PermissionType::SubDelegate,
        expiration_time_s,
    )
}

/// Delegates the chosen permissions on behalf of an on-chain account, whose
/// address the host derives from its reference (the zero address without a
/// host): the subaccount must exist (or be that account's primary one), be
/// owned by the account, and be active.
pub fn delegate_onchain_account_permissions(
    _auth_ref: Vec<u8>,
    subaccount: [u8; 32],
    _account_to_delegate_to: [u8; 32],
    delegate_perp_trading: bool,
    delegate_vault_trading: bool,
    delegate_sub_delegation: bool,
    delegate_subaccount_funds_movement: bool,
    expiration_time_s: Option<u64>,
) -> (r: Result<(), u64>)
    ensures
        r == (match unpermissioned_result(subaccount, Some(zero_addr_spec())) {
            Err(e) => Err(e),
            Ok(obj) => match owner_and_active_result(zero_addr_spec(), obj) {
                Err(e) => Err(e),
                Ok(_) => Ok(()),
            },
        }),
{
    let auth_addr = zero_addr();
    let subaccount_obj = match get_subaccount_object_unpermissioned(subaccount, Some(auth_addr)) {
        Ok(obj) => obj,
        Err(e) => {
            return Err(e);
        },
    };
    match assert_owner_and_active_then_get_signer(auth_addr, subaccount_obj) {
        Err(e) => {
            return Err(e);
        },
        Ok(_) => {},
    }
    if delegate_perp_trading {
        let _entry = add_delegated_permission(
            auth_addr,
            PermissionType::TradePerpsAllMarkets,
            expiration_time_s,
        );
    }
    if delegate_vault_trading {
        let _entry = add_delegated_permission(
            auth_addr,
            PermissionType::TradeVaultTokens,
            expiration_time_s,
        );
    }
    if delegate_sub_delegation {
        let _entry = add_delegated_permission(
            auth_addr,
            PermissionType::SubDelegate,
            expiration_time_s,
        );
    }
    if delegate_subaccount_funds_movement {
        let _entry = add_delegated_permission(
            auth_addr,
            PermissionType::SubaccountFundsMovement,
            expiration_time_s,
        );
    }
    Ok(())
}

/// Revokes one delegate's permissions: only the owner of an active
/// subaccount may.
pub fn revoke_delegation(owner: [u8; 32], subaccount: [u8; 32], _account_to_revoke: [u8; 32]) -> (r:
    Result<(), u64>)
    ensures
        r == (match owner_and_active_result(owner, subaccount) {
            Err(e) => Err(e),
            Ok(_) => Ok(()),
        }),
{
    match assert_owner_and_active_then_get_signer(owner, subaccount) {
        Err(e) => Err(e),
        Ok(_) => Ok(()),
    }
}

/// Revokes every delegate's permissions: only the owner of an active
/// subaccount may.
pub fn revoke_all_delegations(owner: [u8; 32], subaccount: [u8; 32]) -> (r: Result<(), u64>)
    ensures
        r == (match owner_and_active_result(owner, subaccount) {
            Err(e) => Err(e),
            Ok(_) => Ok(()),
        }),
{
    match assert_owner_and_active_then_get_signer(owner, subaccount) {
        Err(e) => Err(e),
        Ok(_) => Ok(()),
    }
}

/// Reactivates a subaccount: only its owner may, active or not.
pub fn reactivate_subaccount(owner: [u8; 32], subaccount: [u8; 32]) -> (r: Result<(), u64>)
    ensures
        r == (if owns(owner) {
            Ok(())
        } else {
            Err(ENOT_SUBACCOUNT_OWNER)
        }),
{
    if !is_subaccount_owner(owner, subaccount) {
        return Err(ENOT_SUBACCOUNT_OWNER);
    }
    Ok(())
}

/// Moves funds held outside the collateral back to the owner: only the owner
/// of an active subaccount may, and the host performs the transfer; a
/// refused request does nothing.
pub fn withdraw_from_non_collateral(
    owner: [u8; 32],
    subaccount: [u8; 32],
    _metadata: [u8; 32],
    _amount: u64,
) {
    let _signer = assert_owner_and_active_then_get_signer(owner, subaccount);
}

/// Withdraws `amount` from a subaccount to its owner, funds held outside
/// the collateral first: where those cover the amount they alone are
/// withdrawn, else all of them are and the rest is to be requested from
/// the cross collateral. The host reads the balance held outside the
/// collateral and files the cross request; what comes back is the amount
/// taken outside the collateral and the amount, if any, to request.
pub fn withdraw_from_subaccount(
    owner: [u8; 32],
    subaccount: [u8; 32],
    metadata: [u8; 32],
    amount: u64,
    non_collateral_balance: u64,
) -> (r: (u64, Option<u64>))
    ensures
        non_collateral_balance > 0 && non_collateral_balance >= amount ==> r == (amount, None::<u64>),
        non_collateral_balance > 0 && non_collateral_balance < amount ==> r == (
            non_collateral_balance,
            Some((amount - non_collateral_balance) as u64),
        ),
        non_collateral_balance == 0 ==> r == (0u64, Some(amount)),
{
    if non_collateral_balance > 0 {
        if non_collateral_balance >= amount {
            withdraw_from_non_collateral(owner, subaccount, metadata, amount);
            return (amount, None);
        }
        withdraw_from_non_collateral(owner, subaccount, metadata, non_collateral_balance);
        return (non_collateral_balance, Some(amount - non_collateral_balance));
    }
    (0, Some(amount))
}

/// The address of a user's primary subaccount.
pub fn primary_subaccount(owner_addr: [u8; 32]) -> (r: [u8; 32])
    ensures
        r@ == subaccount_address_spec(owner_addr@, primary_seed()),
{
    let seed = primary_seed_bytes();
    compute_subaccount_address(owner_addr, seed.as_slice())
}

/// The primary subaccount of a user, as an object address.
pub fn primary_subaccount_object(owner: [u8; 32]) -> (r: [u8; 32])
    ensures
        r@ == subaccount_address_spec(owner@, primary_seed()),
{
    primary_subaccount(owner)
}

/// The address of a user's primary subaccount.
pub fn primary_subaccount_public(owner_addr: [u8; 32]) -> (r: [u8; 32])
    ensures
        r@ == subaccount_address_spec(owner_addr@, primary_seed()),
{
    primary_subaccount(owner_addr)
}

/// The primary subaccount of a user, as an object address.
pub fn primary_subaccount_object_public(owner: [u8; 32]) -> (r: [u8; 32])
    ensures
        r@ == subaccount_address_spec(owner@, primary_seed()),
{
    primary_subaccount_object(owner)
}

/// The address of the subaccount of `owner_addr` made with `seed`.
pub fn seeded_subaccount_address(owner_addr: [u8; 32], seed: Vec<u8>) -> (r: [u8; 32])
    ensures
        r@ == subaccount_address_spec(owner_addr@, seed@),
{
    compute_subaccount_address(owner_addr, seed.as_slice())
}

/// The delegations recorded on a subaccount (none if it does not exist).
pub fn view_delegated_permissions(subaccount: [u8; 32]) -> (r: Vec<([u8; 32], DelegatedPermissions)>)
    ensures
        r@ == (match stored_subaccount(subaccount) {
            Some(res) => res->delegated_permissions@,
            None => Seq::empty(),
        }),
{
    match get_subaccount_resource(subaccount) {
        Some(Subaccount::V1 { delegated_permissions, .. }) => delegated_permissions,
        None => Vec::new(),
    }
}

/// Whether a subaccount exists and is active.
pub fn view_is_subaccount_active(subaccount: [u8; 32]) -> (r: bool)
    ensures
        r == (match stored_subaccount(subaccount) {
            Some(res) => res->is_active,
            None => false,
        }),
{
    match get_subaccount_resource(subaccount) {
        Some(Subaccount::V1 { is_active, .. }) => is_active,
        None => false,
    }
}

/// Whether a subaccount exists.
pub fn subaccount_exists(subaccount_addr: [u8; 32]) -> (r: bool)
    ensures
        r == stored_subaccount(subaccount_addr) is Some,
{
    get_subaccount_resource(subaccount_addr).is_some()
}

/// The subaccount's signer, for its owner, if the subaccount is active.
pub fn get_subaccount_signer_if_owner(owner: [u8; 32], subaccount: [u8; 32]) -> (r: Result<
    [u8; 32],
    u64,
>)
    ensures
        r == owner_and_active_result(owner, subaccount),
{
    assert_owner_and_active_then_get_signer(owner, subaccount)
}

/// The subaccount's signer, for its owner or a delegate trading on all
/// markets or on `market`.
pub fn get_subaccount_signer_if_owner_or_delegated_for_perp_trading(
    auth: [u8; 32],
    subaccount: [u8; 32],
    market: [u8; 32],
) -> (r: Result<[u8; 32], u64>)
    ensures
        r == permission_result(
            auth,
            subaccount,
            seq![
                PermissionType::TradePerpsAllMarkets,
                PermissionType::TradePerpsOnMarket { market },
            ],
            ENOT_SUBACCOUNT_OWNER_OR_LACKS_PERP_TRADING_PERMISSIONS,
        ),
{
    let perms: Vec<PermissionType> = vec![
        PermissionType::TradePerpsAllMarkets,
        PermissionType::TradePerpsOnMarket { market },
    ];
    proof {
        assert(perms@ =~= seq![
            PermissionType::TradePerpsAllMarkets,
            PermissionType::TradePerpsOnMarket { market },
        ]);
    }
    assert_has_permission_and_get_signer(
        auth,
        subaccount,
        perms.as_slice(),
        ENOT_SUBACCOUNT_OWNER_OR_LACKS_PERP_TRADING_PERMISSIONS,
    )
}

/// The subaccount's signer, for its owner or a delegate trading vault tokens.
pub fn get_subaccount_signer_if_owner_or_delegated_for_vault_trading(
    auth: [u8; 32],
    subaccount: [u8; 32],
) -> (r: Result<[u8; 32], u64>)
    ensures
        r == permission_result(
            auth,
            subaccount,
            seq![PermissionType::TradeVaultTokens],
            ENOT_SUBACCOUNT_OWNER_OR_LACKS_VAULT_TRADING_PERMISSIONS,
        ),
{
    let perms: Vec<PermissionType> = vec![PermissionType::TradeVaultTokens];
    proof {
        assert(perms@ =~= seq![PermissionType::TradeVaultTokens]);
    }
    assert_has_permission_and_get_signer(
        auth,
        subaccount,
        perms.as_slice(),
        ENOT_SUBACCOUNT_OWNER_OR_LACKS_VAULT_TRADING_PERMISSIONS,
    )
}

/// The subaccount if it exists; else, where it is the primary subaccount of
/// the given owner, that subaccount, created; else an error.
pub fn get_subaccount_object_unpermissioned(
    subaccount_addr: [u8; 32],
    init_primary_if_not_exists_for_owner: Option<[u8; 32]>,
) -> (r: Result<[u8; 32], u64>)
    ensures
        r == unpermissioned_result(subaccount_addr, init_primary_if_not_exists_for_owner),
{
    if subaccount_exists(subaccount_addr) {
        return Ok(subaccount_addr);
    }
    match init_primary_if_not_exists_for_owner {
        Some(owner) => {
            let expected_primary = primary_subaccount(owner);
            proof {
                if subaccount_addr@ == expected_primary@ {
                    lemma_addr_ext(subaccount_addr, expected_primary);
                }
            }
            if addr_eq(&subaccount_addr, &expected_primary) {
                let created_addr = create_primary_subaccount_object(owner);
                proof {
                    assert(created_addr@ =~= subaccount_addr@);
                    assert(created_addr =~= subaccount_addr);
                }
                return Ok(created_addr);
            }
        },
        None => {},
    }
    Err(ESUBACCOUNT_DOESNT_EXIST)
}

/// Whether the subaccount exists and is active.
pub fn assert_subaccount_is_active(subaccount: [u8; 32]) -> (r: Result<(), u64>)
    ensures
        r == exists_and_active_result(subaccount),
{
    let subaccount_resource = match get_subaccount_resource(subaccount) {
        Some(res) => res,
        None => {
            return Err(ESUBACCOUNT_DOESNT_EXIST);
        },
    };
    assert_active(&subaccount_resource)
}


/// Deactivates a subaccount: only its owner may, the subaccount must exist,
/// be active and hold no assets, positions or orders (as the host reports
/// in `has_assets_positions_or_orders`); delegations are revoked where
/// asked.
pub fn deactivate_subaccount(
    owner: [u8; 32],
    subaccount: [u8; 32],
    revoke_delegations: bool,
    has_assets_positions_or_orders: bool,
) -> (r: Result<(), u64>)
    ensures
        r == (if !owns(owner) {
            Err(ENOT_SUBACCOUNT_OWNER)
        } else {
            match exists_and_active_result(subaccount) {
                Err(e) => Err(e),
                Ok(_) => if has_assets_positions_or_orders {
                    Err(ESUBACCOUNT_HAS_ASSETS_OR_POSITIONS)
                } else if revoke_delegations {
                    match owner_and_active_result(owner, subaccount) {
                        Err(e) => Err(e),
                        Ok(_) => Ok(()),
                    }
                } else {
                    Ok(())
                },
            }
        }),
{
    if !is_subaccount_owner(owner, subaccount) {
        return Err(ENOT_SUBACCOUNT_OWNER);
    }
    let subaccount_resource = match get_subaccount_resource(subaccount) {
        Some(res) => res,
        None => {
            return Err(ESUBACCOUNT_DOESNT_EXIST);
        },
    };
    match assert_active(&subaccount_resource) {
        Err(e) => {
            return Err(e);
        },
        Ok(_) => {},
    }
    if has_assets_positions_or_orders {
        return Err(ESUBACCOUNT_HAS_ASSETS_OR_POSITIONS);
    }
    if revoke_delegations {
        match revoke_all_delegations(owner, subaccount) {
            Err(e) => {
                return Err(e);
            },
            Ok(_) => {},
        }
    }
    Ok(())
}

/// The checks before funds are deposited to a subaccount's cross
/// collateral: the subaccount exists (the owner's primary one is created
/// where asked), is active, and, where an owner is named, belongs to it.
/// The subaccount comes back; the host makes the deposit.
pub fn deposit_funds_to_subaccount(
    subaccount: [u8; 32],
    _funds_metadata: [u8; 32],
    _funds_amount: u64,
    init_primary_if_not_exists_for_owner: Option<[u8; 32]>,
) -> (r: Result<[u8; 32], u64>)
    ensures
        r == (match unpermissioned_result(subaccount, init_primary_if_not_exists_for_owner) {
            Err(e) => Err(e),
            Ok(obj) => match exists_and_active_result(obj) {
                Err(e) => Err(e),
                Ok(_) => match init_primary_if_not_exists_for_owner {
                    Some(o) => if !owns(o) {
                        Err(ENOT_SUBACCOUNT_OWNER)
                    } else {
                        Ok(obj)
                    },
                    None => Ok(obj),
                },
            },
        }),
{
    let obj = match get_subaccount_object_unpermissioned(subaccount, init_primary_if_not_exists_for_owner) {
        Ok(o) => o,
        Err(e) => {
            return Err(e);
        },
    };
    match assert_subaccount_is_active(obj) {
        Err(e) => {
            return Err(e);
        },
        Ok(_) => {},
    }
    if let Some(expected_owner) = init_primary_if_not_exists_for_owner {
        if !is_subaccount_owner(expected_owner, obj) {
            return Err(ENOT_SUBACCOUNT_OWNER);
        }
    }
    Ok(obj)
}

} // verus!
