//! Composite storage keys packed into single integers, so that a
//! point-access map keyed by an integer can hold them.
use vstd::prelude::*;

verus! {

/// Room left under each collection key for its member slots: one slot for
/// the sentinel and one for each possible `u32` member.
pub const MEMBER_SLOTS: u128 = 0x2_0000_0000;

/// The slot of a node within its collection: 0 for the sentinel.
pub open spec fn member_slot(member: Option<u32>) -> int {
    match member {
        None => 0,
        Some(m) => m + 1,
    }
}

/// The store key of the node `member` (the sentinel for `None`) of collection `key`.
pub open spec fn node_key(key: u64, member: Option<u32>) -> u128 {
    (key * MEMBER_SLOTS + member_slot(member)) as u128
}

/// The store key of an ordered pair of kitty identifiers.
pub open spec fn pair_key(a: u32, b: u32) -> u64 {
    (a * 0x1_0000_0000 + b) as u64
}

pub proof fn lemma_node_key_injective(k1: u64, m1: Option<u32>, k2: u64, m2: Option<u32>)
    ensures
        node_key(k1, m1) == node_key(k2, m2) ==> k1 == k2 && m1 == m2,
{
    let s1 = member_slot(m1);
    let s2 = member_slot(m2);
    assert(0 <= s1 < MEMBER_SLOTS && 0 <= s2 < MEMBER_SLOTS);
    assert(k1 * MEMBER_SLOTS + s1 < 0x1_0000_0000_0000_0000 * MEMBER_SLOTS) by (nonlinear_arith)
        requires
            k1 < 0x1_0000_0000_0000_0000,
            s1 < MEMBER_SLOTS,
    ;
    assert(k2 * MEMBER_SLOTS + s2 < 0x1_0000_0000_0000_0000 * MEMBER_SLOTS) by (nonlinear_arith)
        requires
            k2 < 0x1_0000_0000_0000_0000,
            s2 < MEMBER_SLOTS,
    ;
    if k1 * MEMBER_SLOTS + s1 == k2 * MEMBER_SLOTS + s2 {
        assert(k1 == k2) by (nonlinear_arith)
            requires
                k1 * MEMBER_SLOTS + s1 == k2 * MEMBER_SLOTS + s2,
                0 <= s1 < MEMBER_SLOTS,
                0 <= s2 < MEMBER_SLOTS,
                0 <= k1,
                0 <= k2,
        ;
    }
}

pub proof fn lemma_pair_key_injective(a1: u32, b1: u32, a2: u32, b2: u32)
    ensures
        pair_key(a1, b1) == pair_key(a2, b2) ==> a1 == a2 && b1 == b2,
{
    assert(a1 * 0x1_0000_0000 + b1 < 0x1_0000_0000_0000_0000) by (nonlinear_arith)
        requires
            a1 < 0x1_0000_0000,
            b1 < 0x1_0000_0000,
    ;
    assert(a2 * 0x1_0000_0000 + b2 < 0x1_0000_0000_0000_0000) by (nonlinear_arith)
        requires
            a2 < 0x1_0000_0000,
            b2 < 0x1_0000_0000,
    ;
    if a1 * 0x1_0000_0000 + b1 == a2 * 0x1_0000_0000 + b2 {
        assert(a1 == a2) by (nonlinear_arith)
            requires
                a1 * 0x1_0000_0000 + b1 == a2 * 0x1_0000_0000 + b2,
                0 <= b1 < 0x1_0000_0000,
                0 <= b2 < 0x1_0000_0000,
                0 <= a1,
                0 <= a2,
        ;
    }
}

pub fn node_key_of(key: u64, member: Option<u32>) -> (r: u128)
    ensures
        r == node_key(key, member),
{
    let slot: u128 = match member {
        None => 0,
        Some(m) => m as u128 + 1,
    };
    assert(key * MEMBER_SLOTS + slot < 0x1_0000_0000_0000_0000 * MEMBER_SLOTS) by (nonlinear_arith)
        requires
            key < 0x1_0000_0000_0000_0000,
            slot < MEMBER_SLOTS,
    ;
    key as u128 * MEMBER_SLOTS + slot
}

pub fn pair_key_of(a: u32, b: u32) -> (r: u64)
    ensures
        r == pair_key(a, b),
{
    assert(a * 0x1_0000_0000 + b < 0x1_0000_0000_0000_0000) by (nonlinear_arith)
        requires
            a < 0x1_0000_0000,
            b < 0x1_0000_0000,
    ;
    a as u64 * 0x1_0000_0000 + b as u64
}

} // verus!
