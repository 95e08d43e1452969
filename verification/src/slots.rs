//! Trusted interface to the `slotmap` crate.
//!
//! Slot-map keys are carried through the library as the 64-bit value that
//! `KeyData::as_ffi` gives: the slot version in the high 32 bits and the slot
//! index in the low 32 bits.
use slotmap::{DefaultKey, Key, KeyData, SlotMap, SparseSecondaryMap};
use vstd::prelude::*;

verus! {

/// The slot index carried in the low half of a key.
pub open spec fn slot_index(k: u64) -> int {
    k as int % 0x1_0000_0000
}

/// The slot version carried in the high half of a key.
pub open spec fn slot_version(k: u64) -> int {
    k as int / 0x1_0000_0000
}

/// A key is determined by its slot index and version.
pub proof fn lemma_key_from_slot(a: u64, b: u64)
    ensures
        slot_index(a) == slot_index(b) && slot_version(a) == slot_version(b) ==> a == b,
{
    vstd::arithmetic::div_mod::lemma_fundamental_div_mod(a as int, 0x1_0000_0000);
    vstd::arithmetic::div_mod::lemma_fundamental_div_mod(b as int, 0x1_0000_0000);
}

/// A key that names an occupied slot: its version is odd, and its index is
/// not the one reserved for the null key.
pub open spec fn live_key(k: u64) -> bool {
    &&& slot_version(k) % 2 == 1
    &&& slot_index(k) != 0xffff_ffff
}

/// A slot map from handles to the position of the value they stand for.
/// `slotmap::SlotMap` cannot be declared to Verus here (its key bound is an
/// outside trait), so it is held in this opaque struct; `handle_slots` names
/// what it holds.
#[verifier::external_body]
pub struct HandleSlots {
    slots: SlotMap<DefaultKey, usize>,
}

/// What a slot map of handles holds: for each occupied slot, its key (as
/// `as_ffi` gives it) and the value stored there.
pub uninterp spec fn handle_slots(m: HandleSlots) -> Map<u64, usize>;

/// `SlotMap::new`: the new map holds nothing.
#[verifier::external_body]
pub(crate) fn handle_slots_new() -> (m: HandleSlots)
    ensures
        handle_slots(m).dom() == Set::<u64>::empty(),
{
    HandleSlots { slots: SlotMap::new() }
}

/// `SlotMap::insert`: the value goes into a vacant slot (or a new one), and
/// the key returned names that slot. The key was not live before, its slot
/// index differs from that of every live key, and its version is odd. The
/// map panics when it would need a slot past `u32::MAX - 1`; the `requires`
/// keeps the number of live entries below that bound.
#[verifier::external_body]
pub(crate) fn handle_slots_insert(m: &mut HandleSlots, v: usize) -> (k: u64)
    requires
        handle_slots(*old(m)).dom().finite(),
        handle_slots(*old(m)).len() + 2 <= 0xffff_ffff,
    ensures
        live_key(k),
        !handle_slots(*old(m)).dom().contains(k),
        forall|j: u64| #[trigger]
            handle_slots(*old(m)).dom().contains(j) ==> slot_index(j) != slot_index(k),
        handle_slots(*final(m)) == handle_slots(*old(m)).insert(k, v),
{
    m.slots.insert(v).data().as_ffi()
}

/// `SlotMap::len`: the number of occupied slots, that is of entries.
#[verifier::external_body]
pub(crate) fn handle_slots_len(m: &HandleSlots) -> (n: usize)
    ensures
        n == handle_slots(*m).len(),
{
    m.slots.len()
}

/// `SlotMap::get`, with the key rebuilt by `KeyData::from_ffi`: the value in
/// the slot the key names, if that slot holds this version.
#[verifier::external_body]
pub(crate) fn handle_slots_get(m: &HandleSlots, k: u64) -> (r: Option<usize>)
    requires
        live_key(k),
    ensures
        r == (if handle_slots(*m).dom().contains(k) {
            Some(handle_slots(*m)[k])
        } else {
            None
        }),
{
    m.slots.get(DefaultKey::from(KeyData::from_ffi(k))).copied()
}

/// `slotmap::is_older_version`: version `a` is older than version `b` when
/// `a - b`, taken modulo 2^32, is at least 2^31.
pub open spec fn is_older_version(a: int, b: int) -> bool {
    (a - b) % 0x1_0000_0000 >= 0x8000_0000
}

/// A sparse secondary map from slot keys to a pair of numbers. The map is
/// `slotmap::SparseSecondaryMap`, held opaquely for the reason given at
/// [`HandleSlots`]; `sparse_slots` names what it holds.
#[verifier::external_body]
pub struct SparseSlots {
    slots: SparseSecondaryMap<DefaultKey, (u32, u32)>,
}

/// What a sparse secondary map holds: for each slot index that has an entry,
/// the version of the key that put it there and the pair stored.
pub uninterp spec fn sparse_slots(m: SparseSlots) -> Map<u32, (u32, (u32, u32))>;

/// The entry `SparseSecondaryMap::get` finds for a key: the one at its slot
/// index, if that entry carries the key's version.
pub open spec fn sparse_lookup(m: Map<u32, (u32, (u32, u32))>, k: u64) -> Option<(u32, u32)> {
    let i = slot_index(k) as u32;
    if m.dom().contains(i) && m[i].0 == slot_version(k) {
        Some(m[i].1)
    } else {
        None
    }
}

/// What `SparseSecondaryMap::insert` leaves for a non-null key: the entry at
/// the key's slot index is replaced unless it carries a newer version.
pub open spec fn sparse_insert(m: Map<u32, (u32, (u32, u32))>, k: u64, v: (u32, u32)) -> Map<u32, (u32, (u32, u32))> {
    let i = slot_index(k) as u32;
    if m.dom().contains(i) && m[i].0 != slot_version(k) && is_older_version(slot_version(k), m[i].0 as int) {
        m
    } else {
        m.insert(i, (slot_version(k) as u32, v))
    }
}

/// `SparseSecondaryMap::new`: the new map holds nothing.
#[verifier::external_body]
pub(crate) fn sparse_slots_new() -> (m: SparseSlots)
    ensures
        sparse_slots(m).dom() == Set::<u32>::empty(),
{
    SparseSlots { slots: SparseSecondaryMap::new() }
}

/// `SparseSecondaryMap::get`, with the key rebuilt by `KeyData::from_ffi`.
#[verifier::external_body]
pub(crate) fn sparse_slots_get(m: &SparseSlots, k: u64) -> (r: Option<(u32, u32)>)
    requires
        live_key(k),
    ensures
        r == sparse_lookup(sparse_slots(*m), k),
{
    m.slots.get(DefaultKey::from(KeyData::from_ffi(k))).copied()
}

/// `SparseSecondaryMap::insert`, with the key rebuilt by `KeyData::from_ffi`;
/// the value it hands back is dropped.
#[verifier::external_body]
pub(crate) fn sparse_slots_insert(m: &mut SparseSlots, k: u64, v: (u32, u32))
    requires
        live_key(k),
    ensures
        sparse_slots(*final(m)) == sparse_insert(sparse_slots(*old(m)), k, v),
{
    m.slots.insert(DefaultKey::from(KeyData::from_ffi(k)), v);
}

} // verus!
