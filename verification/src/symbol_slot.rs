use vstd::prelude::*;

verus! {

/// A slot whose symbol no caller has tried to resolve yet.
pub const SLOT_UNRESOLVED: usize = 0;

/// A slot whose symbol a caller is resolving now.
pub const SLOT_RESOLVING: usize = 1;

/// A slot whose symbol could not be found.
pub const SLOT_UNAVAILABLE: usize = 2;

/// What a caller that did not claim the slot learns from its state.
#[derive(Clone, Copy, Debug, PartialEq, Eq, Structural)]
pub enum SlotReading {
    /// The symbol was found at this address.
    Resolved(usize),
    /// The symbol was looked up and not found.
    Unavailable,
    /// No lookup has been stored yet: the caller looks the symbol up itself,
    /// without storing what it finds.
    Pending,
}

/// What a slot in state `state` tells a caller that did not claim it: any
/// state other than the three markers is the address of a resolved symbol.
pub open spec fn spec_read_slot(state: usize) -> SlotReading {
    if state == SLOT_UNAVAILABLE {
        SlotReading::Unavailable
    } else if state == SLOT_UNRESOLVED || state == SLOT_RESOLVING {
        SlotReading::Pending
    } else {
        SlotReading::Resolved(state)
    }
}

/// What a slot in state `state` tells a caller that did not claim it.
pub fn read_slot(state: usize) -> (reading: SlotReading)
    ensures
        reading == spec_read_slot(state),
{
    if state == SLOT_UNAVAILABLE {
        SlotReading::Unavailable
    } else if state == SLOT_UNRESOLVED || state == SLOT_RESOLVING {
        SlotReading::Pending
    } else {
        SlotReading::Resolved(state)
    }
}

/// The state to store in a slot after looking its symbol up, where the
/// lookup returned `address` (zero when the symbol was not found).
pub open spec fn spec_slot_after_lookup(address: usize) -> usize {
    if address == 0 {
        SLOT_UNAVAILABLE
    } else {
        address
    }
}

/// The state to store in a slot after looking its symbol up, where the
/// lookup returned `address` (zero when the symbol was not found).
pub fn slot_after_lookup(address: usize) -> (state: usize)
    ensures
        state == spec_slot_after_lookup(address),
{
    if address == 0 {
        SLOT_UNAVAILABLE
    } else {
        address
    }
}

/// The symbol that a lookup which returned `address` found.
pub open spec fn spec_lookup_result(address: usize) -> Option<usize> {
    if address == 0 {
        None
    } else {
        Some(address)
    }
}

/// The symbol that a lookup which returned `address` found: none for a
/// null address, else that address, whatever its value.
pub fn lookup_result(address: usize) -> (symbol: Option<usize>)
    ensures
        symbol == spec_lookup_result(address),
{
    if address == 0 {
        None
    } else {
        Some(address)
    }
}

/// Once a lookup is stored, every later caller is served what the caller
/// that made the lookup returned: the address of a symbol that was found,
/// and no symbol for one that was not. This fails only for the addresses
/// that equal the two marker values, which are never addresses of code.
pub proof fn law_stored_lookup_is_served(address: usize)
    requires
        address != SLOT_RESOLVING,
        address != SLOT_UNAVAILABLE,
    ensures
        spec_read_slot(spec_slot_after_lookup(address)) == match spec_lookup_result(address) {
            Some(symbol) => SlotReading::Resolved(symbol),
            None => SlotReading::Unavailable,
        },
{
}

/// Only the null address means the symbol was not found: a lookup that
/// returned any other address yields that address to the caller that made
/// it, and, unless the address equals one of the two marker values, every
/// later caller reads that same address back from the slot.
pub proof fn law_only_null_is_unavailable(address: usize)
    ensures
        address == 0 ==> spec_lookup_result(address) is None && spec_read_slot(
            spec_slot_after_lookup(address),
        ) == SlotReading::Unavailable,
        address != 0 ==> spec_lookup_result(address) == Some(address),
        address != 0 && address != SLOT_RESOLVING && address != SLOT_UNAVAILABLE ==> spec_read_slot(
            spec_slot_after_lookup(address),
        ) == SlotReading::Resolved(address),
{
}

/// A stored lookup never leaves the slot unresolved, so no later caller
/// can claim the slot again: each symbol is looked up and stored once.
pub proof fn law_stored_slot_is_never_claimed_again(address: usize)
    ensures
        spec_slot_after_lookup(address) != SLOT_UNRESOLVED,
{
}

} // verus!
