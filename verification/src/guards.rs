//! The table of guards in use: slot `g` holds the stamp under which guard
//! `g` began its protected section, or nothing when no such guard is in use.
use vstd::prelude::*;

verus! {

/// The guards in use according to `table`.
pub open spec fn live_slots(table: Seq<Option<u64>>) -> Set<usize> {
    Set::new(|g: usize| g < table.len() && table[g as int].is_some())
}

/// Puts `stamp` into the first free slot of `table`, adding a slot when
/// every slot is taken, and returns the slot's index.
pub fn claim_slot(table: &mut Vec<Option<u64>>, stamp: u64) -> (id: usize)
    ensures
        !live_slots(old(table)@).contains(id),
        forall|g: usize| g < id ==> live_slots(old(table)@).contains(g),
        live_slots(final(table)@) == live_slots(old(table)@).insert(id),
        id < final(table).len(),
        final(table)@[id as int] == Some(stamp),
        final(table)@ == if id < old(table).len() {
            old(table)@.update(id as int, Some(stamp))
        } else {
            old(table)@.push(Some(stamp))
        },
        id <= old(table).len(),
{
    let mut i: usize = 0;
    while i < table.len() && table[i].is_some()
        invariant
            i <= table.len(),
            table@ == old(table)@,
            forall|g: usize| g < i ==> live_slots(table@).contains(g),
        decreases table.len() - i,
    {
        i = i + 1;
    }
    if i < table.len() {
        table[i] = Some(stamp);
    } else {
        table.push(Some(stamp));
    }
    assert(live_slots(table@) =~= live_slots(old(table)@).insert(i));
    i
}

/// Frees slot `id` of `table`.
pub fn free_slot(table: &mut Vec<Option<u64>>, id: usize)
    requires
        live_slots(old(table)@).contains(id),
    ensures
        live_slots(final(table)@) == live_slots(old(table)@).remove(id),
        final(table)@ == old(table)@.update(id as int, None),
{
    table[id] = None;
    assert(live_slots(table@) =~= live_slots(old(table)@).remove(id));
}

} // verus!
