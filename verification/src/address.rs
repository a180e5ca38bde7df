use vstd::prelude::*;

verus! {

/// A table of addresses: item `i` of a list has address `addresses[i]`, and
/// `indices[addresses[i]] == i`; the free list holds distinct addresses that
/// no item has, ready for reuse.
pub open spec fn table_wf(indices: Seq<usize>, free: Seq<usize>, addresses: Seq<usize>) -> bool {
    &&& forall|i: int| 0 <= i < addresses.len() ==> #[trigger] addresses[i] < indices.len()
    &&& forall|i: int| 0 <= i < addresses.len() ==> indices[#[trigger] addresses[i] as int] == i
    &&& forall|j: int| 0 <= j < free.len() ==> #[trigger] free[j] < indices.len()
    &&& forall|i: int, j: int|
        0 <= i < addresses.len() && 0 <= j < free.len() ==> #[trigger] addresses[i] != #[trigger] free[j]
    &&& forall|j: int, k: int| 0 <= j < k < free.len() ==> #[trigger] free[j] != #[trigger] free[k]
}

/// The address is that of an item of the list.
pub open spec fn is_live(indices: Seq<usize>, addresses: Seq<usize>, address: int) -> bool {
    &&& 0 <= address < indices.len()
    &&& 0 <= indices[address] < addresses.len()
    &&& addresses[indices[address] as int] == address
}

/// The addresses of a well-formed table are distinct.
pub proof fn lemma_addresses_distinct(indices: Seq<usize>, free: Seq<usize>, addresses: Seq<usize>, i: int, k: int)
    requires
        table_wf(indices, free, addresses),
        0 <= i < addresses.len(),
        0 <= k < addresses.len(),
        i != k,
    ensures
        addresses[i] != addresses[k],
{
    assert(indices[addresses[i] as int] == i);
    assert(indices[addresses[k] as int] == k);
}

/// An address for the item about to stand at `index`: the last freed
/// address when there is one, otherwise a new one at the end of the table.
pub fn new_address(indices: &mut Vec<usize>, address_free_list: &mut Vec<usize>, index: usize) -> (address: usize)
    requires
        old(indices).len() < usize::MAX,
        forall|j: int| 0 <= j < old(address_free_list).len() ==> #[trigger] old(address_free_list)@[j] < old(indices).len(),
    ensures
        old(address_free_list).len() > 0 ==> {
            &&& address == old(address_free_list)@.last()
            &&& final(address_free_list)@ == old(address_free_list)@.drop_last()
            &&& final(indices)@ == old(indices)@.update(address as int, index)
        },
        old(address_free_list).len() == 0 ==> {
            &&& address == old(indices).len()
            &&& final(address_free_list)@ == old(address_free_list)@
            &&& final(indices)@ == old(indices)@.push(index)
        },
{
    if let Some(address) = address_free_list.pop() {
        indices.set(address, index);
        address
    } else {
        let address = indices.len();
        indices.push(index);
        address
    }
}

} // verus!
