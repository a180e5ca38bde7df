use vstd::prelude::*;
use crate::address::{is_live, new_address, table_wf};
use crate::rhythm::{divides, two_to, WholeNotes};
use crate::staff::{
    accidental_note_address, insert_object, note_accidental_address, object_addresses, object_content_wf,
    push_if_not_present, pushed_if_absent, with_address, Object, Staff, SystemAddress, object_live, object_at,
    lemma_insert_keeps_live, lemma_insert_keeps_staff_wf, unlinked, insertion_keeps_links, same_alignment,
};

verus! {

/// A slice: a vertical alignment of objects across the staves, with its
/// rhythmic position (for slices that hold durations) and its horizontal
/// distance from the previous slice.
pub struct Slice {
    pub address: usize,
    pub object_addresses: Vec<SystemAddress>,
    pub rhythmic_position: Option<WholeNotes>,
    pub distance_from_previous_slice: i32,
}

/// A system of staves and the slices that align their objects.
pub struct Score {
    pub staves: Vec<Staff>,
    pub slices: Vec<Slice>,
    pub slice_indices: Vec<usize>,
    pub slice_address_free_list: Vec<usize>,
    pub ghost_cursor: Option<SystemAddress>,
}

/// The addresses of a list of slices.
pub open spec fn slice_addresses(slices: Seq<Slice>) -> Seq<usize> {
    Seq::new(slices.len(), |k: int| slices[k].address)
}

/// The slice lists the object of the staff.
pub open spec fn slice_has_entry(slice: Slice, staff_index: int, object_address: int) -> bool {
    exists|e: int| 0 <= e < slice.object_addresses.len() && #[trigger] slice.object_addresses@[e]
        == (SystemAddress { staff_index: staff_index as usize, object_address: object_address as usize })
}

/// A rhythmic position whose denominator divides 2^30.
pub open spec fn position_wf(position: WholeNotes) -> bool {
    position.wf() && divides(position.den(), two_to(30) as int)
}

impl Score {
    /// The address is that of a slice.
    pub open spec fn slice_live(&self, address: int) -> bool {
        is_live(self.slice_indices@, slice_addresses(self.slices@), address)
    }

    /// The slice at the address.
    pub open spec fn slice_of(&self, address: int) -> Slice {
        self.slices@[self.slice_indices@[address] as int]
    }

    /// The entry `entry` of slice `k` names a live object of a staff, and
    /// that object is aligned to the slice.
    pub open spec fn entry_wf(&self, k: int, entry: SystemAddress) -> bool {
        &&& entry.staff_index < self.staves.len()
        &&& object_live(self.staves@[entry.staff_index as int], entry.object_address as int)
        &&& object_at(self.staves@[entry.staff_index as int], entry.object_address as int).slice_address
            == Some(self.slices@[k].address)
    }

    /// The slice table describes the slices, every staff is sound, every
    /// aligned object is listed by its live slice, every slice entry names
    /// an object aligned to that slice, no slice lists an object twice, and
    /// every rhythmic position is sound.
    pub open spec fn wf(&self) -> bool {
        &&& table_wf(self.slice_indices@, self.slice_address_free_list@, slice_addresses(self.slices@))
        &&& self.slice_indices.len() < usize::MAX
        &&& forall|s: int| 0 <= s < self.staves.len() ==> (#[trigger] self.staves@[s]).wf()
        &&& forall|s: int, i: int|
            0 <= s < self.staves.len() && 0 <= i < self.staves@[s].objects.len()
                && (#[trigger] self.staves@[s].objects@[i]).slice_address is Some ==> {
                let a = self.staves@[s].objects@[i].slice_address->0 as int;
                &&& self.slice_live(a)
                &&& slice_has_entry(self.slice_of(a), s, self.staves@[s].objects@[i].address as int)
            }
        &&& forall|k: int, e: int|
            0 <= k < self.slices.len() && 0 <= e < self.slices@[k].object_addresses.len() ==> self.entry_wf(
                k,
                #[trigger] self.slices@[k].object_addresses@[e],
            )
        &&& forall|k: int, e: int, f: int|
            0 <= k < self.slices.len() && 0 <= e < f < self.slices@[k].object_addresses.len()
                ==> #[trigger] self.slices@[k].object_addresses@[e] != #[trigger] self.slices@[k].object_addresses@[f]
        &&& forall|k: int|
            0 <= k < self.slices.len() && (#[trigger] self.slices@[k]).rhythmic_position is Some
                ==> position_wf(self.slices@[k].rhythmic_position->0)
    }
}


/// Add one to (or take one from) the index of each slice from position
/// `starting_slice_index` on.
pub fn increment_slice_indices(slices: &Vec<Slice>, slice_indices: &mut Vec<usize>, starting_slice_index: usize, increase: bool)
    requires
        starting_slice_index <= slices.len(),
        forall|k: int| 0 <= k < slices.len() ==> #[trigger] slices@[k].address < old(slice_indices).len(),
        forall|k: int, m: int| 0 <= k < m < slices.len() ==>
            (#[trigger] slices@[k]).address != (#[trigger] slices@[m]).address,
        forall|k: int|
            starting_slice_index <= k < slices.len() ==> (if increase {
                old(slice_indices)@[(#[trigger] slices@[k]).address as int] < usize::MAX
            } else {
                old(slice_indices)@[(#[trigger] slices@[k]).address as int] > 0
            }),
    ensures
        final(slice_indices).len() == old(slice_indices).len(),
        forall|k: int| 0 <= k < slices.len() ==>
            #[trigger] final(slice_indices)@[slices@[k].address as int] == if k >= starting_slice_index {
                if increase {
                    old(slice_indices)@[slices@[k].address as int] + 1
                } else {
                    old(slice_indices)@[slices@[k].address as int] - 1
                }
            } else {
                old(slice_indices)@[slices@[k].address as int] as int
            },
        forall|a: int|
            0 <= a < old(slice_indices).len() && (forall|k: int|
                starting_slice_index <= k < slices.len() ==> (#[trigger] slices@[k]).address != a)
                ==> #[trigger] final(slice_indices)@[a] == old(slice_indices)@[a],
{
    let ghost before = slice_indices@;
    let mut slice_index = starting_slice_index;
    while slice_index < slices.len()
        invariant
            starting_slice_index <= slice_index <= slices.len(),
            before == old(slice_indices)@,
            slice_indices.len() == before.len(),
            forall|k: int| 0 <= k < slices.len() ==> #[trigger] slices@[k].address < before.len(),
            forall|k: int, m: int| 0 <= k < m < slices.len() ==> (#[trigger] slices@[k]).address != (#[trigger] slices@[m]).address,
            forall|k: int|
                starting_slice_index <= k < slices.len() ==> (if increase {
                    before[(#[trigger] slices@[k]).address as int] < usize::MAX
                } else {
                    before[(#[trigger] slices@[k]).address as int] > 0
                }),
            forall|k: int| 0 <= k < slices.len() ==>
                #[trigger] slice_indices@[slices@[k].address as int] == if starting_slice_index <= k < slice_index {
                    if increase {
                        before[slices@[k].address as int] + 1
                    } else {
                        before[slices@[k].address as int] - 1
                    }
                } else {
                    before[slices@[k].address as int] as int
                },
            forall|a: int|
                0 <= a < before.len() && (forall|k: int|
                    starting_slice_index <= k < slices.len() ==> (#[trigger] slices@[k]).address != a)
                    ==> #[trigger] slice_indices@[a] == before[a],
        decreases slices.len() - slice_index,
    {
        let address = slices[slice_index].address;
        let value = slice_indices[address];
        let new_value = if increase { value + 1 } else { value - 1 };
        slice_indices.set(address, new_value);
        proof {
            assert forall|k: int| 0 <= k < slices.len() implies
                #[trigger] slice_indices@[slices@[k].address as int] == if starting_slice_index <= k < slice_index + 1 {
                    if increase {
                        before[slices@[k].address as int] + 1
                    } else {
                        before[slices@[k].address as int] - 1
                    }
                } else {
                    before[slices@[k].address as int] as int
                } by {
                if k != slice_index {
                    assert(slices@[k].address != slices@[slice_index as int].address);
                }
            }
            assert forall|a: int|
                0 <= a < before.len() && (forall|k: int|
                    starting_slice_index <= k < slices.len() ==> (#[trigger] slices@[k]).address != a)
                    implies #[trigger] slice_indices@[a] == before[a] by {
                assert(slices@[slice_index as int].address != a);
            }
        }
        slice_index = slice_index + 1;
    }
}

/// The slice is empty, with the given address and rhythmic position.
pub open spec fn is_empty_slice(slice: Slice, address: usize, rhythmic_position: Option<WholeNotes>) -> bool {
    &&& slice.address == address
    &&& slice.object_addresses@ == Seq::<SystemAddress>::empty()
    &&& slice.rhythmic_position == rhythmic_position
    &&& slice.distance_from_previous_slice == 0
}

/// The slices' addresses in a well-formed table are distinct and in range.
pub proof fn lemma_slice_addresses(score: &Score)
    requires
        table_wf(score.slice_indices@, score.slice_address_free_list@, slice_addresses(score.slices@)),
    ensures
        forall|k: int| 0 <= k < score.slices.len() ==> #[trigger] score.slices@[k].address < score.slice_indices.len(),
        forall|k: int| 0 <= k < score.slices.len() ==> score.slice_indices@[(#[trigger] score.slices@[k]).address as int] == k,
        forall|k: int, m: int| 0 <= k < m < score.slices.len() ==>
            (#[trigger] score.slices@[k]).address != (#[trigger] score.slices@[m]).address,
{
    assert forall|k: int| 0 <= k < score.slices.len() implies #[trigger] score.slices@[k].address < score.slice_indices.len() by {
        assert(slice_addresses(score.slices@)[k] == score.slices@[k].address);
    }
    assert forall|k: int| 0 <= k < score.slices.len() implies score.slice_indices@[(#[trigger] score.slices@[k]).address as int] == k by {
        assert(slice_addresses(score.slices@)[k] == score.slices@[k].address);
    }
    assert forall|k: int, m: int| 0 <= k < m < score.slices.len() implies
        (#[trigger] score.slices@[k]).address != (#[trigger] score.slices@[m]).address by {
        assert(slice_addresses(score.slices@)[k] == score.slices@[k].address);
        assert(slice_addresses(score.slices@)[m] == score.slices@[m].address);
        crate::address::lemma_addresses_distinct(score.slice_indices@, score.slice_address_free_list@, slice_addresses(score.slices@), k, m);
    }
}

/// Insert an empty slice at position `slice_index`, with the given rhythmic
/// position, and give it an address. Returns the new slice's address.
pub fn insert_slice(score: &mut Score, slice_index: usize, rhythmic_position: Option<WholeNotes>) -> (address: usize)
    requires
        old(score).wf(),
        slice_index <= old(score).slices.len(),
        rhythmic_position matches Some(p) ==> position_wf(p),
        old(score).slice_indices.len() + 1 < usize::MAX,
    ensures
        final(score).wf(),
        final(score).slices.len() == old(score).slices.len() + 1,
        final(score).slices@.remove(slice_index as int) == old(score).slices@,
        is_empty_slice(final(score).slices@[slice_index as int], address, rhythmic_position),
        final(score).staves@ == old(score).staves@,
        final(score).ghost_cursor == old(score).ghost_cursor,
        final(score).slice_indices.len() <= old(score).slice_indices.len() + 1,
        !old(score).slice_live(address as int),
        forall|a: int| old(score).slice_live(a) ==> final(score).slice_live(a) && final(score).slice_of(a)
            == old(score).slice_of(a),
{
    let ghost old_score = *score;
    proof {
        lemma_slice_addresses(score);
        assert forall|k: int| slice_index <= k < score.slices.len() implies
            score.slice_indices@[(#[trigger] score.slices@[k]).address as int] < usize::MAX by {}
    }
    increment_slice_indices(&score.slices, &mut score.slice_indices, slice_index, true);
    let ghost shifted = score.slice_indices@;
    let address = new_address(&mut score.slice_indices, &mut score.slice_address_free_list, slice_index);
    score.slices.insert(slice_index, Slice {
        address: address,
        object_addresses: Vec::new(),
        rhythmic_position: rhythmic_position,
        distance_from_previous_slice: 0,
    });
    proof {
        let old_slices = old_score.slices@;
        let indices = old_score.slice_indices@;
        let free = old_score.slice_address_free_list@;
        let new_slices = score.slices@;
        let addrs = slice_addresses(new_slices);
        let new_indices = score.slice_indices@;
        let new_free = score.slice_address_free_list@;
        assert(is_empty_slice(new_slices[slice_index as int], address, rhythmic_position));
        assert(new_slices.remove(slice_index as int) =~= old_slices);
        assert forall|k: int| 0 <= k < old_slices.len() implies (#[trigger] old_slices[k]).address != address by {
            assert(slice_addresses(old_slices)[k] == old_slices[k].address);
            if free.len() > 0 {
                assert(free[free.len() - 1] == address);
            }
        }
        assert(!old_score.slice_live(address as int));
        assert forall|k: int| 0 <= k < addrs.len() implies #[trigger] addrs[k] < new_indices.len() by {
            if k > slice_index {
                assert(new_slices[k] == old_slices[k - 1]);
            } else if k < slice_index {
                assert(new_slices[k] == old_slices[k]);
            }
        }
        assert forall|k: int| 0 <= k < addrs.len() implies new_indices[#[trigger] addrs[k] as int] == k by {
            if k > slice_index {
                assert(new_slices[k] == old_slices[k - 1]);
                assert(shifted[old_slices[k - 1].address as int] == indices[old_slices[k - 1].address as int] + 1);
            } else if k < slice_index {
                assert(new_slices[k] == old_slices[k]);
                assert(shifted[old_slices[k].address as int] == indices[old_slices[k].address as int]);
            }
        }
        assert forall|j: int| 0 <= j < new_free.len() implies #[trigger] new_free[j] < new_indices.len() by {
            assert(new_free[j] == free[j]);
        }
        assert forall|k: int, j: int| 0 <= k < addrs.len() && 0 <= j < new_free.len() implies
            #[trigger] addrs[k] != #[trigger] new_free[j] by {
            assert(new_free[j] == free[j]);
            if k > slice_index {
                assert(new_slices[k] == old_slices[k - 1]);
                assert(slice_addresses(old_slices)[k - 1] == old_slices[k - 1].address);
            } else if k < slice_index {
                assert(new_slices[k] == old_slices[k]);
                assert(slice_addresses(old_slices)[k] == old_slices[k].address);
            } else if free.len() > 0 {
                assert(free[free.len() - 1] == address);
                assert(j < free.len() - 1);
            }
        }
        assert forall|j: int, m: int| 0 <= j < m < new_free.len() implies #[trigger] new_free[j] != #[trigger] new_free[m] by {
            assert(new_free[j] == free[j]);
            assert(new_free[m] == free[m]);
        }
        assert forall|a: int| old_score.slice_live(a) implies score.slice_live(a) && score.slice_of(a) == old_score.slice_of(a) by {
            let k = indices[a] as int;
            assert(old_slices[k].address == a);
            assert(slice_addresses(old_slices)[k] == a);
            if k >= slice_index {
                assert(new_indices[a] == k + 1);
                assert(new_slices[k + 1] == old_slices[k]);
                assert(addrs[k + 1] == a);
            } else {
                assert(new_indices[a] == k);
                assert(new_slices[k] == old_slices[k]);
                assert(addrs[k] == a);
            }
        }
        assert forall|k: int, e: int|
            0 <= k < new_slices.len() && 0 <= e < new_slices[k].object_addresses.len() implies score.entry_wf(
                k,
                #[trigger] new_slices[k].object_addresses@[e],
            ) by {
            if k > slice_index {
                assert(new_slices[k] == old_slices[k - 1]);
                assert(old_score.entry_wf(k - 1, old_slices[k - 1].object_addresses@[e]));
            } else if k < slice_index {
                assert(new_slices[k] == old_slices[k]);
                assert(old_score.entry_wf(k, old_slices[k].object_addresses@[e]));
            }
        }
        assert forall|k: int, e: int, f: int|
            0 <= k < new_slices.len() && 0 <= e < f < new_slices[k].object_addresses.len() implies
            #[trigger] new_slices[k].object_addresses@[e] != #[trigger] new_slices[k].object_addresses@[f] by {
            if k > slice_index {
                assert(new_slices[k] == old_slices[k - 1]);
                assert(old_slices[k - 1].object_addresses@[e] == new_slices[k].object_addresses@[e]);
            } else if k < slice_index {
                assert(new_slices[k] == old_slices[k]);
            }
        }
        assert forall|k: int|
            0 <= k < new_slices.len() && (#[trigger] new_slices[k]).rhythmic_position is Some
                implies position_wf(new_slices[k].rhythmic_position->0) by {
            if k > slice_index {
                assert(new_slices[k] == old_slices[k - 1]);
            } else if k < slice_index {
                assert(new_slices[k] == old_slices[k]);
            }
        }
        assert forall|s: int, i: int|
            0 <= s < score.staves.len() && 0 <= i < score.staves@[s].objects.len()
                && (#[trigger] score.staves@[s].objects@[i]).slice_address is Some implies {
                let a = score.staves@[s].objects@[i].slice_address->0 as int;
                &&& score.slice_live(a)
                &&& slice_has_entry(score.slice_of(a), s, score.staves@[s].objects@[i].address as int)
            } by {
            let a = score.staves@[s].objects@[i].slice_address->0 as int;
            assert(old_score.slice_live(a));
        }
    }
    address
}


/// The staff's address table has room for `n` more addresses.
pub open spec fn staff_has_room(staff: Staff, n: int) -> bool {
    staff.object_indices.len() + n < usize::MAX
}

/// Insert an object into staff `staff_index` at `object_index`, aligned to
/// the slice at `slice_index`, and list it in that slice; the slice after it
/// and the object's own slice need respacing. Returns the object's address.
pub fn insert_slice_object(
    slice_addresses_to_respace: &mut Vec<usize>,
    score: &mut Score,
    staff_index: usize,
    object: Object,
    object_index: usize,
    slice_index: usize,
) -> (address: usize)
    requires
        old(score).wf(),
        staff_index < old(score).staves.len(),
        slice_index < old(score).slices.len(),
        object_index <= old(score).staves@[staff_index as int].objects.len(),
        staff_has_room(old(score).staves@[staff_index as int], 1),
        object.slice_address == Some(old(score).slices@[slice_index as int].address),
        unlinked(object),
        object_content_wf(object, old(score).staves@[staff_index as int].line_count),
        insertion_keeps_links(old(score).staves@[staff_index as int].objects@, object_index as int),
    ensures
        final(score).wf(),
        final(score).staves.len() == old(score).staves.len(),
        forall|s: int| 0 <= s < old(score).staves.len() && s != staff_index ==> #[trigger] final(score).staves@[s] == old(score).staves@[s],
        final(score).staves@[staff_index as int].objects@ == old(score).staves@[staff_index as int].objects@.insert(
            object_index as int,
            with_address(object, address),
        ),
        final(score).slice_indices@ == old(score).slice_indices@,
        final(score).slice_address_free_list@ == old(score).slice_address_free_list@,
        final(score).slices.len() == old(score).slices.len(),
        forall|k: int| 0 <= k < old(score).slices.len() && k != slice_index ==> #[trigger] final(score).slices@[k] == old(score).slices@[k],
        final(score).slices@[slice_index as int].address == old(score).slices@[slice_index as int].address,
        final(score).slices@[slice_index as int].rhythmic_position == old(score).slices@[slice_index as int].rhythmic_position,
        final(score).slices@[slice_index as int].object_addresses@ == old(score).slices@[slice_index as int].object_addresses@.push(
            SystemAddress { staff_index: staff_index, object_address: address },
        ),
        crate::staff::same_staff_settings(&final(score).staves@[staff_index as int], &old(score).staves@[staff_index as int]),
        final(score).ghost_cursor == old(score).ghost_cursor,
        final(score).staves@[staff_index as int].object_indices.len() <= old(score).staves@[staff_index as int].object_indices.len() + 1,
{
    let ghost old_score = *score;
    let ghost old_staff = score.staves@[staff_index as int];
    let ghost slice_address = score.slices@[slice_index as int].address;
    let next_slice_index = slice_index + 1;
    if next_slice_index < score.slices.len() {
        push_if_not_present(slice_addresses_to_respace, score.slices[next_slice_index].address);
    }
    proof {
        assert(old_staff.wf());
        assert(old_staff.objects@.last().slice_address is Some);
        if object_index < old_staff.objects.len() {
            assert(old_staff.objects@[old_staff.objects.len() - 1].slice_address is Some);
        }
    }
    let address = insert_object(slice_addresses_to_respace, &mut score.staves[staff_index], object_index, object);
    score.slices[slice_index].object_addresses.push(SystemAddress { staff_index, object_address: address });
    proof {
        assert(!object_live(old_staff, address as int)) by {
            if object_live(old_staff, address as int) {
                let i = old_staff.object_indices@[address as int] as int;
                assert(crate::staff::object_addresses(old_staff.objects@)[i] == address);
                if old_staff.object_address_free_list.len() > 0 {
                    let j = old_staff.object_address_free_list.len() - 1;
                    assert(old_staff.object_address_free_list@[j] == address);
                }
            }
        }
        lemma_insert_keeps_live(old_staff, score.staves@[staff_index as int], object_index as int, address);
        lemma_insert_keeps_staff_wf(old_staff, score.staves@[staff_index as int], object_index as int, address);
        assert(score.wf()) by {
            lemma_insert_slice_object_wf(old_score, *score, staff_index as int, slice_index as int, object_index as int, address);
        }
    }
    address
}


/// After an object is inserted into one staff and listed in one slice, the
/// score is sound again.
proof fn lemma_insert_slice_object_wf(old_score: Score, new_score: Score, s: int, k: int, idx: int, address: usize)
    requires
        old_score.wf(),
        0 <= s < old_score.staves.len(),
        0 <= k < old_score.slices.len(),
        new_score.staves.len() == old_score.staves.len(),
        forall|t: int| 0 <= t < old_score.staves.len() && t != s ==> #[trigger] new_score.staves@[t] == old_score.staves@[t],
        new_score.staves@[s].wf(),
        0 <= idx <= old_score.staves@[s].objects.len(),
        new_score.staves@[s].objects@ == old_score.staves@[s].objects@.insert(idx, new_score.staves@[s].objects@[idx]),
        new_score.staves@[s].objects@[idx].address == address,
        new_score.staves@[s].objects@[idx].slice_address == Some(old_score.slices@[k].address),
        object_live(new_score.staves@[s], address as int),
        object_at(new_score.staves@[s], address as int) == new_score.staves@[s].objects@[idx],
        forall|a: int| object_live(old_score.staves@[s], a) ==> object_live(new_score.staves@[s], a)
            && object_at(new_score.staves@[s], a) == object_at(old_score.staves@[s], a),
        new_score.slice_indices@ == old_score.slice_indices@,
        new_score.slice_address_free_list@ == old_score.slice_address_free_list@,
        new_score.slices.len() == old_score.slices.len(),
        forall|m: int| 0 <= m < old_score.slices.len() && m != k ==> #[trigger] new_score.slices@[m] == old_score.slices@[m],
        new_score.slices@[k].address == old_score.slices@[k].address,
        new_score.slices@[k].rhythmic_position == old_score.slices@[k].rhythmic_position,
        new_score.slices@[k].object_addresses@ == old_score.slices@[k].object_addresses@.push(
            SystemAddress { staff_index: s as usize, object_address: address },
        ),
        !object_live(old_score.staves@[s], address as int),
    ensures
        new_score.wf(),
{
    assert(slice_addresses(new_score.slices@) =~= slice_addresses(old_score.slices@)) by {
        assert forall|m: int| 0 <= m < new_score.slices.len() implies new_score.slices@[m].address == old_score.slices@[m].address by {
            if m != k {
                assert(new_score.slices@[m] == old_score.slices@[m]);
            }
        }
    }
    assert forall|a: int| old_score.slice_live(a) implies new_score.slice_live(a) && (forall|t: int, o: int|
        slice_has_entry(old_score.slice_of(a), t, o) ==> slice_has_entry(new_score.slice_of(a), t, o)) by {
        let m = old_score.slice_indices@[a] as int;
        if m == k {
            assert forall|t: int, o: int| slice_has_entry(old_score.slice_of(a), t, o) implies slice_has_entry(new_score.slice_of(a), t, o) by {
                let e = choose|e: int| 0 <= e < old_score.slice_of(a).object_addresses.len() && #[trigger] old_score.slice_of(a).object_addresses@[e]
                    == (SystemAddress { staff_index: t as usize, object_address: o as usize });
                assert(new_score.slice_of(a).object_addresses@[e] == old_score.slice_of(a).object_addresses@[e]);
            }
        } else {
            assert(new_score.slices@[m] == old_score.slices@[m]);
        }
    }
    assert forall|t: int| 0 <= t < new_score.staves.len() implies (#[trigger] new_score.staves@[t]).wf() by {
        if t != s {
            assert(new_score.staves@[t] == old_score.staves@[t]);
        }
    }
    assert forall|t: int, i: int|
        0 <= t < new_score.staves.len() && 0 <= i < new_score.staves@[t].objects.len()
            && (#[trigger] new_score.staves@[t].objects@[i]).slice_address is Some implies {
            let a = new_score.staves@[t].objects@[i].slice_address->0 as int;
            &&& new_score.slice_live(a)
            &&& slice_has_entry(new_score.slice_of(a), t, new_score.staves@[t].objects@[i].address as int)
        } by {
        if t != s {
            assert(new_score.staves@[t] == old_score.staves@[t]);
            let a = old_score.staves@[t].objects@[i].slice_address->0 as int;
            assert(old_score.slice_live(a));
        } else if i == idx {
            let a = old_score.slices@[k].address as int;
            assert(slice_addresses(old_score.slices@)[k] == a);
            assert(old_score.slice_indices@[a] == k);
            let n = old_score.slices@[k].object_addresses.len() as int;
            assert(new_score.slices@[k].object_addresses@[n] == SystemAddress { staff_index: s as usize, object_address: address });
        } else {
            let oi = if i < idx { i } else { i - 1 };
            assert(new_score.staves@[s].objects@[i] == old_score.staves@[s].objects@[oi]);
            let a = old_score.staves@[s].objects@[oi].slice_address->0 as int;
            assert(old_score.slice_live(a));
        }
    }
    assert forall|m: int, e: int|
        0 <= m < new_score.slices.len() && 0 <= e < new_score.slices@[m].object_addresses.len() implies new_score.entry_wf(
            m,
            #[trigger] new_score.slices@[m].object_addresses@[e],
        ) by {
        let entry = new_score.slices@[m].object_addresses@[e];
        if m == k && e == old_score.slices@[k].object_addresses.len() {
            assert(entry == SystemAddress { staff_index: s as usize, object_address: address });
        } else {
            if m == k {
                assert(entry == old_score.slices@[k].object_addresses@[e]);
            } else {
                assert(new_score.slices@[m] == old_score.slices@[m]);
            }
            assert(old_score.entry_wf(m, entry));
            if entry.staff_index != s {
                assert(new_score.staves@[entry.staff_index as int] == old_score.staves@[entry.staff_index as int]);
            }
        }
    }
    assert forall|m: int, e: int, f: int|
        0 <= m < new_score.slices.len() && 0 <= e < f < new_score.slices@[m].object_addresses.len() implies
        #[trigger] new_score.slices@[m].object_addresses@[e] != #[trigger] new_score.slices@[m].object_addresses@[f] by {
        if m == k {
            let entry = old_score.slices@[k].object_addresses@[e];
            assert(new_score.slices@[k].object_addresses@[e] == entry);
            if f < old_score.slices@[k].object_addresses.len() {
                assert(new_score.slices@[k].object_addresses@[f] == old_score.slices@[k].object_addresses@[f]);
            } else {
                assert(old_score.entry_wf(k, entry));
            }
        } else {
            assert(new_score.slices@[m] == old_score.slices@[m]);
        }
    }
    assert forall|m: int|
        0 <= m < new_score.slices.len() && (#[trigger] new_score.slices@[m]).rhythmic_position is Some
            implies position_wf(new_score.slices@[m].rhythmic_position->0) by {
        if m != k {
            assert(new_score.slices@[m] == old_score.slices@[m]);
        }
    }
}

/// A change to one staff that keeps it sound and aligns the same live
/// addresses to the same slices leaves the score sound.
pub proof fn lemma_staff_change_keeps_score_wf(old_score: Score, new_score: Score, s: int)
    requires
        old_score.wf(),
        0 <= s < old_score.staves.len(),
        new_score.staves.len() == old_score.staves.len(),
        forall|t: int| 0 <= t < old_score.staves.len() && t != s ==> #[trigger] new_score.staves@[t] == old_score.staves@[t],
        new_score.staves@[s].wf(),
        same_alignment(old_score.staves@[s], new_score.staves@[s]),
        new_score.slices@ == old_score.slices@,
        new_score.slice_indices@ == old_score.slice_indices@,
        new_score.slice_address_free_list@ == old_score.slice_address_free_list@,
    ensures
        new_score.wf(),
{
    let old_staff = old_score.staves@[s];
    let new_staff = new_score.staves@[s];
    assert forall|t: int| 0 <= t < new_score.staves.len() implies (#[trigger] new_score.staves@[t]).wf() by {
        if t != s {
            assert(new_score.staves@[t] == old_score.staves@[t]);
        }
    }
    assert forall|t: int, i: int|
        0 <= t < new_score.staves.len() && 0 <= i < new_score.staves@[t].objects.len()
            && (#[trigger] new_score.staves@[t].objects@[i]).slice_address is Some implies {
            let a = new_score.staves@[t].objects@[i].slice_address->0 as int;
            &&& new_score.slice_live(a)
            &&& slice_has_entry(new_score.slice_of(a), t, new_score.staves@[t].objects@[i].address as int)
        } by {
        if t != s {
            assert(new_score.staves@[t] == old_score.staves@[t]);
            let a = old_score.staves@[t].objects@[i].slice_address->0 as int;
            assert(old_score.slice_live(a));
        } else {
            let o = new_staff.objects@[i];
            let addr = o.address as int;
            assert(crate::staff::object_addresses(new_staff.objects@)[i] == addr);
            assert(object_live(new_staff, addr));
            assert(object_at(new_staff, addr) == o);
            assert(object_live(old_staff, addr));
            let oi = old_staff.object_indices@[addr] as int;
            assert(old_staff.objects@[oi] == object_at(old_staff, addr));
            let a = old_staff.objects@[oi].slice_address->0 as int;
            assert(old_score.slice_live(a));
        }
    }
    assert forall|k: int, e: int|
        0 <= k < new_score.slices.len() && 0 <= e < new_score.slices@[k].object_addresses.len() implies new_score.entry_wf(
            k,
            #[trigger] new_score.slices@[k].object_addresses@[e],
        ) by {
        let entry = new_score.slices@[k].object_addresses@[e];
        assert(old_score.entry_wf(k, entry));
        if entry.staff_index as int != s {
            assert(new_score.staves@[entry.staff_index as int] == old_score.staves@[entry.staff_index as int]);
        } else {
            assert(object_at(old_staff, entry.object_address as int).slice_address is Some);
        }
    }
}

/// The position of the first occurrence of `x` in `v`, or -1.
pub open spec fn position_of(v: Seq<usize>, x: usize) -> int
    decreases v.len(),
{
    if v.len() == 0 {
        -1
    } else if v.last() == x && position_of(v.drop_last(), x) < 0 {
        v.len() - 1
    } else {
        position_of(v.drop_last(), x)
    }
}

/// The position of the first occurrence lies in range and holds the element;
/// none comes before it.
pub proof fn lemma_position_of(v: Seq<usize>, x: usize)
    ensures
        -1 <= position_of(v, x) < v.len(),
        position_of(v, x) >= 0 ==> v[position_of(v, x)] == x,
        forall|j: int| 0 <= j < v.len() && (position_of(v, x) < 0 || j < position_of(v, x)) ==> #[trigger] v[j] != x,
    decreases v.len(),
{
    if v.len() > 0 {
        lemma_position_of(v.drop_last(), x);
        assert forall|j: int| 0 <= j < v.len() - 1 implies #[trigger] v[j] == v.drop_last()[j] by {}
    }
}

/// `v` without the first occurrence of `x`, the rest in order.
pub open spec fn without_first(v: Seq<usize>, x: usize) -> Seq<usize> {
    if position_of(v, x) < 0 {
        v
    } else {
        v.remove(position_of(v, x))
    }
}

/// `v` with the first occurrence of `x` replaced by the last element, which
/// goes from the end.
pub open spec fn swap_without_first(v: Seq<usize>, x: usize) -> Seq<usize> {
    if position_of(v, x) < 0 {
        v
    } else {
        v.update(position_of(v, x), v.last()).drop_last()
    }
}

/// Remove the first occurrence of `x` from `v`, keeping the order.
fn remove_first(v: &mut Vec<usize>, x: usize)
    ensures
        final(v)@ == without_first(old(v)@, x),
{
    proof {
        lemma_position_of(v@, x);
    }
    let mut i: usize = 0;
    while i < v.len()
        invariant
            i <= v.len(),
            v@ == old(v)@,
            forall|j: int| 0 <= j < i ==> v@[j] != x,
            -1 <= position_of(v@, x) < v.len(),
            position_of(v@, x) >= 0 ==> v@[position_of(v@, x)] == x,
            forall|j: int| 0 <= j < v.len() && (position_of(v@, x) < 0 || j < position_of(v@, x)) ==> #[trigger] v@[j] != x,
        decreases v.len() - i,
    {
        if v[i] == x {
            v.remove(i);
            return;
        }
        i = i + 1;
    }
}

/// Replace the first occurrence of `x` in `v` by the last element.
fn swap_remove_first(v: &mut Vec<usize>, x: usize)
    ensures
        final(v)@ == swap_without_first(old(v)@, x),
{
    proof {
        lemma_position_of(v@, x);
    }
    let mut i: usize = 0;
    while i < v.len()
        invariant
            i <= v.len(),
            v@ == old(v)@,
            forall|j: int| 0 <= j < i ==> v@[j] != x,
            -1 <= position_of(v@, x) < v.len(),
            position_of(v@, x) >= 0 ==> v@[position_of(v@, x)] == x,
            forall|j: int| 0 <= j < v.len() && (position_of(v@, x) < 0 || j < position_of(v@, x)) ==> #[trigger] v@[j] != x,
        decreases v.len() - i,
    {
        if v[i] == x {
            v.swap_remove(i);
            proof {
                assert(v@ =~= old(v)@.update(i as int, old(v)@.last()).drop_last());
            }
            return;
        }
        i = i + 1;
    }
}

/// The position of the first occurrence of `entry` in a slice's entries,
/// or -1.
pub open spec fn entry_position(entries: Seq<SystemAddress>, entry: SystemAddress) -> int
    decreases entries.len(),
{
    if entries.len() == 0 {
        -1
    } else if entries.last() == entry && entry_position(entries.drop_last(), entry) < 0 {
        entries.len() - 1
    } else {
        entry_position(entries.drop_last(), entry)
    }
}

/// The first occurrence of an entry lies in range and holds it, and no
/// entry before it does.
pub proof fn lemma_entry_position(entries: Seq<SystemAddress>, entry: SystemAddress)
    ensures
        -1 <= entry_position(entries, entry) < entries.len(),
        entry_position(entries, entry) >= 0 ==> entries[entry_position(entries, entry)] == entry,
        forall|j: int|
            0 <= j < entries.len() && (entry_position(entries, entry) < 0 || j < entry_position(entries, entry))
                ==> #[trigger] entries[j] != entry,
    decreases entries.len(),
{
    if entries.len() > 0 {
        lemma_entry_position(entries.drop_last(), entry);
        assert forall|j: int| 0 <= j < entries.len() - 1 implies #[trigger] entries[j] == entries.drop_last()[j] by {}
    }
}

/// Whether every entry of `entry`'s staff in a slice is `entry` itself.
pub open spec fn only_entry_of_staff(entries: Seq<SystemAddress>, entry: SystemAddress) -> bool {
    forall|j: int| 0 <= j < entries.len() && (#[trigger] entries[j]).staff_index == entry.staff_index ==> entries[j] == entry
}

/// Whether `p` is the first entry of staff `staff_index` in a slice, or -1
/// when the slice lists none of that staff.
pub open spec fn first_of_staff(entries: Seq<SystemAddress>, staff_index: int, p: int) -> bool {
    if p < 0 {
        forall|j: int| 0 <= j < entries.len() ==> (#[trigger] entries[j]).staff_index != staff_index
    } else {
        &&& p < entries.len()
        &&& entries[p].staff_index == staff_index
        &&& forall|j: int| 0 <= j < p ==> (#[trigger] entries[j]).staff_index != staff_index
    }
}

/// Every slice's address indexes the slice in the table.
pub open spec fn slice_table_ok(slices: Seq<Slice>, slice_indices: Seq<usize>) -> bool {
    forall|k: int| 0 <= k < slices.len() ==> (#[trigger] slices[k]).address < slice_indices.len() && slice_indices[slices[k].address as int] == k
}

/// Take the object of staff `staff_index` out of its slice, if it has one:
/// the slice goes when the object is all it holds (its address leaves the
/// respacing list), otherwise the slice loses the object's entry, which is
/// the slice's first entry of that staff whenever the slice lists no other
/// object of the staff. The slice after it needs respacing.
pub fn remove_object_from_slice(
    slice_addresses_to_respace: &mut Vec<usize>,
    slices: &mut Vec<Slice>,
    slice_indices: &mut Vec<usize>,
    staff_index: usize,
    object: &Object,
)
    requires
        slice_table_ok(old(slices)@, old(slice_indices)@),
        object.slice_address matches Some(a) ==> is_live(old(slice_indices)@, slice_addresses(old(slices)@), a as int),
    ensures
        match object.slice_address {
            None => {
                &&& final(slices)@ == old(slices)@
                &&& final(slice_indices)@ == old(slice_indices)@
                &&& final(slice_addresses_to_respace)@ == old(slice_addresses_to_respace)@
            },
            Some(a) => {
                let k = old(slice_indices)@[a as int] as int;
                let respaced = if k + 1 < old(slices).len() {
                    pushed_if_absent(old(slice_addresses_to_respace)@, old(slices)@[k + 1].address)
                } else {
                    old(slice_addresses_to_respace)@
                };
                let entries = old(slices)@[k].object_addresses@;
                if entries.len() == 1 {
                    &&& final(slices)@ == old(slices)@.remove(k)
                    &&& final(slice_indices).len() == old(slice_indices).len()
                    &&& forall|m: int| 0 <= m < old(slices).len() ==> #[trigger] final(slice_indices)@[old(slices)@[m].address as int]
                        == if m > k { m - 1 } else { m }
                    &&& forall|b: int| 0 <= b < old(slice_indices).len() && (forall|m: int| k < m < old(slices).len() ==> (
                        #[trigger] old(slices)@[m]).address != b) ==> #[trigger] final(slice_indices)@[b] == old(slice_indices)@[b]
                    &&& final(slice_addresses_to_respace)@ == swap_without_first(without_first(respaced, a), a)
                } else {
                    let e = entry_position(entries, SystemAddress { staff_index: staff_index, object_address: object.address });
                    &&& final(slices).len() == old(slices).len()
                    &&& forall|m: int| 0 <= m < old(slices).len() && m != k ==> #[trigger] final(slices)@[m] == old(slices)@[m]
                    &&& final(slices)@[k].address == old(slices)@[k].address
                    &&& final(slices)@[k].rhythmic_position == old(slices)@[k].rhythmic_position
                    &&& final(slices)@[k].distance_from_previous_slice == old(slices)@[k].distance_from_previous_slice
                    &&& final(slices)@[k].object_addresses@ == if e < 0 { entries } else { entries.remove(e) }
                    &&& (only_entry_of_staff(entries, SystemAddress { staff_index: staff_index, object_address: object.address })
                        ==> first_of_staff(entries, staff_index as int, e))
                    &&& final(slice_indices)@ == old(slice_indices)@
                    &&& final(slice_addresses_to_respace)@ == respaced
                }
            },
        },
{
    if let Some(slice_address) = object.slice_address {
        proof {
            assert(slice_addresses(slices@)[slice_indices@[slice_address as int] as int] == slice_address);
        }
        let slice_index = slice_indices[slice_address];
        proof {
            assert(slice_index < slices.len());
        }
        let next_slice_index = slice_index + 1;
        if next_slice_index < slices.len() {
            push_if_not_present(slice_addresses_to_respace, slices[next_slice_index].address);
        }
        let objects_in_slice_count = slices[slice_index].object_addresses.len();
        if objects_in_slice_count == 1 {
            remove_first(slice_addresses_to_respace, slice_address);
            swap_remove_first(slice_addresses_to_respace, slice_address);
            let ghost before = slices@;
            let ghost indices = slice_indices@;
            slices.remove(slice_index);
            proof {
                assert forall|m: int| 0 <= m < slices.len() implies #[trigger] slices@[m].address < slice_indices.len() by {
                    let om = if m < slice_index { m } else { m + 1 };
                    assert(slices@[m] == before[om]);
                }
                assert forall|m: int, n: int| 0 <= m < n < slices.len() implies
                    (#[trigger] slices@[m]).address != (#[trigger] slices@[n]).address by {
                    let om = if m < slice_index { m } else { m + 1 };
                    let on = if n < slice_index { n } else { n + 1 };
                    assert(slices@[m] == before[om]);
                    assert(slices@[n] == before[on]);
                }
                assert forall|m: int| slice_index <= m < slices.len() implies
                    slice_indices@[(#[trigger] slices@[m]).address as int] > 0 by {
                    assert(slices@[m] == before[m + 1]);
                }
            }
            increment_slice_indices(slices, slice_indices, slice_index, false);
            proof {
                assert forall|m: int| 0 <= m < before.len() implies #[trigger] slice_indices@[before[m].address as int]
                    == if m > slice_index { m - 1 } else { m } by {
                    if m < slice_index {
                        assert(slices@[m] == before[m]);
                    } else if m > slice_index {
                        assert(slices@[m - 1] == before[m]);
                    } else {
                        assert forall|n: int| slice_index <= n < slices.len() implies (#[trigger] slices@[n]).address != before[m].address by {
                            assert(slices@[n] == before[n + 1]);
                        }
                    }
                }
                assert forall|b: int| 0 <= b < indices.len() && (forall|m: int| slice_index < m < before.len() ==> (
                    #[trigger] before[m]).address != b) implies #[trigger] slice_indices@[b] == indices[b] by {
                    assert forall|n: int| slice_index <= n < slices.len() implies (#[trigger] slices@[n]).address != b by {
                        assert(slices@[n] == before[n + 1]);
                    }
                }
            }
        } else {
            let ghost entries = slices@[slice_index as int].object_addresses@;
            let ghost respaced = slice_addresses_to_respace@;
            let entry = SystemAddress { staff_index: staff_index, object_address: object.address };
            proof {
                lemma_entry_position(entries, entry);
            }
            let mut object_address_index: usize = 0;
            while object_address_index < objects_in_slice_count
                invariant
                    objects_in_slice_count == entries.len(),
                    objects_in_slice_count != 1,
                    slice_index < slices.len(),
                    entries == slices@[slice_index as int].object_addresses@,
                    slices@ == old(slices)@,
                    slice_indices@ == old(slice_indices)@,
                    slice_addresses_to_respace@ == respaced,
                    slice_index == old(slice_indices)@[slice_address as int],
                    object.slice_address == Some(slice_address),
                    entry == (SystemAddress { staff_index: staff_index, object_address: object.address }),
                    respaced == if slice_index + 1 < old(slices).len() {
                        pushed_if_absent(old(slice_addresses_to_respace)@, old(slices)@[slice_index + 1].address)
                    } else {
                        old(slice_addresses_to_respace)@
                    },
                    object_address_index <= objects_in_slice_count,
                    forall|j: int| 0 <= j < object_address_index ==> #[trigger] entries[j] != entry,
                    -1 <= entry_position(entries, entry) < entries.len(),
                    entry_position(entries, entry) >= 0 ==> entries[entry_position(entries, entry)] == entry,
                    forall|j: int|
                        0 <= j < entries.len() && (entry_position(entries, entry) < 0 || j < entry_position(entries, entry))
                            ==> #[trigger] entries[j] != entry,
                decreases objects_in_slice_count - object_address_index,
            {
                if slices[slice_index].object_addresses[object_address_index] == entry {
                    slices[slice_index].object_addresses.remove(object_address_index);
                    proof {
                        assert(object_address_index == entry_position(entries, entry));
                        assert(slices.len() == old(slices).len());
                        assert(slices@[slice_index as int].address == old(slices)@[slice_index as int].address);
                        assert(slices@[slice_index as int].object_addresses@ == entries.remove(object_address_index as int));
                        assert(forall|m: int| 0 <= m < old(slices).len() && m != slice_index ==> #[trigger] slices@[m] == old(slices)@[m]);
                        assert(slice_indices@ == old(slice_indices)@);
                        assert(slices@[slice_index as int].rhythmic_position == old(slices)@[slice_index as int].rhythmic_position);
                        assert(slices@[slice_index as int].distance_from_previous_slice == old(slices)@[slice_index as int].distance_from_previous_slice);
                    }
                    return;
                }
                object_address_index = object_address_index + 1;
            }
        }
    }
}

} // verus!
