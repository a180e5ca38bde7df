use vstd::prelude::*;
use crate::address::{table_wf, new_address};
use crate::notation::{
    clamped_subtract, clef_wf, key_sig_letters_wf, letter_accidental, spec_staff_middle_pitch,
    staff_middle_pitch, Accidental, Clef, KeySig, KeySigAccidental, Pitch, circle_of_fifths_accidental,
    flat_floors, sharp_floors, key_sig_from_accidental_count,
};

verus! {

/// The pitch of a note and the address of the accidental drawn before it.
pub struct NotePitch {
    pub accidental_address: Option<usize>,
    pub pitch: Pitch,
}

/// What an object of a staff is.
pub enum ObjectType {
    /// The accidental drawn before the note at `note_address`.
    Accidental { note_address: usize },
    Barline { extend_to_next_staff_down: bool },
    Clef(Clef),
    /// A note (with a pitch) or a rest (without one).
    Duration { pitch: Option<NotePitch>, log2_duration: i8, augmentation_dot_count: u8 },
    KeySig(KeySig),
    /// The empty object that ends a staff.
    Blank,
    TimeSig { numerator: u16, denominator: u16, is_header: bool },
}

/// An object of a staff: what it is, its address in the staff's table, the
/// address of the slice it is aligned to (if any), the horizontal distance
/// from it to the next slice, and two display flags.
pub struct Object {
    pub object_type: ObjectType,
    pub address: usize,
    pub slice_address: Option<usize>,
    pub distance_to_next_slice: i32,
    pub is_selected: bool,
    pub is_valid_cursor_position: bool,
}

/// A staff: its scale, its objects in left-to-right order with their
/// address table, its vertical position and its number of lines.
pub struct Staff {
    pub scale_index: usize,
    pub objects: Vec<Object>,
    pub object_indices: Vec<usize>,
    pub object_address_free_list: Vec<usize>,
    pub vertical_center: i32,
    pub line_count: u8,
}

/// The address of an object of a system: its staff and its address there.
#[derive(Clone, Copy, PartialEq, Eq, Structural, Debug)]
pub struct SystemAddress {
    pub staff_index: usize,
    pub object_address: usize,
}

/// The addresses of a list of objects.
pub open spec fn object_addresses(objects: Seq<Object>) -> Seq<usize> {
    Seq::new(objects.len(), |i: int| objects[i].address)
}

/// Some object at or after position `index` is aligned to a slice.
pub open spec fn has_slice_from(objects: Seq<Object>, index: int) -> bool {
    exists|j: int| index <= j < objects.len() && (#[trigger] objects[j]).slice_address is Some
}

/// The slice address of the first object at or after `index` that has one.
pub open spec fn spec_next_slice_address(objects: Seq<Object>, index: int) -> usize
    decreases objects.len() - index,
{
    if index < 0 || index >= objects.len() {
        0
    } else {
        match objects[index].slice_address {
            Some(address) => address,
            None => spec_next_slice_address(objects, index + 1),
        }
    }
}

/// The vector with the element added at the end, unless it is there already.
pub open spec fn pushed_if_absent(v: Seq<usize>, element: usize) -> Seq<usize> {
    if v.contains(element) {
        v
    } else {
        v.push(element)
    }
}

impl Staff {
    /// The staff's address table describes its objects.
    pub open spec fn table_wf(&self) -> bool {
        table_wf(self.object_indices@, self.object_address_free_list@, object_addresses(self.objects@))
    }
}

/// Add `element` at the end of `v`, unless `v` holds it already.
pub fn push_if_not_present(v: &mut Vec<usize>, new_element: usize)
    ensures
        final(v)@ == pushed_if_absent(old(v)@, new_element),
{
    let mut i: usize = 0;
    while i < v.len()
        invariant
            i <= v.len(),
            v@ == old(v)@,
            forall|k: int| 0 <= k < i ==> v@[k] != new_element,
        decreases v.len() - i,
    {
        if v[i] == new_element {
            proof {
                assert(old(v)@.contains(new_element));
            }
            return;
        }
        i = i + 1;
    }
    v.push(new_element);
}

/// The address of the slice of the first object at or after `object_index`
/// that is aligned to one.
pub fn next_slice_address(staff: &Staff, object_index: usize) -> (address: usize)
    requires
        has_slice_from(staff.objects@, object_index as int),
    ensures
        address == spec_next_slice_address(staff.objects@, object_index as int),
{
    let mut index = object_index;
    while index < staff.objects.len()
        invariant
            object_index <= index,
            has_slice_from(staff.objects@, index as int),
            spec_next_slice_address(staff.objects@, object_index as int)
                == spec_next_slice_address(staff.objects@, index as int),
        decreases staff.objects.len() - index,
    {
        if let Some(slice_address) = staff.objects[index].slice_address {
            return slice_address;
        }
        proof {
            let j = choose|j: int| index <= j < staff.objects@.len() && (#[trigger] staff.objects@[j]).slice_address is Some;
            assert(j != index);
        }
        index = index + 1;
    }
    proof {
        let j = choose|j: int| index <= j < staff.objects@.len() && (#[trigger] staff.objects@[j]).slice_address is Some;
    }
    0
}

/// Add one to (or take one from) the index of each object from position
/// `starting_object_index` on.
pub fn increment_object_indices(staff: &mut Staff, starting_object_index: usize, increase: bool)
    requires
        starting_object_index <= old(staff).objects.len(),
        forall|i: int| 0 <= i < old(staff).objects.len() ==> #[trigger] old(staff).objects@[i].address < old(staff).object_indices.len(),
        forall|i: int, k: int| 0 <= i < k < old(staff).objects.len() ==>
            (#[trigger] old(staff).objects@[i]).address != (#[trigger] old(staff).objects@[k]).address,
        forall|i: int|
            starting_object_index <= i < old(staff).objects.len() ==> (if increase {
                old(staff).object_indices@[(#[trigger] old(staff).objects@[i]).address as int] < usize::MAX
            } else {
                old(staff).object_indices@[(#[trigger] old(staff).objects@[i]).address as int] > 0
            }),
    ensures
        final(staff).objects@ == old(staff).objects@,
        final(staff).object_address_free_list@ == old(staff).object_address_free_list@,
        final(staff).scale_index == old(staff).scale_index,
        final(staff).vertical_center == old(staff).vertical_center,
        final(staff).line_count == old(staff).line_count,
        final(staff).object_indices.len() == old(staff).object_indices.len(),
        forall|i: int| 0 <= i < old(staff).objects.len() ==>
            #[trigger] final(staff).object_indices@[old(staff).objects@[i].address as int] == if i >= starting_object_index {
                if increase {
                    old(staff).object_indices@[old(staff).objects@[i].address as int] + 1
                } else {
                    old(staff).object_indices@[old(staff).objects@[i].address as int] - 1
                }
            } else {
                old(staff).object_indices@[old(staff).objects@[i].address as int] as int
            },
        forall|a: int|
            0 <= a < old(staff).object_indices.len() && (forall|i: int|
                starting_object_index <= i < old(staff).objects.len() ==> (#[trigger] old(staff).objects@[i]).address != a)
                ==> #[trigger] final(staff).object_indices@[a] == old(staff).object_indices@[a],
{
    let ghost objects = staff.objects@;
    let ghost before = staff.object_indices@;
    let mut object_index = starting_object_index;
    while object_index < staff.objects.len()
        invariant
            starting_object_index <= object_index <= objects.len(),
            staff.objects@ == objects,
            staff.object_address_free_list@ == old(staff).object_address_free_list@,
            staff.scale_index == old(staff).scale_index,
            staff.vertical_center == old(staff).vertical_center,
            staff.line_count == old(staff).line_count,
            before == old(staff).object_indices@,
            objects == old(staff).objects@,
            staff.object_indices.len() == before.len(),
            forall|i: int| 0 <= i < objects.len() ==> #[trigger] objects[i].address < before.len(),
            forall|i: int, k: int| 0 <= i < k < objects.len() ==> (#[trigger] objects[i]).address != (#[trigger] objects[k]).address,
            forall|i: int|
                starting_object_index <= i < objects.len() ==> (if increase {
                    before[(#[trigger] objects[i]).address as int] < usize::MAX
                } else {
                    before[(#[trigger] objects[i]).address as int] > 0
                }),
            forall|i: int| 0 <= i < objects.len() ==>
                #[trigger] staff.object_indices@[objects[i].address as int] == if starting_object_index <= i < object_index {
                    if increase {
                        before[objects[i].address as int] + 1
                    } else {
                        before[objects[i].address as int] - 1
                    }
                } else {
                    before[objects[i].address as int] as int
                },
            forall|a: int|
                0 <= a < before.len() && (forall|i: int|
                    starting_object_index <= i < objects.len() ==> (#[trigger] objects[i]).address != a)
                    ==> #[trigger] staff.object_indices@[a] == before[a],
        decreases objects.len() - object_index,
    {
        let address = staff.objects[object_index].address;
        let value = staff.object_indices[address];
        let new_value = if increase { value + 1 } else { value - 1 };
        staff.object_indices.set(address, new_value);
        proof {
            assert forall|i: int| 0 <= i < objects.len() implies
                #[trigger] staff.object_indices@[objects[i].address as int] == if starting_object_index <= i < object_index + 1 {
                    if increase {
                        before[objects[i].address as int] + 1
                    } else {
                        before[objects[i].address as int] - 1
                    }
                } else {
                    before[objects[i].address as int] as int
                } by {
                if i != object_index {
                    assert(objects[i].address != objects[object_index as int].address);
                }
            }
            assert forall|a: int|
                0 <= a < before.len() && (forall|i: int|
                    starting_object_index <= i < objects.len() ==> (#[trigger] objects[i]).address != a)
                    implies #[trigger] staff.object_indices@[a] == before[a] by {
                assert(objects[object_index as int].address != a);
            }
        }
        object_index = object_index + 1;
    }
}


/// The object with another address.
pub open spec fn with_address(object: Object, address: usize) -> Object {
    Object {
        object_type: object.object_type,
        address: address,
        slice_address: object.slice_address,
        distance_to_next_slice: object.distance_to_next_slice,
        is_selected: object.is_selected,
        is_valid_cursor_position: object.is_valid_cursor_position,
    }
}

/// The staff's other parts than its objects and their table are unchanged.
pub open spec fn same_staff_settings(a: &Staff, b: &Staff) -> bool {
    &&& a.scale_index == b.scale_index
    &&& a.vertical_center == b.vertical_center
    &&& a.line_count == b.line_count
}

/// Insert an object at `object_index`, give it an address, and note that the
/// slice after it needs respacing. Returns the new object's address.
pub fn insert_object(
    slice_addresses_to_respace: &mut Vec<usize>,
    staff: &mut Staff,
    object_index: usize,
    object: Object,
) -> (address: usize)
    requires
        old(staff).table_wf(),
        object_index <= old(staff).objects.len(),
        old(staff).object_indices.len() < usize::MAX,
        has_slice_from(old(staff).objects@, object_index as int) || object.slice_address is Some,
    ensures
        final(staff).table_wf(),
        final(staff).objects@ == old(staff).objects@.insert(object_index as int, with_address(object, address)),
        same_staff_settings(final(staff), old(staff)),
        old(staff).object_address_free_list.len() > 0 ==> address == old(staff).object_address_free_list@.last()
            && final(staff).object_address_free_list@ == old(staff).object_address_free_list@.drop_last(),
        old(staff).object_address_free_list.len() == 0 ==> address == old(staff).object_indices.len()
            && final(staff).object_address_free_list@ == old(staff).object_address_free_list@,
        final(staff).object_indices.len() <= old(staff).object_indices.len() + 1,
        final(staff).object_indices@.len() == table_len_after_taking(old(staff).object_address_free_list@, old(staff).object_indices@.len()),
        has_slice_from(final(staff).objects@, object_index as int),
        final(slice_addresses_to_respace)@ == pushed_if_absent(
            old(slice_addresses_to_respace)@,
            spec_next_slice_address(final(staff).objects@, object_index as int),
        ),
{
    let ghost objects = staff.objects@;
    let ghost indices = staff.object_indices@;
    let ghost free = staff.object_address_free_list@;
    proof {
        assert forall|i: int, k: int| 0 <= i < k < objects.len() implies
            (#[trigger] objects[i]).address != (#[trigger] objects[k]).address by {
            assert(object_addresses(objects)[i] == objects[i].address);
            assert(object_addresses(objects)[k] == objects[k].address);
            crate::address::lemma_addresses_distinct(indices, free, object_addresses(objects), i, k);
        }
        assert forall|i: int| 0 <= i < objects.len() implies #[trigger] objects[i].address < indices.len() by {
            assert(object_addresses(objects)[i] == objects[i].address);
        }
        assert forall|i: int| object_index <= i < objects.len() implies
            indices[(#[trigger] objects[i]).address as int] < usize::MAX by {
            assert(object_addresses(objects)[i] == objects[i].address);
        }
    }
    increment_object_indices(staff, object_index, true);
    let ghost shifted = staff.object_indices@;
    let address = new_address(&mut staff.object_indices, &mut staff.object_address_free_list, object_index);
    let new_object = Object {
        object_type: object.object_type,
        address: address,
        slice_address: object.slice_address,
        distance_to_next_slice: object.distance_to_next_slice,
        is_selected: object.is_selected,
        is_valid_cursor_position: object.is_valid_cursor_position,
    };
    staff.objects.insert(object_index, new_object);
    proof {
        let new_objects = staff.objects@;
        let addrs = object_addresses(new_objects);
        let new_indices = staff.object_indices@;
        let new_free = staff.object_address_free_list@;
        assert forall|i: int| 0 <= i < objects.len() implies (#[trigger] objects[i]).address != address by {
            assert(object_addresses(objects)[i] == objects[i].address);
            if free.len() > 0 {
                assert(free[free.len() - 1] == address);
            }
        }
        assert forall|i: int| 0 <= i < addrs.len() implies #[trigger] addrs[i] < new_indices.len() by {
            if i > object_index {
                assert(new_objects[i] == objects[i - 1]);
            } else if i < object_index {
                assert(new_objects[i] == objects[i]);
            }
        }
        assert forall|i: int| 0 <= i < addrs.len() implies new_indices[#[trigger] addrs[i] as int] == i by {
            if i > object_index {
                assert(new_objects[i] == objects[i - 1]);
                assert(object_addresses(objects)[i - 1] == objects[i - 1].address);
                assert(shifted[objects[i - 1].address as int] == indices[objects[i - 1].address as int] + 1);
            } else if i < object_index {
                assert(new_objects[i] == objects[i]);
                assert(object_addresses(objects)[i] == objects[i].address);
                assert(shifted[objects[i].address as int] == indices[objects[i].address as int]);
            }
        }
        assert forall|j: int| 0 <= j < new_free.len() implies #[trigger] new_free[j] < new_indices.len() by {
            assert(new_free[j] == free[j]);
        }
        assert forall|i: int, j: int| 0 <= i < addrs.len() && 0 <= j < new_free.len() implies
            #[trigger] addrs[i] != #[trigger] new_free[j] by {
            assert(new_free[j] == free[j]);
            if i > object_index {
                assert(new_objects[i] == objects[i - 1]);
                assert(object_addresses(objects)[i - 1] == objects[i - 1].address);
            } else if i < object_index {
                assert(new_objects[i] == objects[i]);
                assert(object_addresses(objects)[i] == objects[i].address);
            } else if free.len() > 0 {
                assert(free[free.len() - 1] == address);
                assert(j < free.len() - 1);
            }
        }
        assert forall|j: int, k: int| 0 <= j < k < new_free.len() implies #[trigger] new_free[j] != #[trigger] new_free[k] by {
            assert(new_free[j] == free[j]);
            assert(new_free[k] == free[k]);
        }
        if object.slice_address is Some {
            assert(new_objects[object_index as int].slice_address is Some);
        } else {
            let j = choose|j: int| object_index <= j < objects.len() && (#[trigger] objects[j]).slice_address is Some;
            assert(new_objects[j + 1] == objects[j]);
        }
    }
    let next = next_slice_address(staff, object_index);
    push_if_not_present(slice_addresses_to_respace, next);
    address
}

/// Remove the object at `object_index`, free its address, and note that the
/// slice it belonged to (or the next one) needs respacing.
pub fn basic_remove_object(slice_addresses_to_respace: &mut Vec<usize>, staff: &mut Staff, object_index: usize)
    requires
        old(staff).table_wf(),
        object_index < old(staff).objects.len(),
        has_slice_from(old(staff).objects@, object_index as int),
    ensures
        final(staff).table_wf(),
        final(staff).objects@ == old(staff).objects@.remove(object_index as int),
        final(staff).object_address_free_list@ == old(staff).object_address_free_list@.push(
            old(staff).objects@[object_index as int].address,
        ),
        final(staff).object_indices.len() == old(staff).object_indices.len(),
        same_staff_settings(final(staff), old(staff)),
        final(slice_addresses_to_respace)@ == pushed_if_absent(
            old(slice_addresses_to_respace)@,
            spec_next_slice_address(old(staff).objects@, object_index as int),
        ),
{
    let ghost objects = staff.objects@;
    let ghost indices = staff.object_indices@;
    let ghost free = staff.object_address_free_list@;
    let next = next_slice_address(staff, object_index);
    push_if_not_present(slice_addresses_to_respace, next);
    let removed = staff.objects.remove(object_index);
    let removed_address = removed.address;
    staff.object_address_free_list.push(removed_address);
    let ghost remaining = staff.objects@;
    proof {
        assert(object_addresses(objects)[object_index as int] == removed_address);
        assert forall|i: int| 0 <= i < remaining.len() implies #[trigger] remaining[i].address < indices.len() by {
            if i >= object_index {
                assert(remaining[i] == objects[i + 1]);
                assert(object_addresses(objects)[i + 1] == objects[i + 1].address);
            } else {
                assert(object_addresses(objects)[i] == objects[i].address);
            }
        }
        assert forall|i: int, k: int| 0 <= i < k < remaining.len() implies
            (#[trigger] remaining[i]).address != (#[trigger] remaining[k]).address by {
            let oi = if i >= object_index { i + 1 } else { i };
            let ok = if k >= object_index { k + 1 } else { k };
            assert(remaining[i] == objects[oi]);
            assert(remaining[k] == objects[ok]);
            assert(object_addresses(objects)[oi] == objects[oi].address);
            assert(object_addresses(objects)[ok] == objects[ok].address);
            crate::address::lemma_addresses_distinct(indices, free, object_addresses(objects), oi, ok);
        }
        assert forall|i: int| object_index <= i < remaining.len() implies
            indices[(#[trigger] remaining[i]).address as int] > 0 by {
            assert(remaining[i] == objects[i + 1]);
            assert(object_addresses(objects)[i + 1] == objects[i + 1].address);
        }
    }
    increment_object_indices(staff, object_index, false);
    proof {
        let new_objects = staff.objects@;
        let addrs = object_addresses(new_objects);
        let new_indices = staff.object_indices@;
        let new_free = staff.object_address_free_list@;
        assert forall|i: int| 0 <= i < addrs.len() implies #[trigger] addrs[i] < new_indices.len() by {
            assert(addrs[i] == remaining[i].address);
        }
        assert forall|i: int| 0 <= i < addrs.len() implies new_indices[#[trigger] addrs[i] as int] == i by {
            assert(addrs[i] == remaining[i].address);
            if i >= object_index {
                assert(remaining[i] == objects[i + 1]);
                assert(object_addresses(objects)[i + 1] == objects[i + 1].address);
            } else {
                assert(remaining[i] == objects[i]);
                assert(object_addresses(objects)[i] == objects[i].address);
            }
        }
        assert forall|j: int| 0 <= j < new_free.len() implies #[trigger] new_free[j] < new_indices.len() by {
            if j < free.len() {
                assert(new_free[j] == free[j]);
            }
        }
        assert forall|i: int, j: int| 0 <= i < addrs.len() && 0 <= j < new_free.len() implies
            #[trigger] addrs[i] != #[trigger] new_free[j] by {
            assert(addrs[i] == remaining[i].address);
            let oi = if i >= object_index { i + 1 } else { i };
            assert(remaining[i] == objects[oi]);
            assert(object_addresses(objects)[oi] == objects[oi].address);
            if j < free.len() {
                assert(new_free[j] == free[j]);
            } else {
                crate::address::lemma_addresses_distinct(indices, free, object_addresses(objects), oi, object_index as int);
            }
        }
        assert forall|j: int, k: int| 0 <= j < k < new_free.len() implies #[trigger] new_free[j] != #[trigger] new_free[k] by {
            assert(new_free[j] == free[j]);
            if k < free.len() {
                assert(new_free[k] == free[k]);
            } else {
                assert(object_addresses(objects)[object_index as int] == new_free[k]);
            }
        }
    }
}


/// An object's contents are sound: a clef is a known glyph whose baseline
/// lies at most sixteen steps from the staff's middle, and every key
/// signature accidental names a letter.
pub open spec fn object_content_wf(object: Object, line_count: u8) -> bool {
    match object.object_type {
        ObjectType::Clef(clef) => clef_wf(clef) && -16 <= clef.steps_of_baseline_above_staff_middle <= 16,
        ObjectType::KeySig(key_sig) => key_sig_letters_wf(key_sig.accidentals@),
        _ => true,
    }
}

impl Staff {
    /// Every object's contents are sound and the staff has between one and
    /// sixteen lines.
    pub open spec fn contents_wf(&self) -> bool {
        &&& 1 <= self.line_count <= 16
        &&& forall|i: int| 0 <= i < self.objects.len() ==> object_content_wf(#[trigger] self.objects@[i], self.line_count)
    }
}

/// The pitch of a clef's staff middle under a sound clef whose baseline lies
/// at most sixteen steps from the middle lies well inside the `i8` range.
pub proof fn lemma_clef_middle_bounds(clef: Clef)
    requires
        clef_wf(clef),
        -16 <= clef.steps_of_baseline_above_staff_middle <= 16,
    ensures
        -34 <= spec_staff_middle_pitch(clef) <= 34,
{
}

/// The range floor implied by an object, if it implies one: three steps
/// below a clef's staff middle, or three steps below a note (clamped).
pub open spec fn implied_range_floor(object: Object) -> Option<int> {
    match object.object_type {
        ObjectType::Clef(clef) => Some(spec_staff_middle_pitch(clef) - 3),
        ObjectType::Duration { pitch: Some(note_pitch), .. } => Some(
            if note_pitch.pitch.steps_above_c4 - 3 < -128 { -128 } else { note_pitch.pitch.steps_above_c4 - 3 },
        ),
        _ => None,
    }
}

/// The range floor implied by the last object from position `start` up to
/// `end` that implies one, or `default` when none does.
pub open spec fn last_implied_range_floor(objects: Seq<Object>, start: int, end: int, default: int) -> int
    decreases end - start,
{
    if end <= start {
        default
    } else {
        match implied_range_floor(objects[end - 1]) {
            Some(floor) => floor,
            None => last_implied_range_floor(objects, start, end - 1, default),
        }
    }
}

/// The range floor of a cursor at `object_index`: set by the last clef or
/// note before it, or three steps below the default staff middle.
pub fn range_floor_at_index(staff: &Staff, object_index: usize) -> (floor: i8)
    requires
        staff.contents_wf(),
        object_index <= staff.objects.len(),
    ensures
        floor == last_implied_range_floor(staff.objects@, 0, object_index as int, 3),
{
    let mut index = object_index;
    loop
        invariant
            index <= object_index <= staff.objects.len(),
            staff.contents_wf(),
            last_implied_range_floor(staff.objects@, 0, object_index as int, 3)
                == last_implied_range_floor(staff.objects@, 0, index as int, 3),
        decreases index,
    {
        if index == 0 {
            return 6 - 3;
        }
        index = index - 1;
        proof {
            assert(object_content_wf(staff.objects@[index as int], staff.line_count));
        }
        match &staff.objects[index].object_type {
            ObjectType::Clef(clef) => {
                proof {
                    lemma_clef_middle_bounds(*clef);
                }
                return staff_middle_pitch(clef) - 3;
            },
            ObjectType::Duration { pitch, .. } => {
                if let Some(pitch) = pitch {
                    return clamped_subtract(pitch.pitch.steps_above_c4, 3);
                }
            },
            _ => {},
        }
    }
}

/// Rust's remainder by seven, which keeps the sign of the dividend.
pub open spec fn truncated_rem7(n: int) -> int {
    if n >= 0 {
        n % 7
    } else {
        -((-n) % 7)
    }
}

/// The object is a note with a pitch.
pub open spec fn note_pitch_of(object: Object) -> Option<Pitch> {
    match object.object_type {
        ObjectType::Duration { pitch: Some(note_pitch), .. } => Some(note_pitch.pitch),
        _ => None,
    }
}

/// The object ends the backward search for a pitch's accidental: a key
/// signature, or a note of exactly that pitch step.
pub open spec fn stops_accidental_search(object: Object, steps_above_c4: int) -> bool {
    ||| object.object_type is KeySig
    ||| (note_pitch_of(object) is Some && note_pitch_of(object)->0.steps_above_c4 == steps_above_c4)
}

/// The position of the last object before `end` that ends the search, or -1.
pub open spec fn accidental_search_stop(objects: Seq<Object>, end: int, steps_above_c4: int) -> int
    decreases end,
{
    if end <= 0 {
        -1
    } else if stops_accidental_search(objects[end - 1], steps_above_c4) {
        end - 1
    } else {
        accidental_search_stop(objects, end - 1, steps_above_c4)
    }
}

/// The accidental the first of a key signature's accidentals for the letter
/// gives it, or natural when none names it.
pub open spec fn first_letter_accidental(accidentals: Seq<KeySigAccidental>, letter_name: int) -> Accidental
    decreases accidentals.len(),
{
    if accidentals.len() == 0 {
        Accidental::Natural
    } else if accidentals[0].letter_name == letter_name {
        accidentals[0].accidental
    } else {
        first_letter_accidental(accidentals.drop_first(), letter_name)
    }
}

/// The accidental a pitch step takes by default after the objects before
/// `end`: that of the last note of the same step, or what the last key
/// signature gives its letter, whichever is later; natural when there is
/// neither.
pub open spec fn spec_default_accidental(objects: Seq<Object>, end: int, steps_above_c4: int) -> Accidental {
    let stop = accidental_search_stop(objects, end, steps_above_c4);
    if stop < 0 {
        Accidental::Natural
    } else {
        match objects[stop].object_type {
            ObjectType::KeySig(key_sig) => {
                let letter = truncated_rem7(steps_above_c4);
                if 0 <= letter {
                    first_letter_accidental(key_sig.accidentals@, letter)
                } else {
                    Accidental::Natural
                }
            },
            _ => note_pitch_of(objects[stop])->0.accidental,
        }
    }
}

/// The accidental search before `end` reads only the objects before `end`.
pub proof fn lemma_search_stop_prefix(a: Seq<Object>, b: Seq<Object>, end: int, steps_above_c4: int)
    requires
        0 <= end <= a.len(),
        end <= b.len(),
        a.subrange(0, end) == b.subrange(0, end),
    ensures
        accidental_search_stop(a, end, steps_above_c4) == accidental_search_stop(b, end, steps_above_c4),
        -1 <= accidental_search_stop(a, end, steps_above_c4) < end,
    decreases end,
{
    if end > 0 {
        assert(a[end - 1] == a.subrange(0, end)[end - 1]);
        assert(b[end - 1] == b.subrange(0, end)[end - 1]);
        assert(a.subrange(0, end - 1) =~= a.subrange(0, end).subrange(0, end - 1));
        assert(b.subrange(0, end - 1) =~= b.subrange(0, end).subrange(0, end - 1));
        lemma_search_stop_prefix(a, b, end - 1, steps_above_c4);
    }
}

/// The default accidental before `end` reads only the objects before `end`.
pub proof fn lemma_default_accidental_prefix(a: Seq<Object>, b: Seq<Object>, end: int, steps_above_c4: int)
    requires
        0 <= end <= a.len(),
        end <= b.len(),
        a.subrange(0, end) == b.subrange(0, end),
    ensures
        spec_default_accidental(a, end, steps_above_c4) == spec_default_accidental(b, end, steps_above_c4),
{
    lemma_search_stop_prefix(a, b, end, steps_above_c4);
    let stop = accidental_search_stop(a, end, steps_above_c4);
    if stop >= 0 {
        assert(a[stop] == a.subrange(0, end)[stop]);
        assert(b[stop] == b.subrange(0, end)[stop]);
    }
}

/// The object at `j` is a note of the same letter as `steps_above_c4` in
/// another octave, and the last note of its step before `end`.
pub open spec fn is_last_other_octave_note(objects: Seq<Object>, end: int, steps_above_c4: int, j: int) -> bool {
    let p = note_pitch_of(objects[j]);
    &&& p is Some
    &&& truncated_rem7(p->0.steps_above_c4 as int) == truncated_rem7(steps_above_c4)
    &&& p->0.steps_above_c4 != steps_above_c4
    &&& !step_recurs(objects, j, end, p->0.steps_above_c4 as int)
}

/// A note of the step sounds after position `j` and before `end`.
pub open spec fn step_recurs(objects: Seq<Object>, j: int, end: int, steps_above_c4: int) -> bool {
    exists|k: int| j < k < end && is_note_of_step(#[trigger] objects[k], steps_above_c4)
}

/// The object is a note of the step.
pub open spec fn is_note_of_step(object: Object, steps_above_c4: int) -> bool {
    note_pitch_of(object) is Some && note_pitch_of(object)->0.steps_above_c4 == steps_above_c4
}

/// After the search stop and before `end`, a note of the same letter in
/// another octave, the last of its step, shows another accidental than
/// `accidental`.
pub open spec fn other_octave_differs(objects: Seq<Object>, end: int, steps_above_c4: int, accidental: Accidental) -> bool {
    let stop = accidental_search_stop(objects, end, steps_above_c4);
    exists|j: int| stop < j < end && #[trigger] is_last_other_octave_note(objects, end, steps_above_c4, j)
        && note_pitch_of(objects[j])->0.accidental != accidental
}

/// The accidental a new note takes by default, and whether it must be shown.
pub struct DisplayedAccidental {
    pub accidental: Accidental,
    pub is_visible: bool,
}


/// The search stop lies before `end`, ends the search when it is a
/// position, and no object after it does.
pub proof fn lemma_search_stop(objects: Seq<Object>, end: int, steps_above_c4: int)
    requires
        end <= objects.len(),
    ensures
        -1 <= accidental_search_stop(objects, end, steps_above_c4) < end || end <= 0,
        accidental_search_stop(objects, end, steps_above_c4) >= 0 ==> stops_accidental_search(
            objects[accidental_search_stop(objects, end, steps_above_c4)],
            steps_above_c4,
        ),
        forall|k: int| accidental_search_stop(objects, end, steps_above_c4) < k < end ==> !stops_accidental_search(
            #[trigger] objects[k],
            steps_above_c4,
        ),
    decreases end,
{
    if end > 0 && !stops_accidental_search(objects[end - 1], steps_above_c4) {
        lemma_search_stop(objects, end - 1, steps_above_c4);
    }
}

/// The position of the last object before `end` that ends the search for
/// the accidental of `steps_above_c4`.
pub fn find_accidental_search_stop(objects: &Vec<Object>, end: usize, steps_above_c4: i8) -> (stop: Option<usize>)
    requires
        end <= objects.len(),
    ensures
        match stop {
            Some(i) => i < end && accidental_search_stop(objects@, end as int, steps_above_c4 as int) == i,
            None => accidental_search_stop(objects@, end as int, steps_above_c4 as int) == -1,
        },
{
    let mut index = end;
    while index > 0
        invariant
            index <= end <= objects.len(),
            accidental_search_stop(objects@, end as int, steps_above_c4 as int)
                == accidental_search_stop(objects@, index as int, steps_above_c4 as int),
        decreases index,
    {
        index = index - 1;
        match &objects[index].object_type {
            ObjectType::Duration { pitch: Some(pitch), .. } => {
                assert(note_pitch_of(objects@[index as int]) == Some(pitch.pitch));
                if pitch.pitch.steps_above_c4 == steps_above_c4 {
                    return Some(index);
                }
            },
            ObjectType::KeySig(_) => {
                return Some(index);
            },
            _ => {},
        }
    }
    None
}

/// The accidental the first of the key signature accidentals for the letter
/// gives it, or natural.
pub fn key_sig_letter_accidental(accidentals: &Vec<KeySigAccidental>, letter_name: u8) -> (accidental: Accidental)
    ensures
        accidental == first_letter_accidental(accidentals@, letter_name as int),
{
    let mut i: usize = 0;
    proof {
        assert(accidentals@.skip(0) =~= accidentals@);
    }
    while i < accidentals.len()
        invariant
            i <= accidentals.len(),
            first_letter_accidental(accidentals@, letter_name as int)
                == first_letter_accidental(accidentals@.skip(i as int), letter_name as int),
        decreases accidentals.len() - i,
    {
        if accidentals[i].letter_name == letter_name {
            proof {
                assert(accidentals@.skip(i as int)[0] == accidentals@[i as int]);
            }
            return accidentals[i].accidental;
        }
        proof {
            assert(accidentals@.skip(i + 1) =~= accidentals@.skip(i as int).drop_first());
        }
        i = i + 1;
    }
    proof {
        assert(accidentals@.skip(i as int) =~= Seq::<KeySigAccidental>::empty());
    }
    Accidental::Natural
}

/// Whether a note of the step sounds after position `j` and before `end`.
pub fn step_recurs_after(objects: &Vec<Object>, j: usize, end: usize, steps_above_c4: i8) -> (recurs: bool)
    requires
        j < end <= objects.len(),
    ensures
        recurs == step_recurs(objects@, j as int, end as int, steps_above_c4 as int),
{
    let mut k = j + 1;
    while k < end
        invariant
            j < k <= end <= objects.len(),
            forall|m: int| j < m < k ==> !is_note_of_step(#[trigger] objects@[m], steps_above_c4 as int),
        decreases end - k,
    {
        if let ObjectType::Duration { pitch: Some(pitch), .. } = &objects[k].object_type {
            assert(note_pitch_of(objects@[k as int]) == Some(pitch.pitch));
            if pitch.pitch.steps_above_c4 == steps_above_c4 {
                assert(is_note_of_step(objects@[k as int], steps_above_c4 as int));
                return true;
            }
        }
        k = k + 1;
    }
    false
}

/// Whether, between `start` and `end`, a note of the same letter as
/// `steps_above_c4` in another octave, the last of its step before `end`,
/// shows another accidental than `accidental`.
pub fn other_octave_accidental_differs(
    objects: &Vec<Object>,
    start: usize,
    end: usize,
    steps_above_c4: i8,
    accidental: Accidental,
) -> (differs: bool)
    requires
        start <= end <= objects.len(),
    ensures
        differs == exists|j: int| start <= j < end && #[trigger] is_last_other_octave_note(objects@, end as int, steps_above_c4 as int, j)
            && note_pitch_of(objects@[j])->0.accidental != accidental,
{
    let ghost s = steps_above_c4 as int;
    let mut index = end;
    while index > start
        invariant
            s == steps_above_c4 as int,
            start <= index <= end <= objects.len(),
            forall|j: int| index <= j < end ==> !(#[trigger] is_last_other_octave_note(objects@, end as int, s, j)
                && note_pitch_of(objects@[j])->0.accidental != accidental),
        decreases index,
    {
        index = index - 1;
        if let ObjectType::Duration { pitch: Some(pitch), .. } = &objects[index].object_type {
            assert(note_pitch_of(objects@[index as int]) == Some(pitch.pitch));
            let pitch_letter = pitch.pitch.steps_above_c4 % 7;
            let letter = steps_above_c4 % 7;
            proof {
                let ps = pitch.pitch.steps_above_c4;
                assert(ps >= 0 ==> pitch_letter == (ps as int) % 7);
                assert(ps < 0 ==> pitch_letter == -((-(ps as int)) % 7));
                assert(pitch_letter == truncated_rem7(ps as int));
                assert(steps_above_c4 >= 0 ==> letter == s % 7);
                assert(steps_above_c4 < 0 ==> letter == -((-s) % 7));
                assert(letter == truncated_rem7(s));
            }
            if pitch.pitch.steps_above_c4 != steps_above_c4 && pitch_letter == letter
                && pitch.pitch.accidental != accidental
                && !step_recurs_after(objects, index, end, pitch.pitch.steps_above_c4) {
                assert(is_last_other_octave_note(objects@, end as int, s, index as int));
                return true;
            }
        }
    }
    false
}

/// The accidental a note of `steps_above_c4` takes by default after the
/// objects before position `end`, shown when a note of the same letter in
/// another octave (the last of its step since the search stop) has another.
pub fn default_accidental_of_steps_above_c4(objects: &Vec<Object>, end: usize, steps_above_c4: i8) -> (displayed: DisplayedAccidental)
    requires
        end <= objects.len(),
    ensures
        displayed.accidental == spec_default_accidental(objects@, end as int, steps_above_c4 as int),
        displayed.is_visible == other_octave_differs(objects@, end as int, steps_above_c4 as int, displayed.accidental),
{
    let ghost s = steps_above_c4 as int;
    let stop = find_accidental_search_stop(objects, end, steps_above_c4);
    let mut accidental = Accidental::Natural;
    let mut start: usize = 0;
    if let Some(stop_index) = stop {
        start = stop_index + 1;
        match &objects[stop_index].object_type {
            ObjectType::KeySig(key_sig) => {
                let letter = steps_above_c4 % 7;
                proof {
                    assert(steps_above_c4 >= 0 ==> letter == s % 7);
                    assert(steps_above_c4 < 0 ==> letter == -((-s) % 7));
                    assert(letter == truncated_rem7(s));
                }
                if letter >= 0 {
                    accidental = key_sig_letter_accidental(&key_sig.accidentals, letter as u8);
                }
            },
            ObjectType::Duration { pitch: Some(pitch), .. } => {
                accidental = pitch.pitch.accidental;
            },
            _ => {
                proof {
                    lemma_search_stop(objects@, end as int, s);
                }
            },
        }
    }
    let is_visible = other_octave_accidental_differs(objects, start, end, steps_above_c4, accidental);
    proof {
        assert(accidental_search_stop(objects@, end as int, s) + 1 == start as int);
    }
    DisplayedAccidental { accidental, is_visible }
}


/// The position of the last key signature before `end`, or -1.
pub open spec fn last_key_sig_before(objects: Seq<Object>, end: int) -> int
    decreases end,
{
    if end <= 0 {
        -1
    } else if objects[end - 1].object_type is KeySig {
        end - 1
    } else {
        last_key_sig_before(objects, end - 1)
    }
}

/// The accidentals of a key signature turned into naturals on the same letters.
pub open spec fn cancelling_accidentals(accidentals: Seq<KeySigAccidental>) -> Seq<KeySigAccidental> {
    Seq::new(accidentals.len(), |i: int| KeySigAccidental { accidental: Accidental::Natural, letter_name: accidentals[i].letter_name })
}

/// `key_sig` is the key signature chosen for insertion at `object_index` of
/// a staff with `objects`: with a count of accidentals, that many sharps or
/// flats in circle-of-fifths order; with none, naturals cancelling the last
/// key signature before the position (not a header one), or nothing when
/// there is none or it has no accidentals.
pub open spec fn chosen_key_sig(
    objects: Seq<Object>,
    object_index: int,
    accidental_count: u8,
    is_flats: bool,
    is_header: bool,
    key_sig: Option<KeySig>,
) -> bool {
    if accidental_count > 0 {
        key_sig matches Some(k) && k.accidentals.len() == accidental_count && (forall|i: int|
            0 <= i < accidental_count ==> #[trigger] k.accidentals@[i] == circle_of_fifths_accidental(is_flats, i))
            && k.floors@ == (if is_flats { flat_floors() } else { sharp_floors() }) && k.is_header == is_header
    } else {
        let p = last_key_sig_before(objects, object_index);
        if p < 0 {
            key_sig is None
        } else {
            let previous = objects[p].object_type->KeySig_0;
            if previous.accidentals.len() == 0 {
                key_sig is None
            } else {
                key_sig matches Some(k) && k.accidentals@ == cancelling_accidentals(previous.accidentals@) && k.floors@
                    == previous.floors@ && !k.is_header
            }
        }
    }
}

/// A key signature at `p` before `end` makes the last one before `end` come
/// no earlier than `p`.
pub proof fn lemma_last_key_sig_at_least(objects: Seq<Object>, p: int, end: int)
    requires
        0 <= p < end <= objects.len(),
        objects[p].object_type is KeySig,
    ensures
        p <= last_key_sig_before(objects, end) < end,
    decreases end,
{
    if !(objects[end - 1].object_type is KeySig) {
        lemma_last_key_sig_at_least(objects, p, end - 1);
    }
}

/// The key signature chosen for insertion at `object_index` (see
/// `chosen_key_sig`).
pub fn new_key_sig(staff: &Staff, object_index: usize, accidental_count: u8, is_flats: bool, is_header: bool) -> (key_sig: Option<KeySig>)
    requires
        object_index <= staff.objects.len(),
    ensures
        chosen_key_sig(staff.objects@, object_index as int, accidental_count, is_flats, is_header, key_sig),
        staff.contents_wf() ==> (key_sig matches Some(k) ==> key_sig_letters_wf(k.accidentals@) && k.accidentals.len()
            > 0),
{
    if accidental_count == 0 {
        let mut index = object_index;
        loop
            invariant
                accidental_count == 0,
                index <= object_index <= staff.objects.len(),
                last_key_sig_before(staff.objects@, object_index as int) == last_key_sig_before(staff.objects@, index as int),
            decreases index,
        {
            if index == 0 {
                return None;
            }
            index = index - 1;
            if let ObjectType::KeySig(previous_key_sig) = &staff.objects[index].object_type {
                if previous_key_sig.accidentals.len() == 0 {
                    return None;
                }
                let mut accidentals: Vec<KeySigAccidental> = Vec::new();
                let mut i: usize = 0;
                while i < previous_key_sig.accidentals.len()
                    invariant
                        i <= previous_key_sig.accidentals.len(),
                        accidentals@ == cancelling_accidentals(previous_key_sig.accidentals@.take(i as int)),
                    decreases previous_key_sig.accidentals.len() - i,
                {
                    accidentals.push(KeySigAccidental {
                        accidental: Accidental::Natural,
                        letter_name: previous_key_sig.accidentals[i].letter_name,
                    });
                    proof {
                        assert(accidentals@ =~= cancelling_accidentals(previous_key_sig.accidentals@.take(i + 1)));
                    }
                    i = i + 1;
                }
                proof {
                    assert(previous_key_sig.accidentals@.take(i as int) =~= previous_key_sig.accidentals@);
                    if staff.contents_wf() {
                        assert(object_content_wf(staff.objects@[index as int], staff.line_count));
                        assert forall|j: int| 0 <= j < accidentals.len() implies #[trigger] accidentals@[j].letter_name < 7 by {
                            assert(cancelling_accidentals(previous_key_sig.accidentals@)[j].letter_name
                                == previous_key_sig.accidentals@[j].letter_name);
                        }
                    }
                }
                return Some(KeySig { accidentals, floors: previous_key_sig.floors, is_header: false });
            }
        }
    }
    Some(key_sig_from_accidental_count(accidental_count, is_flats, is_header))
}

/// The position of the first valid cursor position after `index`, if any.
pub open spec fn next_cursor_position(objects: Seq<Object>, index: int) -> int
    decreases objects.len() - index,
{
    if index + 1 >= objects.len() {
        -1
    } else if objects[index + 1].is_valid_cursor_position {
        index + 1
    } else {
        next_cursor_position(objects, index + 1)
    }
}

/// The cursor state after moving right from the object at
/// `current_object_index`: the next valid cursor position, with the range
/// floor of the last clef or note passed (from the current object on); or,
/// at the end of the staff, the current object and floor.
pub fn set_cursor_to_next_state(staff: &Staff, current_object_index: usize, current_range_floor: i8) -> (state: (usize, i8))
    requires
        staff.contents_wf(),
        current_object_index < staff.objects.len(),
    ensures
        ({
            let next = next_cursor_position(staff.objects@, current_object_index as int);
            if next < 0 {
                state == (staff.objects@[current_object_index as int].address, current_range_floor)
            } else {
                state.0 == staff.objects@[next].address && state.1 == last_implied_range_floor(
                    staff.objects@,
                    current_object_index as int,
                    next,
                    current_range_floor as int,
                )
            }
        }),
{
    let mut new_range_floor = current_range_floor;
    let mut next_object_index = current_object_index;
    loop
        invariant
            current_object_index <= next_object_index < staff.objects.len(),
            staff.contents_wf(),
            next_cursor_position(staff.objects@, current_object_index as int)
                == next_cursor_position(staff.objects@, next_object_index as int),
            new_range_floor == last_implied_range_floor(
                staff.objects@,
                current_object_index as int,
                next_object_index as int,
                current_range_floor as int,
            ),
        decreases staff.objects.len() - next_object_index,
    {
        proof {
            assert(object_content_wf(staff.objects@[next_object_index as int], staff.line_count));
        }
        match &staff.objects[next_object_index].object_type {
            ObjectType::Clef(clef) => {
                proof {
                    lemma_clef_middle_bounds(*clef);
                }
                new_range_floor = staff_middle_pitch(clef) - 3;
            },
            ObjectType::Duration { pitch, .. } => {
                if let Some(pitch) = pitch {
                    new_range_floor = clamped_subtract(pitch.pitch.steps_above_c4, 3);
                }
            },
            _ => {},
        }
        next_object_index = next_object_index + 1;
        if next_object_index == staff.objects.len() {
            return (staff.objects[current_object_index].address, current_range_floor);
        }
        if staff.objects[next_object_index].is_valid_cursor_position {
            return (staff.objects[next_object_index].address, new_range_floor);
        }
    }
}

/// The position of the last valid cursor position before `end`, or -1.
pub open spec fn previous_cursor_position(objects: Seq<Object>, end: int) -> int
    decreases end,
{
    if end <= 0 {
        -1
    } else if objects[end - 1].is_valid_cursor_position {
        end - 1
    } else {
        previous_cursor_position(objects, end - 1)
    }
}

/// The range floor of the first note from position `start` up to `end`
/// (three steps below it, clamped), or `default` when there is none.
pub open spec fn first_note_range_floor(objects: Seq<Object>, start: int, end: int, default: int) -> int
    decreases end - start,
{
    if end <= start {
        default
    } else {
        match note_pitch_of(objects[start]) {
            Some(pitch) => if pitch.steps_above_c4 - 3 < -128 { -128 } else { pitch.steps_above_c4 - 3 },
            None => first_note_range_floor(objects, start + 1, end, default),
        }
    }
}

/// The first-note floor over a range extends to the left one object at a time.
proof fn lemma_first_note_floor_step(objects: Seq<Object>, start: int, end: int, default: int)
    requires
        0 <= start < end <= objects.len(),
    ensures
        first_note_range_floor(objects, start, end, default) == match note_pitch_of(objects[start]) {
            Some(pitch) => if pitch.steps_above_c4 - 3 < -128 { -128 } else { pitch.steps_above_c4 - 3 },
            None => first_note_range_floor(objects, start + 1, end, default),
        },
{
}

/// The cursor state after moving left from position `object_index`: the
/// last valid cursor position before it, with the range floor of the first
/// note from there on (before `object_index`), or the given floor; nothing
/// when there is no earlier cursor position.
pub fn previous_cursor_state(staff: &Staff, object_index: usize, range_floor: i8) -> (state: Option<(usize, i8)>)
    requires
        object_index <= staff.objects.len(),
    ensures
        ({
            let previous = previous_cursor_position(staff.objects@, object_index as int);
            if previous < 0 {
                state is None
            } else {
                state == Some((
                    staff.objects@[previous].address,
                    first_note_range_floor(staff.objects@, previous, object_index as int, range_floor as int) as i8,
                ))
            }
        }),
{
    let mut previous_object_index = object_index;
    let mut new_range_floor = range_floor;
    while previous_object_index > 0
        invariant
            previous_object_index <= object_index <= staff.objects.len(),
            previous_cursor_position(staff.objects@, object_index as int)
                == previous_cursor_position(staff.objects@, previous_object_index as int),
            new_range_floor == first_note_range_floor(
                staff.objects@,
                previous_object_index as int,
                object_index as int,
                range_floor as int,
            ),
        decreases previous_object_index,
    {
        previous_object_index = previous_object_index - 1;
        proof {
            lemma_first_note_floor_step(staff.objects@, previous_object_index as int, object_index as int, range_floor as int);
        }
        if let ObjectType::Duration { pitch: Some(pitch), .. } = &staff.objects[previous_object_index].object_type {
            assert(note_pitch_of(staff.objects@[previous_object_index as int]) == Some(pitch.pitch));
            new_range_floor = clamped_subtract(pitch.pitch.steps_above_c4, 3);
        }
        if staff.objects[previous_object_index].is_valid_cursor_position {
            return Some((staff.objects[previous_object_index].address, new_range_floor));
        }
    }
    None
}

/// Whether the object is a clef, key signature or time signature at the
/// head of its staff.
pub open spec fn spec_object_is_header(object: Object) -> bool {
    match object.object_type {
        ObjectType::Clef(clef) => clef.is_header,
        ObjectType::KeySig(key_sig) => key_sig.is_header,
        ObjectType::TimeSig { is_header, .. } => is_header,
        _ => false,
    }
}

/// Whether the object stands at the head of its staff.
pub fn object_is_header(object: &Object) -> (is_header: bool)
    ensures
        is_header == spec_object_is_header(*object),
{
    match &object.object_type {
        ObjectType::Clef(clef) => clef.is_header,
        ObjectType::KeySig(key_sig) => key_sig.is_header,
        ObjectType::TimeSig { is_header, .. } => *is_header,
        _ => false,
    }
}

/// Whether the object is a key signature at the head of its staff.
pub fn is_header_key_sig(object: &Object) -> (is_header: bool)
    ensures
        is_header == (object.object_type matches ObjectType::KeySig(k) && k.is_header),
{
    if let ObjectType::KeySig(key_sig) = &object.object_type {
        return key_sig.is_header;
    }
    false
}

/// Whether the object is a time signature at the head of its staff.
pub fn is_header_time_sig(object: &Object) -> (is_header: bool)
    ensures
        is_header == (object.object_type matches ObjectType::TimeSig { is_header: h, .. } && h),
{
    if let ObjectType::TimeSig { is_header, .. } = &object.object_type {
        return *is_header;
    }
    false
}


/// The address of the accidental of a note, if the object is a note with one.
pub open spec fn note_accidental_address(object: Object) -> Option<usize> {
    match object.object_type {
        ObjectType::Duration { pitch: Some(note_pitch), .. } => note_pitch.accidental_address,
        _ => None,
    }
}

/// The note address of an accidental, if the object is one.
pub open spec fn accidental_note_address(object: Object) -> Option<usize> {
    match object.object_type {
        ObjectType::Accidental { note_address } => Some(note_address),
        _ => None,
    }
}

/// Each accidental is aligned to no slice and stands right before its note,
/// and each note with an accidental has it right before it.
pub open spec fn accidental_links_wf(objects: Seq<Object>) -> bool {
    &&& forall|i: int| 0 <= i < objects.len() && (#[trigger] accidental_note_address(objects[i])) is Some ==> {
        &&& objects[i].slice_address is None
        &&& i + 1 < objects.len()
        &&& objects[i + 1].address == accidental_note_address(objects[i])->0
        &&& note_pitch_of(objects[i + 1]) is Some
        &&& note_accidental_address(objects[i + 1]) == Some(objects[i].address)
    }
    &&& forall|i: int| 0 <= i < objects.len() && (#[trigger] note_accidental_address(objects[i])) is Some ==> {
        &&& i > 0
        &&& objects[i - 1].address == note_accidental_address(objects[i])->0
        &&& accidental_note_address(objects[i - 1]) == Some(objects[i].address)
    }
}

impl Staff {
    /// The staff is sound: its table describes its objects, their contents
    /// are sound, it ends with an object aligned to a slice, and accidentals
    /// and their notes stand together.
    pub open spec fn wf(&self) -> bool {
        &&& self.table_wf()
        &&& self.contents_wf()
        &&& self.object_indices.len() < usize::MAX
        &&& self.objects.len() > 0
        &&& self.objects@.last().slice_address is Some
        &&& accidental_links_wf(self.objects@)
    }
}


/// The address is that of an object of the staff.
pub open spec fn object_live(staff: Staff, address: int) -> bool {
    crate::address::is_live(staff.object_indices@, object_addresses(staff.objects@), address)
}

/// The object of the staff at the address.
pub open spec fn object_at(staff: Staff, address: int) -> Object {
    staff.objects@[staff.object_indices@[address] as int]
}

/// Inserting at the position does not part an accidental from its note.
pub open spec fn insertion_keeps_links(objects: Seq<Object>, object_index: int) -> bool {
    object_index == 0 || accidental_note_address(objects[object_index - 1]) is None
}

/// The object is neither an accidental nor a note with an accidental.
pub open spec fn unlinked(object: Object) -> bool {
    accidental_note_address(object) is None && note_accidental_address(object) is None
}

/// An object inserted into a staff leaves every live address live, naming
/// the same object, and its own address names it.
pub proof fn lemma_insert_keeps_live(old_staff: Staff, new_staff: Staff, idx: int, address: usize)
    requires
        old_staff.table_wf(),
        new_staff.table_wf(),
        0 <= idx <= old_staff.objects.len(),
        new_staff.objects@ == old_staff.objects@.insert(idx, new_staff.objects@[idx]),
        new_staff.objects@[idx].address == address,
    ensures
        object_live(new_staff, address as int),
        object_at(new_staff, address as int) == new_staff.objects@[idx],
        forall|a: int| object_live(old_staff, a) ==> object_live(new_staff, a) && object_at(new_staff, a)
            == object_at(old_staff, a),
{
    assert(object_addresses(new_staff.objects@)[idx] == address);
    assert forall|a: int| object_live(old_staff, a) implies object_live(new_staff, a) && object_at(new_staff, a)
        == object_at(old_staff, a) by {
        let i = old_staff.object_indices@[a] as int;
        assert(object_addresses(old_staff.objects@)[i] == a);
        let ni = if i < idx { i } else { i + 1 };
        assert(new_staff.objects@[ni] == old_staff.objects@[i]);
        assert(object_addresses(new_staff.objects@)[ni] == a);
    }
}

/// An object, unlinked and sound, inserted into a sound staff where it
/// parts no accidental from its note, and aligned to a slice when it goes at
/// the end, leaves the staff sound.
pub proof fn lemma_insert_keeps_staff_wf(old_staff: Staff, new_staff: Staff, idx: int, address: usize)
    requires
        old_staff.wf(),
        new_staff.table_wf(),
        same_staff_settings(&new_staff, &old_staff),
        new_staff.object_indices.len() < usize::MAX,
        0 <= idx <= old_staff.objects.len(),
        new_staff.objects@ == old_staff.objects@.insert(idx, new_staff.objects@[idx]),
        unlinked(new_staff.objects@[idx]),
        object_content_wf(new_staff.objects@[idx], old_staff.line_count),
        new_staff.objects@[idx].slice_address is Some || idx < old_staff.objects.len(),
        insertion_keeps_links(old_staff.objects@, idx),
    ensures
        new_staff.wf(),
{
    let old_objects = old_staff.objects@;
    let objects = new_staff.objects@;
    assert forall|i: int| 0 <= i < objects.len() implies object_content_wf(#[trigger] objects[i], new_staff.line_count) by {
        if i < idx {
            assert(objects[i] == old_objects[i]);
        } else if i > idx {
            assert(objects[i] == old_objects[i - 1]);
        }
    }
    if idx < old_objects.len() {
        assert(objects.last() == old_objects.last());
    }
    assert forall|i: int| 0 <= i < objects.len() && (#[trigger] accidental_note_address(objects[i])) is Some implies {
        &&& objects[i].slice_address is None
        &&& i + 1 < objects.len()
        &&& objects[i + 1].address == accidental_note_address(objects[i])->0
        &&& note_pitch_of(objects[i + 1]) is Some
        &&& note_accidental_address(objects[i + 1]) == Some(objects[i].address)
    } by {
        if i < idx {
            assert(objects[i] == old_objects[i]);
            assert(accidental_note_address(old_objects[i]) is Some);
            if i + 1 == idx {
                assert(accidental_note_address(old_objects[idx - 1]) is None);
            }
            assert(objects[i + 1] == old_objects[i + 1]);
        } else if i > idx {
            assert(objects[i] == old_objects[i - 1]);
            assert(accidental_note_address(old_objects[i - 1]) is Some);
            assert(objects[i + 1] == old_objects[i]);
        }
    }
    assert forall|i: int| 0 <= i < objects.len() && (#[trigger] note_accidental_address(objects[i])) is Some implies {
        &&& i > 0
        &&& objects[i - 1].address == note_accidental_address(objects[i])->0
        &&& accidental_note_address(objects[i - 1]) == Some(objects[i].address)
    } by {
        if i < idx {
            assert(objects[i] == old_objects[i]);
            assert(note_accidental_address(old_objects[i]) is Some);
            assert(objects[i - 1] == old_objects[i - 1]);
        } else if i > idx {
            assert(objects[i] == old_objects[i - 1]);
            assert(note_accidental_address(old_objects[i - 1]) is Some);
            if i - 1 == idx {
                assert(accidental_note_address(old_objects[idx - 1]) is Some);
            } else {
                assert(objects[i - 1] == old_objects[i - 2]);
            }
        }
    }
}

/// An object removed from a staff leaves every other live address live,
/// naming the same object; every address live afterwards was live before,
/// and the removed object's address is no longer live.
pub proof fn lemma_remove_keeps_live(old_staff: Staff, new_staff: Staff, idx: int)
    requires
        old_staff.table_wf(),
        new_staff.table_wf(),
        0 <= idx < old_staff.objects.len(),
        new_staff.objects@ == old_staff.objects@.remove(idx),
    ensures
        !object_live(new_staff, old_staff.objects@[idx].address as int),
        forall|a: int| object_live(old_staff, a) && a != old_staff.objects@[idx].address ==> object_live(new_staff, a)
            && object_at(new_staff, a) == object_at(old_staff, a),
        forall|a: int| object_live(new_staff, a) ==> object_live(old_staff, a) && a != old_staff.objects@[idx].address,
{
    let old_objects = old_staff.objects@;
    let new_objects = new_staff.objects@;
    let removed = old_objects[idx].address as int;
    assert(object_addresses(old_objects)[idx] == removed);
    assert forall|a: int| object_live(new_staff, a) implies object_live(old_staff, a) && a != removed by {
        let j = new_staff.object_indices@[a] as int;
        let oj = if j < idx { j } else { j + 1 };
        assert(new_objects[j] == old_objects[oj]);
        assert(object_addresses(new_objects)[j] == a);
        assert(object_addresses(old_objects)[oj] == a);
        crate::address::lemma_addresses_distinct(
            old_staff.object_indices@,
            old_staff.object_address_free_list@,
            object_addresses(old_objects),
            oj,
            idx,
        );
    }
    assert forall|a: int| object_live(old_staff, a) && a != removed implies object_live(new_staff, a)
        && object_at(new_staff, a) == object_at(old_staff, a) by {
        let i = old_staff.object_indices@[a] as int;
        assert(object_addresses(old_objects)[i] == a);
        let ni = if i < idx { i } else { i - 1 };
        assert(new_objects[ni] == old_objects[i]);
        assert(object_addresses(new_objects)[ni] == a);
    }
    if object_live(new_staff, removed) {
        let j = new_staff.object_indices@[removed] as int;
        let oj = if j < idx { j } else { j + 1 };
        assert(new_objects[j] == old_objects[oj]);
        assert(object_addresses(new_objects)[j] == removed);
        crate::address::lemma_addresses_distinct(
            old_staff.object_indices@,
            old_staff.object_address_free_list@,
            object_addresses(old_objects),
            oj,
            idx,
        );
    }
}

/// Replacing an object of a staff by one with the same address leaves the
/// live addresses as they were, each naming the same object but the
/// replaced one, which names its replacement.
pub proof fn lemma_update_keeps_live(old_staff: Staff, new_staff: Staff, idx: int)
    requires
        old_staff.table_wf(),
        0 <= idx < old_staff.objects.len(),
        new_staff.objects@ == old_staff.objects@.update(idx, new_staff.objects@[idx]),
        new_staff.objects@[idx].address == old_staff.objects@[idx].address,
        new_staff.object_indices@ == old_staff.object_indices@,
        new_staff.object_address_free_list@ == old_staff.object_address_free_list@,
    ensures
        new_staff.table_wf(),
        forall|a: int| #[trigger] object_live(new_staff, a) == object_live(old_staff, a),
        forall|a: int| object_live(old_staff, a) && a != old_staff.objects@[idx].address ==> object_at(new_staff, a)
            == object_at(old_staff, a),
        object_at(new_staff, old_staff.objects@[idx].address as int) == new_staff.objects@[idx],
{
    assert(object_addresses(new_staff.objects@) =~= object_addresses(old_staff.objects@));
    assert(object_addresses(old_staff.objects@)[idx] == old_staff.objects@[idx].address);
}

/// The staff's address table has room for `n` more addresses.
pub open spec fn staff_room(staff: Staff, n: int) -> bool {
    staff.object_indices.len() + n < usize::MAX
}

/// Both staves align the same live addresses to the same slices.
pub open spec fn same_alignment(old_staff: Staff, new_staff: Staff) -> bool {
    &&& forall|a: int|
        object_live(new_staff, a) && (#[trigger] object_at(new_staff, a)).slice_address is Some ==> object_live(old_staff, a)
            && object_at(old_staff, a).slice_address == object_at(new_staff, a).slice_address
    &&& forall|a: int|
        object_live(old_staff, a) && (#[trigger] object_at(old_staff, a)).slice_address is Some ==> object_live(new_staff, a)
            && object_at(new_staff, a).slice_address == object_at(old_staff, a).slice_address
}

/// The address a new object takes: the last freed one, else the end of the
/// table.
pub open spec fn taken_address(free: Seq<usize>, table_len: nat) -> usize {
    if free.len() > 0 {
        free.last()
    } else {
        table_len as usize
    }
}

/// The free addresses once a new object took one.
pub open spec fn free_after_taking(free: Seq<usize>) -> Seq<usize> {
    if free.len() > 0 {
        free.drop_last()
    } else {
        free
    }
}

/// The length of the address table once a new object took an address.
pub open spec fn table_len_after_taking(free: Seq<usize>, table_len: nat) -> nat {
    if free.len() > 0 {
        table_len
    } else {
        table_len + 1
    }
}

/// Objects with the same alignments from `i` on have the same next slice
/// address from `i`.
pub proof fn lemma_next_slice_address_same(a: Seq<Object>, b: Seq<Object>, i: int)
    requires
        a.len() == b.len(),
        forall|m: int| i <= m < a.len() ==> (#[trigger] a[m]).slice_address == b[m].slice_address,
    ensures
        spec_next_slice_address(a, i) == spec_next_slice_address(b, i),
    decreases a.len() - i,
{
    if 0 <= i < a.len() && a[i].slice_address is None {
        lemma_next_slice_address_same(a, b, i + 1);
    }
}

/// The object, selected or not as `is_selected` says.
pub open spec fn with_selected(object: Object, is_selected: bool) -> Object {
    Object {
        object_type: object.object_type,
        address: object.address,
        slice_address: object.slice_address,
        distance_to_next_slice: object.distance_to_next_slice,
        is_selected: is_selected,
        is_valid_cursor_position: object.is_valid_cursor_position,
    }
}

/// A note with its accidental link and cursor flag set; any other object
/// as it is.
pub open spec fn with_note_link(object: Object, accidental_address: Option<usize>, is_valid_cursor_position: bool) -> Object {
    match object.object_type {
        ObjectType::Duration { pitch: Some(note_pitch), log2_duration, augmentation_dot_count } => Object {
            object_type: ObjectType::Duration {
                pitch: Some(NotePitch { accidental_address: accidental_address, pitch: note_pitch.pitch }),
                log2_duration: log2_duration,
                augmentation_dot_count: augmentation_dot_count,
            },
            address: object.address,
            slice_address: object.slice_address,
            distance_to_next_slice: object.distance_to_next_slice,
            is_selected: object.is_selected,
            is_valid_cursor_position: is_valid_cursor_position,
        },
        _ => object,
    }
}

/// Set the staff's scale index.
pub fn set_scale_index(staff: &mut Staff, scale_index: usize)
    ensures
        final(staff).scale_index == scale_index,
        final(staff).objects@ == old(staff).objects@,
        final(staff).object_indices@ == old(staff).object_indices@,
        final(staff).object_address_free_list@ == old(staff).object_address_free_list@,
        final(staff).vertical_center == old(staff).vertical_center,
        final(staff).line_count == old(staff).line_count,
{
    staff.scale_index = scale_index;
}

/// A note unlinked from its accidental; whether it is a cursor position
/// stays as it was.
pub open spec fn unlinked_note(object: Object) -> Object {
    with_note_link(object, None, object.is_valid_cursor_position)
}

/// The accidental object drawn before the note at `note_address`, a valid
/// cursor position aligned to no slice.
pub open spec fn accidental_object(address: usize, note_address: usize) -> Object {
    Object {
        object_type: ObjectType::Accidental { note_address: note_address },
        address: address,
        slice_address: None,
        distance_to_next_slice: 0,
        is_selected: false,
        is_valid_cursor_position: true,
    }
}

/// Set the accidental link and cursor flag of the note at `object_index`.
pub fn set_note_link(staff: &mut Staff, object_index: usize, accidental_address: Option<usize>, is_valid_cursor_position: bool)
    requires
        object_index < old(staff).objects.len(),
        note_pitch_of(old(staff).objects@[object_index as int]) is Some,
    ensures
        final(staff).objects@ == old(staff).objects@.update(
            object_index as int,
            with_note_link(old(staff).objects@[object_index as int], accidental_address, is_valid_cursor_position),
        ),
        final(staff).object_indices@ == old(staff).object_indices@,
        final(staff).object_address_free_list@ == old(staff).object_address_free_list@,
        same_staff_settings(final(staff), old(staff)),
{
    let object = &staff.objects[object_index];
    let new_object = match &object.object_type {
        ObjectType::Duration { pitch: Some(note_pitch), log2_duration, augmentation_dot_count } => Object {
            object_type: ObjectType::Duration {
                pitch: Some(NotePitch { accidental_address: accidental_address, pitch: note_pitch.pitch }),
                log2_duration: *log2_duration,
                augmentation_dot_count: *augmentation_dot_count,
            },
            address: object.address,
            slice_address: object.slice_address,
            distance_to_next_slice: object.distance_to_next_slice,
            is_selected: object.is_selected,
            is_valid_cursor_position: is_valid_cursor_position,
        },
        _ => {
            return;
        },
    };
    staff.objects.set(object_index, new_object);
}

/// Removing the accidental at `idx` and unlinking its note leaves a sound
/// staff sound, aligning the same addresses to the same slices.
proof fn lemma_remove_accidental_keeps_staff_wf(old_staff: Staff, new_staff: Staff, idx: int)
    requires
        old_staff.wf(),
        new_staff.table_wf(),
        same_staff_settings(&new_staff, &old_staff),
        new_staff.object_indices.len() == old_staff.object_indices.len(),
        0 <= idx < old_staff.objects.len(),
        accidental_note_address(old_staff.objects@[idx]) is Some,
        new_staff.objects@ == old_staff.objects@.update(
            idx + 1,
            unlinked_note(old_staff.objects@[idx + 1]),
        ).remove(idx),
    ensures
        new_staff.wf(),
{
    let old_objects = old_staff.objects@;
    let objects = new_staff.objects@;
    assert(idx + 1 < old_objects.len());
    let note = unlinked_note(old_objects[idx + 1]);
    assert(note_pitch_of(old_objects[idx + 1]) is Some);
    assert(objects[idx] == note);
    assert forall|i: int| 0 <= i < objects.len() implies #[trigger] objects[i] == if i < idx {
        old_objects[i]
    } else if i == idx {
        note
    } else {
        old_objects[i + 1]
    } by {}
    assert forall|i: int| 0 <= i < objects.len() implies object_content_wf(#[trigger] objects[i], new_staff.line_count) by {
        if i < idx {
            assert(object_content_wf(old_objects[i], old_staff.line_count));
        } else if i > idx {
            assert(object_content_wf(old_objects[i + 1], old_staff.line_count));
        }
    }
    assert(objects.last().slice_address is Some) by {
        assert(old_objects.last().slice_address is Some);
        if idx + 1 == old_objects.len() - 1 {
            assert(objects.last() == note);
        } else {
            assert(objects.last() == old_objects.last());
        }
    }
    assert forall|i: int| 0 <= i < objects.len() && (#[trigger] accidental_note_address(objects[i])) is Some implies {
        &&& objects[i].slice_address is None
        &&& i + 1 < objects.len()
        &&& objects[i + 1].address == accidental_note_address(objects[i])->0
        &&& note_pitch_of(objects[i + 1]) is Some
        &&& note_accidental_address(objects[i + 1]) == Some(objects[i].address)
    } by {
        if i < idx {
            assert(accidental_note_address(old_objects[i]) is Some);
            if i + 1 == idx {
                assert(note_pitch_of(old_objects[idx]) is Some);
                assert(accidental_note_address(old_objects[idx]) is None);
            }
            assert(objects[i + 1] == old_objects[i + 1]);
        } else if i > idx {
            assert(accidental_note_address(old_objects[i + 1]) is Some);
            assert(objects[i + 1] == old_objects[i + 2]);
        }
    }
    assert forall|i: int| 0 <= i < objects.len() && (#[trigger] note_accidental_address(objects[i])) is Some implies {
        &&& i > 0
        &&& objects[i - 1].address == note_accidental_address(objects[i])->0
        &&& accidental_note_address(objects[i - 1]) == Some(objects[i].address)
    } by {
        if i < idx {
            assert(note_accidental_address(old_objects[i]) is Some);
            assert(objects[i - 1] == old_objects[i - 1]);
        } else if i > idx {
            assert(note_accidental_address(old_objects[i + 1]) is Some);
            if i == idx + 1 {
                assert(accidental_note_address(old_objects[idx + 1]) is Some);
                assert(note_pitch_of(old_objects[idx + 1]) is Some);
            } else {
                assert(objects[i - 1] == old_objects[i]);
            }
        }
    }
}

/// Inserting an accidental before the note at `idx` and linking the note to
/// it leaves a sound staff sound.
proof fn lemma_insert_accidental_keeps_staff_wf(old_staff: Staff, new_staff: Staff, idx: int, address: usize)
    requires
        old_staff.wf(),
        new_staff.table_wf(),
        same_staff_settings(&new_staff, &old_staff),
        new_staff.object_indices.len() < usize::MAX,
        0 <= idx < old_staff.objects.len(),
        note_pitch_of(old_staff.objects@[idx]) is Some,
        note_accidental_address(old_staff.objects@[idx]) is None,
        new_staff.objects@ == old_staff.objects@.update(
            idx,
            with_note_link(old_staff.objects@[idx], Some(address), false),
        ).insert(idx, accidental_object(address, old_staff.objects@[idx].address)),
    ensures
        new_staff.wf(),
{
    let old_objects = old_staff.objects@;
    let objects = new_staff.objects@;
    let note = with_note_link(old_objects[idx], Some(address), false);
    assert(objects[idx + 1] == note);
    assert forall|i: int| 0 <= i < objects.len() implies #[trigger] objects[i] == if i < idx {
        old_objects[i]
    } else if i == idx {
        accidental_object(address, old_objects[idx].address)
    } else if i == idx + 1 {
        note
    } else {
        old_objects[i - 1]
    } by {}
    assert forall|i: int| 0 <= i < objects.len() implies object_content_wf(#[trigger] objects[i], new_staff.line_count) by {
        if i < idx {
            assert(object_content_wf(old_objects[i], old_staff.line_count));
        } else if i > idx + 1 {
            assert(object_content_wf(old_objects[i - 1], old_staff.line_count));
        }
    }
    assert(objects.last().slice_address is Some) by {
        assert(old_objects.last().slice_address is Some);
        if idx == old_objects.len() - 1 {
            assert(objects.last() == note);
        } else {
            assert(objects.last() == old_objects.last());
        }
    }
    if idx > 0 {
        if accidental_note_address(old_objects[idx - 1]) is Some {
            assert(note_accidental_address(old_objects[idx]) is Some);
        }
    }
    assert forall|i: int| 0 <= i < objects.len() && (#[trigger] accidental_note_address(objects[i])) is Some implies {
        &&& objects[i].slice_address is None
        &&& i + 1 < objects.len()
        &&& objects[i + 1].address == accidental_note_address(objects[i])->0
        &&& note_pitch_of(objects[i + 1]) is Some
        &&& note_accidental_address(objects[i + 1]) == Some(objects[i].address)
    } by {
        if i < idx {
            assert(accidental_note_address(old_objects[i]) is Some);
            assert(objects[i + 1] == old_objects[i + 1]);
        } else if i > idx + 1 {
            assert(accidental_note_address(old_objects[i - 1]) is Some);
            assert(objects[i + 1] == old_objects[i]);
        }
    }
    assert forall|i: int| 0 <= i < objects.len() && (#[trigger] note_accidental_address(objects[i])) is Some implies {
        &&& i > 0
        &&& objects[i - 1].address == note_accidental_address(objects[i])->0
        &&& accidental_note_address(objects[i - 1]) == Some(objects[i].address)
    } by {
        if i < idx {
            assert(note_accidental_address(old_objects[i]) is Some);
            assert(objects[i - 1] == old_objects[i - 1]);
        } else if i > idx + 1 {
            assert(note_accidental_address(old_objects[i - 1]) is Some);
            if i == idx + 2 {
                assert(note_pitch_of(old_objects[idx]) is Some);
                assert(accidental_note_address(old_objects[idx]) is None);
            } else {
                assert(objects[i - 1] == old_objects[i - 2]);
            }
        }
    }
}

/// Remove the accidental at `accidental_index` and unlink its note, which
/// stays a cursor position or not as it was.
pub fn remove_accidental(slice_addresses_to_respace: &mut Vec<usize>, staff: &mut Staff, accidental_index: usize)
    requires
        old(staff).wf(),
        accidental_index < old(staff).objects.len(),
        accidental_note_address(old(staff).objects@[accidental_index as int]) is Some,
    ensures
        final(staff).wf(),
        accidental_index + 1 < old(staff).objects.len(),
        final(staff).objects@ == old(staff).objects@.update(
            accidental_index + 1,
            unlinked_note(old(staff).objects@[accidental_index + 1]),
        ).remove(accidental_index as int),
        same_alignment(*old(staff), *final(staff)),
        same_staff_settings(final(staff), old(staff)),
        final(staff).object_indices.len() == old(staff).object_indices.len(),
        final(staff).object_address_free_list@ == old(staff).object_address_free_list@.push(
            old(staff).objects@[accidental_index as int].address,
        ),
        final(slice_addresses_to_respace)@ == pushed_if_absent(
            old(slice_addresses_to_respace)@,
            spec_next_slice_address(
                old(staff).objects@.update(accidental_index + 1, unlinked_note(old(staff).objects@[accidental_index + 1])),
                accidental_index as int,
            ),
        ),
{
    let ghost old_staff = *staff;
    let ghost idx = accidental_index as int;
    proof {
        assert(idx + 1 < old_staff.objects.len());
        assert(note_pitch_of(old_staff.objects@[idx + 1]) is Some);
    }
    let is_valid_cursor_position = staff.objects[accidental_index + 1].is_valid_cursor_position;
    set_note_link(staff, accidental_index + 1, None, is_valid_cursor_position);
    let ghost mid = *staff;
    proof {
        lemma_update_keeps_live(old_staff, mid, idx + 1);
        let last = mid.objects.len() - 1;
        assert(old_staff.objects@.last().slice_address is Some);
        assert(mid.objects@[last].slice_address is Some);
    }
    basic_remove_object(slice_addresses_to_respace, staff, accidental_index);
    proof {
        lemma_remove_accidental_keeps_staff_wf(old_staff, *staff, idx);
        lemma_remove_keeps_live(mid, *staff, idx);
        let acc_address = old_staff.objects@[idx].address as int;
        assert(mid.objects@[idx] == old_staff.objects@[idx]);
        assert(object_addresses(old_staff.objects@)[idx] == acc_address);
        assert(object_at(old_staff, acc_address).slice_address is None);
        let note_address = old_staff.objects@[idx + 1].address as int;
        assert(object_addresses(old_staff.objects@)[idx + 1] == note_address);
        assert(object_at(mid, note_address).slice_address == object_at(old_staff, note_address).slice_address);
    }
}

/// Insert an accidental before the note at `note_index`, which has none,
/// and link the note to it; the note stops being a valid cursor position.
/// Returns the accidental's address.
pub fn insert_accidental(slice_addresses_to_respace: &mut Vec<usize>, staff: &mut Staff, note_index: usize) -> (address: usize)
    requires
        old(staff).wf(),
        note_index < old(staff).objects.len(),
        note_pitch_of(old(staff).objects@[note_index as int]) is Some,
        note_accidental_address(old(staff).objects@[note_index as int]) is None,
        staff_room(*old(staff), 1),
    ensures
        final(staff).wf(),
        final(staff).objects@ == old(staff).objects@.update(
            note_index as int,
            with_note_link(old(staff).objects@[note_index as int], Some(address), false),
        ).insert(note_index as int, accidental_object(address, old(staff).objects@[note_index as int].address)),
        same_alignment(*old(staff), *final(staff)),
        same_staff_settings(final(staff), old(staff)),
        final(staff).object_indices.len() <= old(staff).object_indices.len() + 1,
        address == taken_address(old(staff).object_address_free_list@, old(staff).object_indices@.len()),
        final(staff).object_address_free_list@ == free_after_taking(old(staff).object_address_free_list@),
        final(staff).object_indices.len() == table_len_after_taking(old(staff).object_address_free_list@, old(staff).object_indices@.len()),
        final(slice_addresses_to_respace)@ == pushed_if_absent(
            old(slice_addresses_to_respace)@,
            spec_next_slice_address(final(staff).objects@, note_index as int),
        ),
{
    let ghost old_staff = *staff;
    let ghost idx = note_index as int;
    let note_address = staff.objects[note_index].address;
    set_note_link(staff, note_index, None, false);
    let ghost first = *staff;
    proof {
        lemma_update_keeps_live(old_staff, first, idx);
        assert(first.objects@.last().slice_address is Some) by {
            assert(old_staff.objects@.last().slice_address is Some);
        }
        assert(first.objects@[first.objects.len() - 1].slice_address is Some);
    }
    let address = insert_object(
        slice_addresses_to_respace,
        staff,
        note_index,
        Object {
            object_type: ObjectType::Accidental { note_address },
            address: 0,
            slice_address: None,
            distance_to_next_slice: 0,
            is_selected: false,
            is_valid_cursor_position: true,
        },
    );
    let ghost second = *staff;
    proof {
        assert(second.objects@[idx] == accidental_object(address, note_address));
        lemma_insert_keeps_live(first, second, idx, address);
        assert(note_pitch_of(second.objects@[idx + 1]) is Some);
    }
    set_note_link(staff, note_index + 1, Some(address), false);
    proof {
        lemma_next_slice_address_same(second.objects@, staff.objects@, idx);
        lemma_update_keeps_live(second, *staff, idx + 1);
        assert(staff.objects@ =~= old_staff.objects@.update(
            idx,
            with_note_link(old_staff.objects@[idx], Some(address), false),
        ).insert(idx, accidental_object(address, note_address)));
        lemma_insert_accidental_keeps_staff_wf(old_staff, *staff, idx, address);
        assert(object_addresses(old_staff.objects@)[idx] == note_address);
        assert forall|a: int| object_live(*staff, a) && (#[trigger] object_at(*staff, a)).slice_address is Some implies object_live(old_staff, a)
            && object_at(old_staff, a).slice_address == object_at(*staff, a).slice_address by {
            assert(object_live(second, a));
            if a == address {
                assert(object_at(second, a) == second.objects@[idx]);
            } else {
                let i = second.object_indices@[a] as int;
                assert(object_addresses(second.objects@)[i] == a);
                let oi = if i < idx { i } else { i - 1 };
                assert(second.objects@[i] == first.objects@[oi]);
                assert(object_addresses(first.objects@)[oi] == a);
                assert(object_live(first, a));
            }
        }
    }
    address
}

/// Removing an object that is neither an accidental nor a note with one,
/// and not the last, leaves a sound staff sound.
pub proof fn lemma_remove_unlinked_keeps_staff_wf(old_staff: Staff, new_staff: Staff, idx: int)
    requires
        old_staff.wf(),
        new_staff.table_wf(),
        same_staff_settings(&new_staff, &old_staff),
        new_staff.object_indices.len() == old_staff.object_indices.len(),
        0 <= idx < old_staff.objects.len() - 1,
        unlinked(old_staff.objects@[idx]),
        new_staff.objects@ == old_staff.objects@.remove(idx),
    ensures
        new_staff.wf(),
{
    let old_objects = old_staff.objects@;
    let objects = new_staff.objects@;
    assert forall|i: int| 0 <= i < objects.len() implies #[trigger] objects[i] == if i < idx {
        old_objects[i]
    } else {
        old_objects[i + 1]
    } by {}
    assert forall|i: int| 0 <= i < objects.len() implies object_content_wf(#[trigger] objects[i], new_staff.line_count) by {
        if i < idx {
            assert(object_content_wf(old_objects[i], old_staff.line_count));
        } else {
            assert(object_content_wf(old_objects[i + 1], old_staff.line_count));
        }
    }
    assert(objects.last() == old_objects.last());
    assert forall|i: int| 0 <= i < objects.len() && (#[trigger] accidental_note_address(objects[i])) is Some implies {
        &&& objects[i].slice_address is None
        &&& i + 1 < objects.len()
        &&& objects[i + 1].address == accidental_note_address(objects[i])->0
        &&& note_pitch_of(objects[i + 1]) is Some
        &&& note_accidental_address(objects[i + 1]) == Some(objects[i].address)
    } by {
        if i < idx {
            assert(accidental_note_address(old_objects[i]) is Some);
            if i + 1 == idx {
                assert(note_accidental_address(old_objects[idx]) is Some);
            }
            assert(objects[i + 1] == old_objects[i + 1]);
        } else {
            assert(accidental_note_address(old_objects[i + 1]) is Some);
            assert(objects[i + 1] == old_objects[i + 2]);
        }
    }
    assert forall|i: int| 0 <= i < objects.len() && (#[trigger] note_accidental_address(objects[i])) is Some implies {
        &&& i > 0
        &&& objects[i - 1].address == note_accidental_address(objects[i])->0
        &&& accidental_note_address(objects[i - 1]) == Some(objects[i].address)
    } by {
        if i < idx {
            assert(note_accidental_address(old_objects[i]) is Some);
            assert(objects[i - 1] == old_objects[i - 1]);
        } else {
            assert(note_accidental_address(old_objects[i + 1]) is Some);
            if i == idx {
                assert(accidental_note_address(old_objects[idx]) is Some);
            } else {
                assert(objects[i - 1] == old_objects[i]);
            }
        }
    }
}

/// A note turned into a rest of the same duration; any other object as it is.
pub open spec fn as_rest(object: Object) -> Object {
    match object.object_type {
        ObjectType::Duration { log2_duration, augmentation_dot_count, .. } => Object {
            object_type: ObjectType::Duration {
                pitch: None,
                log2_duration: log2_duration,
                augmentation_dot_count: augmentation_dot_count,
            },
            address: object.address,
            slice_address: object.slice_address,
            distance_to_next_slice: object.distance_to_next_slice,
            is_selected: object.is_selected,
            is_valid_cursor_position: object.is_valid_cursor_position,
        },
        _ => object,
    }
}

/// Turn the note at `object_index`, which has no accidental, into a rest.
pub fn make_rest(staff: &mut Staff, object_index: usize)
    requires
        old(staff).wf(),
        object_index < old(staff).objects.len(),
        note_pitch_of(old(staff).objects@[object_index as int]) is Some,
        note_accidental_address(old(staff).objects@[object_index as int]) is None,
    ensures
        final(staff).wf(),
        final(staff).objects@ == old(staff).objects@.update(object_index as int, as_rest(old(staff).objects@[object_index as int])),
        same_alignment(*old(staff), *final(staff)),
        same_staff_settings(final(staff), old(staff)),
        final(staff).object_indices@ == old(staff).object_indices@,
{
    let ghost old_staff = *staff;
    let ghost idx = object_index as int;
    let object = &staff.objects[object_index];
    let new_object = match &object.object_type {
        ObjectType::Duration { log2_duration, augmentation_dot_count, .. } => Object {
            object_type: ObjectType::Duration {
                pitch: None,
                log2_duration: *log2_duration,
                augmentation_dot_count: *augmentation_dot_count,
            },
            address: object.address,
            slice_address: object.slice_address,
            distance_to_next_slice: object.distance_to_next_slice,
            is_selected: object.is_selected,
            is_valid_cursor_position: object.is_valid_cursor_position,
        },
        _ => {
            return;
        },
    };
    staff.objects.set(object_index, new_object);
    proof {
        lemma_update_keeps_live(old_staff, *staff, idx);
        let old_objects = old_staff.objects@;
        let objects = staff.objects@;
        assert forall|i: int| 0 <= i < objects.len() implies object_content_wf(#[trigger] objects[i], staff.line_count) by {
            if i != idx {
                assert(object_content_wf(old_objects[i], old_staff.line_count));
            }
        }
        assert(objects.last().slice_address is Some) by {
            assert(old_objects.last().slice_address is Some);
        }
        if idx > 0 {
            if accidental_note_address(old_objects[idx - 1]) is Some {
                assert(note_accidental_address(old_objects[idx]) is Some);
            }
        }
        assert forall|i: int| 0 <= i < objects.len() && (#[trigger] accidental_note_address(objects[i])) is Some implies {
            &&& objects[i].slice_address is None
            &&& i + 1 < objects.len()
            &&& objects[i + 1].address == accidental_note_address(objects[i])->0
            &&& note_pitch_of(objects[i + 1]) is Some
            &&& note_accidental_address(objects[i + 1]) == Some(objects[i].address)
        } by {
            assert(objects[i] == old_objects[i]);
            assert(accidental_note_address(old_objects[i]) is Some);
        }
        assert forall|i: int| 0 <= i < objects.len() && (#[trigger] note_accidental_address(objects[i])) is Some implies {
            &&& i > 0
            &&& objects[i - 1].address == note_accidental_address(objects[i])->0
            &&& accidental_note_address(objects[i - 1]) == Some(objects[i].address)
        } by {
            assert(objects[i] == old_objects[i]);
            assert(note_accidental_address(old_objects[i]) is Some);
            assert(objects[i - 1] == old_objects[i - 1]);
        }
        assert(object_addresses(old_objects)[idx] == old_objects[idx].address);
    }
}

/// The object with another type; its other fields as they are.
pub open spec fn with_type(object: Object, object_type: ObjectType) -> Object {
    Object {
        object_type: object_type,
        address: object.address,
        slice_address: object.slice_address,
        distance_to_next_slice: object.distance_to_next_slice,
        is_selected: object.is_selected,
        is_valid_cursor_position: object.is_valid_cursor_position,
    }
}

/// Give the object at `object_index`, neither an accidental nor a note with
/// one, a new type that is neither either, and sound for the staff.
pub fn replace_object_type(staff: &mut Staff, object_index: usize, object_type: ObjectType)
    requires
        old(staff).wf(),
        object_index < old(staff).objects.len(),
        unlinked(old(staff).objects@[object_index as int]),
        unlinked(with_type(old(staff).objects@[object_index as int], object_type)),
        object_content_wf(with_type(old(staff).objects@[object_index as int], object_type), old(staff).line_count),
    ensures
        final(staff).wf(),
        final(staff).objects@ == old(staff).objects@.update(
            object_index as int,
            with_type(old(staff).objects@[object_index as int], object_type),
        ),
        same_alignment(*old(staff), *final(staff)),
        same_staff_settings(final(staff), old(staff)),
        final(staff).object_indices@ == old(staff).object_indices@,
{
    let ghost old_staff = *staff;
    let ghost idx = object_index as int;
    let object = &staff.objects[object_index];
    let new_object = Object {
        object_type: object_type,
        address: object.address,
        slice_address: object.slice_address,
        distance_to_next_slice: object.distance_to_next_slice,
        is_selected: object.is_selected,
        is_valid_cursor_position: object.is_valid_cursor_position,
    };
    staff.objects.set(object_index, new_object);
    proof {
        lemma_update_keeps_live(old_staff, *staff, idx);
        let old_objects = old_staff.objects@;
        let objects = staff.objects@;
        assert forall|i: int| 0 <= i < objects.len() implies object_content_wf(#[trigger] objects[i], staff.line_count) by {
            if i != idx {
                assert(object_content_wf(old_objects[i], old_staff.line_count));
            }
        }
        assert(objects.last().slice_address is Some) by {
            assert(old_objects.last().slice_address is Some);
        }
        if idx > 0 {
            if accidental_note_address(old_objects[idx - 1]) is Some {
                assert(note_accidental_address(old_objects[idx]) is Some);
            }
        }
        if idx + 1 < old_objects.len() {
            if note_accidental_address(old_objects[idx + 1]) is Some {
                assert(accidental_note_address(old_objects[idx]) is Some);
            }
        }
        assert forall|i: int| 0 <= i < objects.len() && (#[trigger] accidental_note_address(objects[i])) is Some implies {
            &&& objects[i].slice_address is None
            &&& i + 1 < objects.len()
            &&& objects[i + 1].address == accidental_note_address(objects[i])->0
            &&& note_pitch_of(objects[i + 1]) is Some
            &&& note_accidental_address(objects[i + 1]) == Some(objects[i].address)
        } by {
            assert(objects[i] == old_objects[i]);
            assert(accidental_note_address(old_objects[i]) is Some);
        }
        assert forall|i: int| 0 <= i < objects.len() && (#[trigger] note_accidental_address(objects[i])) is Some implies {
            &&& i > 0
            &&& objects[i - 1].address == note_accidental_address(objects[i])->0
            &&& accidental_note_address(objects[i - 1]) == Some(objects[i].address)
        } by {
            assert(objects[i] == old_objects[i]);
            assert(note_accidental_address(old_objects[i]) is Some);
            assert(objects[i - 1] == old_objects[i - 1]);
        }
        assert(object_addresses(old_objects)[idx] == old_objects[idx].address);
    }
}

/// The object keeps its address, its slice, its accidental links, and
/// whether it is a note.
pub open spec fn same_links(a: Object, b: Object) -> bool {
    &&& a.address == b.address
    &&& a.slice_address == b.slice_address
    &&& accidental_note_address(a) == accidental_note_address(b)
    &&& note_accidental_address(a) == note_accidental_address(b)
    &&& (note_pitch_of(a) is Some) == (note_pitch_of(b) is Some)
}

/// Replacing the object at `idx` of a sound staff by one with the same
/// address, slice and accidental links, sound for the staff, leaves it
/// sound and aligning the same addresses to the same slices.
pub proof fn lemma_same_links_update(old_staff: Staff, new_staff: Staff, idx: int)
    requires
        old_staff.wf(),
        0 <= idx < old_staff.objects.len(),
        new_staff.objects@ == old_staff.objects@.update(idx, new_staff.objects@[idx]),
        same_links(new_staff.objects@[idx], old_staff.objects@[idx]),
        object_content_wf(new_staff.objects@[idx], old_staff.line_count),
        new_staff.object_indices@ == old_staff.object_indices@,
        new_staff.object_address_free_list@ == old_staff.object_address_free_list@,
        same_staff_settings(&new_staff, &old_staff),
    ensures
        new_staff.wf(),
        same_alignment(old_staff, new_staff),
{
    lemma_update_keeps_live(old_staff, new_staff, idx);
    let old_objects = old_staff.objects@;
    let objects = new_staff.objects@;
    assert forall|i: int| 0 <= i < objects.len() implies object_content_wf(#[trigger] objects[i], new_staff.line_count) by {
        if i != idx {
            assert(object_content_wf(old_objects[i], old_staff.line_count));
        }
    }
    assert(objects.last().slice_address is Some) by {
        assert(old_objects.last().slice_address is Some);
    }
    assert forall|i: int| 0 <= i < objects.len() && (#[trigger] accidental_note_address(objects[i])) is Some implies {
        &&& objects[i].slice_address is None
        &&& i + 1 < objects.len()
        &&& objects[i + 1].address == accidental_note_address(objects[i])->0
        &&& note_pitch_of(objects[i + 1]) is Some
        &&& note_accidental_address(objects[i + 1]) == Some(objects[i].address)
    } by {
        assert(accidental_note_address(old_objects[i]) is Some);
    }
    assert forall|i: int| 0 <= i < objects.len() && (#[trigger] note_accidental_address(objects[i])) is Some implies {
        &&& i > 0
        &&& objects[i - 1].address == note_accidental_address(objects[i])->0
        &&& accidental_note_address(objects[i - 1]) == Some(objects[i].address)
    } by {
        assert(note_accidental_address(old_objects[i]) is Some);
    }
    assert(object_addresses(old_objects)[idx] == old_objects[idx].address);
}

/// Replace the object at `object_index` by one with the same address,
/// slice and accidental links, sound for the staff.
pub fn update_object(staff: &mut Staff, object_index: usize, object: Object)
    requires
        old(staff).wf(),
        object_index < old(staff).objects.len(),
        same_links(object, old(staff).objects@[object_index as int]),
        object_content_wf(object, old(staff).line_count),
    ensures
        final(staff).wf(),
        final(staff).objects@ == old(staff).objects@.update(object_index as int, object),
        same_alignment(*old(staff), *final(staff)),
        same_staff_settings(final(staff), old(staff)),
        final(staff).object_indices@ == old(staff).object_indices@,
{
    let ghost old_staff = *staff;
    staff.objects.set(object_index, object);
    proof {
        lemma_same_links_update(old_staff, *staff, object_index as int);
    }
}

/// Mark the object at `object_index` selected or not.
pub fn set_selected(staff: &mut Staff, object_index: usize, is_selected: bool)
    requires
        old(staff).wf(),
        object_index < old(staff).objects.len(),
    ensures
        final(staff).wf(),
        final(staff).objects.len() == old(staff).objects.len(),
        final(staff).objects@[object_index as int].is_selected == is_selected,
        final(staff).objects@[object_index as int].address == old(staff).objects@[object_index as int].address,
        final(staff).objects@[object_index as int].object_type == old(staff).objects@[object_index as int].object_type,
        final(staff).objects@[object_index as int].slice_address == old(staff).objects@[object_index as int].slice_address,
        forall|i: int| 0 <= i < old(staff).objects.len() && i != object_index ==> #[trigger] final(staff).objects@[i]
            == old(staff).objects@[i],
        same_alignment(*old(staff), *final(staff)),
        same_staff_settings(final(staff), old(staff)),
        final(staff).object_indices@ == old(staff).object_indices@,
        final(staff).objects@ == old(staff).objects@.update(
            object_index as int,
            with_selected(old(staff).objects@[object_index as int], is_selected),
        ),
{
    let ghost old_staff = *staff;
    staff.objects[object_index].is_selected = is_selected;
    proof {
        assert(staff.objects@ =~= old_staff.objects@.update(object_index as int, staff.objects@[object_index as int]));
        lemma_same_links_update(old_staff, *staff, object_index as int);
    }
}

/// The object with another distance to the next slice.
pub open spec fn with_distance(object: Object, distance: i32) -> Object {
    Object {
        object_type: object.object_type,
        address: object.address,
        slice_address: object.slice_address,
        distance_to_next_slice: distance,
        is_selected: object.is_selected,
        is_valid_cursor_position: object.is_valid_cursor_position,
    }
}

/// Set the distance from the object at `object_index` to the next slice.
pub fn set_distance_to_next_slice(staff: &mut Staff, object_index: usize, distance: i32)
    requires
        old(staff).wf(),
        object_index < old(staff).objects.len(),
    ensures
        final(staff).wf(),
        final(staff).objects@ == old(staff).objects@.update(
            object_index as int,
            with_distance(old(staff).objects@[object_index as int], distance),
        ),
        same_alignment(*old(staff), *final(staff)),
        same_staff_settings(final(staff), old(staff)),
        final(staff).object_indices@ == old(staff).object_indices@,
        final(staff).object_address_free_list@ == old(staff).object_address_free_list@,
{
    let ghost old_staff = *staff;
    staff.objects[object_index].distance_to_next_slice = distance;
    proof {
        assert(staff.objects@ =~= old_staff.objects@.update(object_index as int, staff.objects@[object_index as int]));
        lemma_same_links_update(old_staff, *staff, object_index as int);
    }
}

/// The previous cursor position lies before `end`, or is -1.
pub proof fn lemma_previous_cursor_position(objects: Seq<Object>, end: int)
    requires
        end <= objects.len(),
    ensures
        -1 <= previous_cursor_position(objects, end) < end || end <= 0,
    decreases end,
{
    if end > 0 && !objects[end - 1].is_valid_cursor_position {
        lemma_previous_cursor_position(objects, end - 1);
    }
}

/// The next cursor position lies after `index` and in range, or is -1.
pub proof fn lemma_next_cursor_position(objects: Seq<Object>, index: int)
    ensures
        next_cursor_position(objects, index) == -1 || index < next_cursor_position(objects, index) < objects.len(),
    decreases objects.len() - index,
{
    if index + 1 < objects.len() && !objects[index + 1].is_valid_cursor_position {
        lemma_next_cursor_position(objects, index + 1);
    }
}

} // verus!
