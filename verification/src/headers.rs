use vstd::prelude::*;
use crate::staff::{
    insertion_keeps_links, accidental_note_address, is_header_key_sig, is_header_time_sig, object_addresses, object_at,
    object_content_wf, object_is_header, object_live, replace_object_type, same_staff_settings, spec_object_is_header,
    unlinked, with_type, Object, ObjectType,
};
use crate::system::{insert_slice, insert_slice_object, staff_has_room, Score};

verus! {

/// The object is a header object of the same kind (key signature or time
/// signature) as `header_object`.
pub open spec fn same_header_kind(object: Object, header_object: ObjectType) -> bool {
    match header_object {
        ObjectType::KeySig(_) => object.object_type matches ObjectType::KeySig(k) && k.is_header,
        ObjectType::TimeSig { .. } => object.object_type matches ObjectType::TimeSig { is_header: h, .. } && h,
        _ => false,
    }
}

/// Whether the object is a header object of the same kind as `header_object`.
fn is_same_header_kind(object: &Object, header_object: &ObjectType) -> (same: bool)
    ensures
        same == same_header_kind(*object, *header_object),
{
    match header_object {
        ObjectType::KeySig(_) => is_header_key_sig(object),
        ObjectType::TimeSig { .. } => is_header_time_sig(object),
        _ => false,
    }
}

/// The object placed in a staff's header: not a cursor position, aligned to
/// the slice at `slice_address`.
pub open spec fn header_object_at(object_type: ObjectType, slice_address: usize) -> Object {
    Object {
        object_type: object_type,
        address: 0,
        slice_address: Some(slice_address),
        distance_to_next_slice: 0,
        is_selected: false,
        is_valid_cursor_position: false,
    }
}

/// Where `header_object` goes, looking on from the object at `index` (the
/// clef, at step 0) for at most `offset - step` more places: at the next
/// header object of its kind (to be replaced, `true`), or else before the
/// next object that is a clef or not in the header, or at the last place
/// looked at.
pub open spec fn header_place(objects: Seq<Object>, index: int, step: int, offset: int, header_object: ObjectType) -> (int, bool)
    decreases offset - step,
{
    if step >= offset || index + 1 >= objects.len() {
        (index + 1, false)
    } else {
        let next = objects[index + 1];
        if next.object_type is Clef || !spec_object_is_header(next) {
            (index + 1, false)
        } else if same_header_kind(next, header_object) {
            (index + 1, true)
        } else if step + 1 == offset {
            (index + 1, false)
        } else {
            header_place(objects, index + 1, step + 1, offset, header_object)
        }
    }
}

/// Where `header_object` goes in the header of staff `staff_index`, whose
/// clef stands at `clef_index`: the position of a header object of its kind
/// found within `offset_from_clef` places after the clef (to be replaced),
/// or else the position before which it is inserted: the first object there
/// that is a clef or not in the header, or the place `offset_from_clef`
/// after the clef.
fn header_object_position(score: &Score, staff_index: usize, clef_index: usize, offset_from_clef: usize, header_object: &ObjectType) -> (place: (usize, bool))
    requires
        score.wf(),
        staff_index < score.staves.len(),
        clef_index < score.staves@[staff_index as int].objects.len(),
        score.staves@[staff_index as int].objects@[clef_index as int].object_type is Clef,
        offset_from_clef >= 1,
    ensures
        place.0 as int == header_place(score.staves@[staff_index as int].objects@, clef_index as int, 0, offset_from_clef as int, *header_object).0,
        place.1 == header_place(score.staves@[staff_index as int].objects@, clef_index as int, 0, offset_from_clef as int, *header_object).1,
        ({
            let objects = score.staves@[staff_index as int].objects@;
            if place.1 {
                place.0 < objects.len() && same_header_kind(objects[place.0 as int], *header_object)
            } else {
                clef_index < place.0 <= objects.len() && insertion_keeps_links(objects, place.0 as int)
            }
        }),
{
    let ghost s = staff_index as int;
    let staff = &score.staves[staff_index];
    proof {
        assert(staff.wf());
    }
    let mut object_index = clef_index;
    let mut step: usize = 0;
    while step < offset_from_clef
        invariant
            staff.wf(),
            *staff == score.staves@[s],
            s == staff_index,
            clef_index <= object_index < staff.objects.len(),
            accidental_note_address(staff.objects@[object_index as int]) is None,
            step <= offset_from_clef,
            object_index == clef_index + step,
            header_place(staff.objects@, clef_index as int, 0, offset_from_clef as int, *header_object)
                == header_place(staff.objects@, object_index as int, step as int, offset_from_clef as int, *header_object),
        ensures
            clef_index <= object_index < staff.objects.len(),
            header_place(staff.objects@, clef_index as int, 0, offset_from_clef as int, *header_object)
                == (object_index + 1, false),
        decreases offset_from_clef - step,
    {
        if object_index + 1 >= staff.objects.len() {
            break;
        }
        let object = &staff.objects[object_index + 1];
        if let ObjectType::Clef(_) = &object.object_type {
            break;
        }
        if !object_is_header(object) {
            break;
        }
        if is_same_header_kind(object, header_object) {
            return (object_index + 1, true);
        }
        if step + 1 == offset_from_clef {
            return (object_index + 1, false);
        }
        object_index = object_index + 1;
        step = step + 1;
    }
    (object_index + 1, false)
}

/// The first object listed by slice `k`.
pub open spec fn first_slice_object(score: Score, k: int) -> Object {
    let entry = score.slices@[k].object_addresses@[0];
    object_at(score.staves@[entry.staff_index as int], entry.object_address as int)
}

/// Which slice `header_object` goes on, looking on from slice `k` (the
/// clef's, at step 0) for at most `offset - step` more slices: the next one
/// whose first object is a header object of its kind (`true`), or else the
/// position for a new slice: before the next slice that is empty or whose
/// first object is a clef or not in the header, or at the last place looked
/// at.
pub open spec fn header_slice_place(score: Score, k: int, step: int, offset: int, header_object: ObjectType) -> (int, bool)
    decreases offset - step,
{
    if step >= offset || k + 1 >= score.slices.len() || score.slices@[k + 1].object_addresses.len() == 0 {
        (k + 1, false)
    } else {
        let first = first_slice_object(score, k + 1);
        if first.object_type is Clef || !spec_object_is_header(first) {
            (k + 1, false)
        } else if same_header_kind(first, header_object) {
            (k + 1, true)
        } else if step + 1 == offset {
            (k + 1, false)
        } else {
            header_slice_place(score, k + 1, step + 1, offset, header_object)
        }
    }
}

/// Where the slice of `header_object` is: the slice, within
/// `offset_from_clef` places after the clef's slice at `clef_slice_index`,
/// whose first object is a header object of its kind (when `existing`), or
/// else the position at which a new slice goes: before the first slice there
/// that is empty, or whose first object is a clef or not in the header, or
/// the place `offset_from_clef` after the clef's slice.
fn header_slice_position(score: &Score, clef_slice_index: usize, offset_from_clef: usize, header_object: &ObjectType) -> (place: (usize, bool))
    requires
        score.wf(),
        clef_slice_index < score.slices.len(),
        offset_from_clef >= 1,
    ensures
        if place.1 {
            place.0 < score.slices.len()
        } else {
            place.0 <= score.slices.len()
        },
        place.0 as int == header_slice_place(*score, clef_slice_index as int, 0, offset_from_clef as int, *header_object).0,
        place.1 == header_slice_place(*score, clef_slice_index as int, 0, offset_from_clef as int, *header_object).1,
{
    let mut slice_index = clef_slice_index;
    let mut step: usize = 0;
    while step < offset_from_clef
        invariant
            score.wf(),
            slice_index < score.slices.len(),
            slice_index == clef_slice_index + step,
            step <= offset_from_clef,
            header_slice_place(*score, clef_slice_index as int, 0, offset_from_clef as int, *header_object)
                == header_slice_place(*score, slice_index as int, step as int, offset_from_clef as int, *header_object),
        ensures
            slice_index < score.slices.len(),
            header_slice_place(*score, clef_slice_index as int, 0, offset_from_clef as int, *header_object)
                == (slice_index + 1, false),
        decreases offset_from_clef - step,
    {
        if slice_index + 1 >= score.slices.len() {
            break;
        }
        if score.slices[slice_index + 1].object_addresses.len() == 0 {
            break;
        }
        let slice_object_address = score.slices[slice_index + 1].object_addresses[0];
        proof {
            assert(score.entry_wf(slice_index + 1, score.slices@[slice_index + 1].object_addresses@[0]));
        }
        let other_staff = &score.staves[slice_object_address.staff_index];
        let slice_object = &other_staff.objects[other_staff.object_indices[slice_object_address.object_address]];
        if let ObjectType::Clef(_) = &slice_object.object_type {
            break;
        }
        if !object_is_header(slice_object) {
            break;
        }
        if is_same_header_kind(slice_object, header_object) {
            return (slice_index + 1, true);
        }
        if step + 1 == offset_from_clef {
            return (slice_index + 1, false);
        }
        slice_index = slice_index + 1;
        step = step + 1;
    }
    (slice_index + 1, false)
}

/// Place `header_object` (a key signature or time signature) in the header
/// of staff `staff_index`, whose clef stands at `clef_index`, at most
/// `offset_from_clef` places after the clef: it replaces a header object of
/// its kind found there; otherwise it goes before the first object there
/// that is a clef or not in the header, in the slice of another staff's
/// header object of its kind at that place, or in a new slice (see
/// `header_place` and `header_slice_place`). Returns the position of the
/// header object.
pub fn insert_header_object(
    slice_addresses_to_respace: &mut Vec<usize>,
    score: &mut Score,
    staff_index: usize,
    clef_index: usize,
    offset_from_clef: usize,
    header_object: ObjectType,
) -> (index: usize)
    requires
        old(score).wf(),
        staff_index < old(score).staves.len(),
        clef_index < old(score).staves@[staff_index as int].objects.len(),
        old(score).staves@[staff_index as int].objects@[clef_index as int].object_type is Clef,
        old(score).staves@[staff_index as int].objects@[clef_index as int].slice_address is Some,
        offset_from_clef >= 1,
        header_object is KeySig || header_object is TimeSig,
        object_content_wf(header_object_at(header_object, 0), old(score).staves@[staff_index as int].line_count),
        staff_has_room(old(score).staves@[staff_index as int], 1),
        old(score).slice_indices.len() + 1 < usize::MAX,
    ensures
        final(score).wf(),
        final(score).staves.len() == old(score).staves.len(),
        forall|t: int| 0 <= t < old(score).staves.len() && t != staff_index ==> #[trigger] final(score).staves@[t]
            == old(score).staves@[t],
        same_staff_settings(&final(score).staves@[staff_index as int], &old(score).staves@[staff_index as int]),
        final(score).ghost_cursor == old(score).ghost_cursor,
        index < final(score).staves@[staff_index as int].objects.len(),
        final(score).staves@[staff_index as int].objects@[index as int].object_type == header_object,
        forall|j: int| 0 <= j < index ==> #[trigger] final(score).staves@[staff_index as int].objects@[j]
            == old(score).staves@[staff_index as int].objects@[j],
        ({
            let objects = old(score).staves@[staff_index as int].objects@;
            let clef_slice = old(score).slice_indices@[objects[clef_index as int].slice_address->0 as int] as int;
            let slice_place = header_slice_place(*old(score), clef_slice, 0, offset_from_clef as int, header_object);
            let placed = final(score).staves@[staff_index as int].objects@[index as int];
            !header_place(objects, clef_index as int, 0, offset_from_clef as int, header_object).1 ==> {
                &&& placed.slice_address is Some
                &&& slice_place.0 < final(score).slices.len()
                &&& final(score).slices@[slice_place.0].address == placed.slice_address->0
                &&& if slice_place.1 {
                    placed.slice_address->0 == old(score).slices@[slice_place.0].address
                } else {
                    !old(score).slice_live(placed.slice_address->0 as int)
                }
            }
        }),
        ({
            let objects = old(score).staves@[staff_index as int].objects@;
            let place = header_place(objects, clef_index as int, 0, offset_from_clef as int, header_object);
            &&& index == place.0
            &&& if place.1 {
                final(score).staves@[staff_index as int].objects@ == objects.update(
                    place.0,
                    with_type(objects[place.0], header_object),
                )
            } else {
                exists|address: usize, slice_address: usize| #[trigger] final(score).staves@[staff_index as int].objects@
                    == objects.insert(place.0, crate::staff::with_address(header_object_at(header_object, slice_address), address))
            }
        }),
{
    let ghost s = staff_index as int;
    proof {
        assert(score.staves@[s].wf());
    }
    let (object_index, replace) = header_object_position(score, staff_index, clef_index, offset_from_clef, &header_object);
    if replace {
        proof {
            assert(unlinked(score.staves@[s].objects@[object_index as int]));
        }
        let ghost before = *score;
        replace_object_type(&mut score.staves[staff_index], object_index, header_object);
        proof {
            crate::system::lemma_staff_change_keeps_score_wf(before, *score, s);
        }
        return object_index;
    }
    let clef_slice_address = match score.staves[staff_index].objects[clef_index].slice_address {
        Some(address) => address,
        None => 0,
    };
    proof {
        let objects = score.staves@[s].objects@;
        assert(objects[clef_index as int].slice_address is Some);
        assert(score.slice_live(clef_slice_address as int));
        assert(crate::system::slice_addresses(score.slices@)[score.slice_indices@[clef_slice_address as int] as int]
            == clef_slice_address);
    }
    let clef_slice_index = score.slice_indices[clef_slice_address];
    let (slice_index, existing) = header_slice_position(score, clef_slice_index, offset_from_clef, &header_object);
    let slice_address = if existing {
        score.slices[slice_index].address
    } else {
        insert_slice(score, slice_index, None)
    };
    let ghost before_insert = *score;
    let address = insert_slice_object(
        slice_addresses_to_respace,
        score,
        staff_index,
        Object {
            object_type: header_object,
            address: 0,
            slice_address: Some(slice_address),
            distance_to_next_slice: 0,
            is_selected: false,
            is_valid_cursor_position: false,
        },
        object_index,
        slice_index,
    );
    proof {
        assert(score.staves@[s].objects@ == before_insert.staves@[s].objects@.insert(
            object_index as int,
            crate::staff::with_address(header_object_at(header_object, slice_address), address),
        ));
    }
    object_index
}

} // verus!
