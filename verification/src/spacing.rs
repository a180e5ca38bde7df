use vstd::prelude::*;
use crate::rhythm::{divides, rat_eq, rat_lt, ratio_sub, two_to, WholeNotes};
use crate::staff::{
    same_alignment, same_staff_settings, set_distance_to_next_slice, with_distance, Object, Staff, SystemAddress,
};
use crate::system::{lemma_staff_change_keeps_score_wf, position_wf, slice_addresses, slice_has_entry, Score, Slice};

verus! {

/// The horizontal room that the objects of one staff take, as measured by
/// the caller from the fonts in use.
pub struct StaffSpacing {
    /// `widths[k]`: the room that object `k` takes before object `k + 1`.
    pub widths: Vec<i32>,
    /// `origin_offsets[k]`: the distance from the origin of object `k` to
    /// the slice it stands at.
    pub origin_offsets: Vec<i32>,
    /// The room before the first object of the staff.
    pub leading_space: i32,
}

/// A position or distance of the layout left the `i32` range.
#[derive(Clone, Copy, PartialEq, Eq, Structural, Debug)]
pub struct LayoutOverflow;

/// The value lies in the `i32` range.
pub open spec fn fits_i32(x: int) -> bool {
    i32::MIN <= x <= i32::MAX
}

/// The distances of the slices from their predecessors.
pub open spec fn slice_distances(slices: Seq<Slice>) -> Seq<i32> {
    Seq::new(slices.len(), |i: int| slices[i].distance_from_previous_slice)
}

/// `start` less `values[from]`, then less `values[from + 1]`, and so on up
/// to `values[to - 1]`, one step at a time in `i32` arithmetic: the result,
/// or `None` when a step leaves the range.
pub open spec fn subtract_chain(start: int, values: Seq<i32>, from: int, to: int) -> Option<int>
    decreases to - from,
{
    if from >= to {
        Some(start)
    } else if !fits_i32(start - values[from]) {
        None
    } else {
        subtract_chain(start - values[from], values, from + 1, to)
    }
}

/// The room from an object of a staff back to the previous object aligned
/// to a slice, measured from the slice at `slice_index`: walking back from
/// object `c` with `room` so far, each object adds its width; at the first
/// aligned object its origin offset and the distances of the slices between
/// its slice and `slice_index` come off; before the first object the leading
/// space comes on. `None` when a step leaves the `i32` range.
pub open spec fn walk_room(
    objects: Seq<Object>,
    spacing: StaffSpacing,
    distances: Seq<i32>,
    slice_indices: Seq<usize>,
    slice_index: int,
    c: int,
    room: int,
) -> Option<int>
    decreases c,
{
    if c <= 0 {
        if fits_i32(room + spacing.leading_space) {
            Some(room + spacing.leading_space)
        } else {
            None
        }
    } else {
        let widened = room + spacing.widths@[c - 1];
        if !fits_i32(widened) {
            None
        } else {
            match objects[c - 1].slice_address {
                Some(address) => {
                    let offset = widened - spacing.origin_offsets@[c - 1];
                    if !fits_i32(offset) {
                        None
                    } else {
                        subtract_chain(offset, distances, slice_indices[address as int] + 1, slice_index)
                    }
                },
                None => walk_room(objects, spacing, distances, slice_indices, slice_index, c - 1, widened),
            }
        }
    }
}

/// The room that the object at `object_index` of a staff needs between its
/// slice (at `slice_index`) and the previous slice.
pub open spec fn object_room(
    objects: Seq<Object>,
    spacing: StaffSpacing,
    distances: Seq<i32>,
    slice_indices: Seq<usize>,
    slice_index: int,
    object_index: int,
) -> Option<int> {
    walk_room(
        objects,
        spacing,
        distances,
        slice_indices,
        slice_index,
        object_index,
        spacing.origin_offsets@[object_index] as int,
    )
}

/// The lengths of each staff's spacing match its objects.
pub open spec fn spacing_wf(staves: Seq<Staff>, spacing: Seq<StaffSpacing>) -> bool {
    &&& spacing.len() == staves.len()
    &&& forall|t: int|
        0 <= t < staves.len() ==> {
            &&& (#[trigger] spacing[t]).widths.len() == staves[t].objects.len()
            &&& spacing[t].origin_offsets.len() == staves[t].objects.len()
        }
}

/// Every aligned object of the list names a live slice address.
pub open spec fn alignments_live(objects: Seq<Object>, slice_indices: Seq<usize>, slice_count: int) -> bool {
    forall|k: int|
        0 <= k < objects.len() && (#[trigger] objects[k]).slice_address is Some ==> {
            &&& objects[k].slice_address->0 < slice_indices.len()
            &&& slice_indices[objects[k].slice_address->0 as int] < slice_count
        }
}

/// `start` less the distances of slices `from` up to `to - 1`, or `None`
/// when a step leaves the `i32` range.
fn subtract_distances(start: i32, slices: &Vec<Slice>, from: usize, to: usize) -> (result: Option<i32>)
    requires
        to <= slices.len(),
    ensures
        match result {
            Some(v) => subtract_chain(start as int, slice_distances(slices@), from as int, to as int) == Some(v as int),
            None => subtract_chain(start as int, slice_distances(slices@), from as int, to as int) is None,
        },
{
    let ghost distances = slice_distances(slices@);
    let mut value = start;
    let mut index = from;
    while index < to
        invariant
            to <= slices.len(),
            distances == slice_distances(slices@),
            subtract_chain(start as int, distances, from as int, to as int) == subtract_chain(
                value as int,
                distances,
                index as int,
                to as int,
            ),
        decreases to - index,
    {
        let distance = slices[index].distance_from_previous_slice;
        if distance > 0 && value < i32::MIN + distance || distance < 0 && value > i32::MAX + distance {
            return None;
        }
        value = value - distance;
        index = index + 1;
    }
    Some(value)
}

/// The room that the object at `object_index` of a staff needs between its
/// slice (at `slice_index`) and the previous slice, or `None` when the
/// reckoning leaves the `i32` range.
fn object_room_of(
    staff: &Staff,
    spacing: &StaffSpacing,
    slices: &Vec<Slice>,
    slice_indices: &Vec<usize>,
    slice_index: usize,
    object_index: usize,
) -> (result: Option<i32>)
    requires
        object_index < staff.objects.len(),
        slice_index <= slices.len(),
        spacing.widths.len() == staff.objects.len(),
        spacing.origin_offsets.len() == staff.objects.len(),
        alignments_live(staff.objects@, slice_indices@, slices.len() as int),
    ensures
        match result {
            Some(v) => object_room(
                staff.objects@,
                *spacing,
                slice_distances(slices@),
                slice_indices@,
                slice_index as int,
                object_index as int,
            ) == Some(v as int),
            None => object_room(
                staff.objects@,
                *spacing,
                slice_distances(slices@),
                slice_indices@,
                slice_index as int,
                object_index as int,
            ) is None,
        },
{
    let ghost distances = slice_distances(slices@);
    let ghost total = object_room(staff.objects@, *spacing, distances, slice_indices@, slice_index as int, object_index as int);
    let mut room: i32 = spacing.origin_offsets[object_index];
    let mut index = object_index;
    loop
        invariant
            index <= object_index < staff.objects.len(),
            slice_index <= slices.len(),
            spacing.widths.len() == staff.objects.len(),
            spacing.origin_offsets.len() == staff.objects.len(),
            alignments_live(staff.objects@, slice_indices@, slices.len() as int),
            distances == slice_distances(slices@),
            total == object_room(staff.objects@, *spacing, distances, slice_indices@, slice_index as int, object_index as int),
            total == walk_room(staff.objects@, *spacing, distances, slice_indices@, slice_index as int, index as int, room as int),
        decreases index,
    {
        if index == 0 {
            let lead = spacing.leading_space;
            if lead > 0 && room > i32::MAX - lead || lead < 0 && room < i32::MIN - lead {
                return None;
            }
            return Some(room + lead);
        }
        let width = spacing.widths[index - 1];
        if width > 0 && room > i32::MAX - width || width < 0 && room < i32::MIN - width {
            return None;
        }
        room = room + width;
        index = index - 1;
        match staff.objects[index].slice_address {
            Some(address) => {
                let offset = spacing.origin_offsets[index];
                if offset > 0 && room < i32::MIN + offset || offset < 0 && room > i32::MAX + offset {
                    return None;
                }
                proof {
                    assert(staff.objects@[index as int].slice_address is Some);
                }
                let first = slice_indices[address] + 1;
                return subtract_distances(room - offset, slices, first, slice_index);
            },
            None => {},
        }
    }
}

/// The room that the object named by a slice entry needs.
pub open spec fn entry_room(
    staves: Seq<Staff>,
    spacing: Seq<StaffSpacing>,
    distances: Seq<i32>,
    slice_indices: Seq<usize>,
    slice_index: int,
    entry: SystemAddress,
) -> Option<int> {
    let t = entry.staff_index as int;
    object_room(
        staves[t].objects@,
        spacing[t],
        distances,
        slice_indices,
        slice_index,
        staves[t].object_indices@[entry.object_address as int] as int,
    )
}

/// The largest of `floor` and the rooms that the objects named by the
/// entries need, or `None` when one of them leaves the `i32` range.
pub open spec fn widest_room(
    staves: Seq<Staff>,
    spacing: Seq<StaffSpacing>,
    distances: Seq<i32>,
    slice_indices: Seq<usize>,
    slice_index: int,
    entries: Seq<SystemAddress>,
    floor: int,
) -> Option<int>
    decreases entries.len(),
{
    if entries.len() == 0 {
        Some(floor)
    } else {
        match widest_room(staves, spacing, distances, slice_indices, slice_index, entries.drop_last(), floor) {
            None => None,
            Some(widest) => match entry_room(staves, spacing, distances, slice_indices, slice_index, entries.last()) {
                None => None,
                Some(room) => Some(if room > widest { room } else { widest }),
            },
        }
    }
}

/// The room a slice needs is never less than the floor from the rhythm.
pub proof fn lemma_widest_room_floor(
    staves: Seq<Staff>,
    spacing: Seq<StaffSpacing>,
    distances: Seq<i32>,
    slice_indices: Seq<usize>,
    slice_index: int,
    entries: Seq<SystemAddress>,
    floor: int,
)
    ensures
        widest_room(staves, spacing, distances, slice_indices, slice_index, entries, floor) matches Some(room) ==> room
            >= floor,
    decreases entries.len(),
{
    if entries.len() > 0 {
        lemma_widest_room_floor(staves, spacing, distances, slice_indices, slice_index, entries.drop_last(), floor);
    }
}

/// The distance that the slice at `slice_index` of the score needs from the
/// previous slice, given `floor` from the rhythm.
pub open spec fn slice_room(score: Score, spacing: Seq<StaffSpacing>, slice_index: int, floor: int) -> Option<int> {
    widest_room(
        score.staves@,
        spacing,
        slice_distances(score.slices@),
        score.slice_indices@,
        slice_index,
        score.slices@[slice_index].object_addresses@,
        floor,
    )
}

/// In a sound score every aligned object names a live slice.
pub proof fn lemma_alignments_live(score: Score, t: int)
    requires
        score.wf(),
        0 <= t < score.staves.len(),
    ensures
        alignments_live(score.staves@[t].objects@, score.slice_indices@, score.slices.len() as int),
{
    assert forall|k: int|
        0 <= k < score.staves@[t].objects.len() && (#[trigger] score.staves@[t].objects@[k]).slice_address is Some implies {
            &&& score.staves@[t].objects@[k].slice_address->0 < score.slice_indices.len()
            &&& score.slice_indices@[score.staves@[t].objects@[k].slice_address->0 as int] < score.slices.len()
        } by {
        let a = score.staves@[t].objects@[k].slice_address->0 as int;
        assert(score.slice_live(a));
    }
}

/// The distance that the slice at `slice_index` needs from the previous
/// slice: the largest of `floor` and the rooms its objects need, or `None`
/// when the reckoning leaves the `i32` range.
fn room_of_slice(score: &Score, spacing: &Vec<StaffSpacing>, slice_index: usize, floor: i32) -> (result: Option<i32>)
    requires
        score.wf(),
        spacing_wf(score.staves@, spacing@),
        slice_index < score.slices.len(),
    ensures
        match result {
            Some(v) => slice_room(*score, spacing@, slice_index as int, floor as int) == Some(v as int),
            None => slice_room(*score, spacing@, slice_index as int, floor as int) is None,
        },
{
    let ghost distances = slice_distances(score.slices@);
    let ghost entries = score.slices@[slice_index as int].object_addresses@;
    let slice = &score.slices[slice_index];
    let mut widest = floor;
    let mut e: usize = 0;
    while e < slice.object_addresses.len()
        invariant
            score.wf(),
            spacing_wf(score.staves@, spacing@),
            slice_index < score.slices.len(),
            *slice == score.slices@[slice_index as int],
            entries == slice.object_addresses@,
            distances == slice_distances(score.slices@),
            e <= entries.len(),
            widest_room(score.staves@, spacing@, distances, score.slice_indices@, slice_index as int, entries.take(e as int), floor as int)
                == Some(widest as int),
        decreases entries.len() - e,
    {
        let entry = slice.object_addresses[e];
        proof {
            assert(score.entry_wf(slice_index as int, entry));
            lemma_alignments_live(*score, entry.staff_index as int);
            assert(entries.take(e as int + 1).drop_last() =~= entries.take(e as int));
            assert(entries.take(e as int + 1).last() == entry);
        }
        let staff = &score.staves[entry.staff_index];
        let object_index = staff.object_indices[entry.object_address];
        let room = object_room_of(
            staff,
            &spacing[entry.staff_index],
            &score.slices,
            &score.slice_indices,
            slice_index,
            object_index,
        );
        match room {
            None => {
                proof {
                    assert(widest_room(score.staves@, spacing@, distances, score.slice_indices@, slice_index as int,
                        entries.take(e as int + 1), floor as int) is None);
                    lemma_widest_none_stays(score.staves@, spacing@, distances, score.slice_indices@, slice_index as int,
                        entries, e as int + 1, floor as int);
                    assert(entries.take(entries.len() as int) =~= entries);
                }
                return None;
            },
            Some(room) => {
                if room > widest {
                    widest = room;
                }
            },
        }
        e = e + 1;
    }
    proof {
        assert(entries.take(entries.len() as int) =~= entries);
    }
    Some(widest)
}

/// Once a prefix of the entries leaves the `i32` range, every longer prefix
/// does too.
proof fn lemma_widest_none_stays(
    staves: Seq<Staff>,
    spacing: Seq<StaffSpacing>,
    distances: Seq<i32>,
    slice_indices: Seq<usize>,
    slice_index: int,
    entries: Seq<SystemAddress>,
    n: int,
    floor: int,
)
    requires
        0 <= n <= entries.len(),
        widest_room(staves, spacing, distances, slice_indices, slice_index, entries.take(n), floor) is None,
    ensures
        widest_room(staves, spacing, distances, slice_indices, slice_index, entries, floor) is None,
    decreases entries.len() - n,
{
    if n < entries.len() {
        assert(entries.take(n + 1).drop_last() =~= entries.take(n));
        lemma_widest_none_stays(staves, spacing, distances, slice_indices, slice_index, entries, n + 1, floor);
    } else {
        assert(entries.take(n) =~= entries);
    }
}

/// The first object at or after `c` that is aligned to a slice, or the
/// length of the list when there is none.
pub open spec fn next_aligned(objects: Seq<Object>, c: int) -> int
    decreases objects.len() - c,
{
    if c >= objects.len() {
        objects.len() as int
    } else if objects[c].slice_address is Some {
        c
    } else {
        next_aligned(objects, c + 1)
    }
}

/// The sum of `widths[from]` up to `widths[to - 1]`.
pub open spec fn width_sum(widths: Seq<i32>, from: int, to: int) -> int
    decreases to - from,
{
    if from >= to {
        0
    } else {
        widths[from] + width_sum(widths, from + 1, to)
    }
}

/// The distance from object `c` to the slice of the next aligned object:
/// that object's origin offset and the widths of the objects in between.
pub open spec fn room_distance(objects: Seq<Object>, spacing: StaffSpacing, c: int) -> int {
    let k = next_aligned(objects, c);
    spacing.origin_offsets@[k] + width_sum(spacing.widths@, c, k)
}

/// The next aligned object lies at or after `c`, and at or before any
/// aligned object at or after `c`.
pub proof fn lemma_next_aligned(objects: Seq<Object>, c: int, j: int)
    requires
        0 <= c <= objects.len(),
    ensures
        c <= next_aligned(objects, c) <= objects.len(),
        c <= j < objects.len() && objects[j].slice_address is Some ==> next_aligned(objects, c) <= j,
        next_aligned(objects, c) < objects.len() ==> objects[next_aligned(objects, c)].slice_address is Some,
    decreases objects.len() - c,
{
    if c < objects.len() && objects[c].slice_address is None {
        lemma_next_aligned(objects, c + 1, j);
    }
}

/// Set the distance to the next slice of the object at `object_index`,
/// which is aligned to a slice, and of each object back to the previous
/// aligned one, from the spacing. The reckoning stays in the `i32` range
/// because the room of the object does.
fn set_room_distances(
    staff: &mut Staff,
    spacing: &StaffSpacing,
    object_index: usize,
    Ghost(distances): Ghost<Seq<i32>>,
    Ghost(slice_indices): Ghost<Seq<usize>>,
    Ghost(slice_index): Ghost<int>,
)
    requires
        old(staff).wf(),
        object_index < old(staff).objects.len(),
        old(staff).objects@[object_index as int].slice_address is Some,
        spacing.widths.len() == old(staff).objects.len(),
        spacing.origin_offsets.len() == old(staff).objects.len(),
        object_room(old(staff).objects@, *spacing, distances, slice_indices, slice_index, object_index as int) is Some,
    ensures
        final(staff).wf(),
        final(staff).objects.len() == old(staff).objects.len(),
        forall|c: int|
            0 <= c < old(staff).objects.len() ==> #[trigger] final(staff).objects@[c] == if next_aligned(
                old(staff).objects@,
                c,
            ) == object_index {
                with_distance(old(staff).objects@[c], room_distance(old(staff).objects@, *spacing, c) as i32)
            } else {
                old(staff).objects@[c]
            },
        same_alignment(*old(staff), *final(staff)),
        same_staff_settings(final(staff), old(staff)),
        final(staff).object_indices@ == old(staff).object_indices@,
        final(staff).object_address_free_list@ == old(staff).object_address_free_list@,
{
    let ghost before = *staff;
    let ghost objects = before.objects@;
    let ghost k0 = object_index as int;
    let mut room: i32 = spacing.origin_offsets[object_index];
    proof {
        lemma_next_aligned(objects, k0, k0);
    }
    set_distance_to_next_slice(staff, object_index, room);
    let mut index = object_index;
    loop
        invariant
            0 <= index <= object_index < objects.len(),
            objects == before.objects@,
            staff.wf(),
            staff.objects.len() == objects.len(),
            spacing.widths.len() == objects.len(),
            spacing.origin_offsets.len() == objects.len(),
            objects[k0].slice_address is Some,
            k0 == object_index,
            walk_room(objects, *spacing, distances, slice_indices, slice_index, index as int, room as int) is Some,
            room == spacing.origin_offsets@[k0] + width_sum(spacing.widths@, index as int, k0),
            forall|c: int| index <= c <= k0 ==> next_aligned(objects, c) == k0,
            forall|c: int|
                0 <= c < objects.len() ==> #[trigger] staff.objects@[c] == if index <= c <= k0 {
                    with_distance(objects[c], room_distance(objects, *spacing, c) as i32)
                } else {
                    objects[c]
                },
            same_alignment(before, *staff),
            same_staff_settings(staff, &before),
            staff.object_indices@ == before.object_indices@,
            staff.object_address_free_list@ == before.object_address_free_list@,
        ensures
            0 <= index <= object_index,
            index == 0 || objects[index - 1].slice_address is Some,
            staff.wf(),
            staff.objects.len() == objects.len(),
            forall|c: int| index <= c <= k0 ==> next_aligned(objects, c) == k0,
            forall|c: int|
                0 <= c < objects.len() ==> #[trigger] staff.objects@[c] == if index <= c <= k0 {
                    with_distance(objects[c], room_distance(objects, *spacing, c) as i32)
                } else {
                    objects[c]
                },
            same_alignment(before, *staff),
            same_staff_settings(staff, &before),
            staff.object_indices@ == before.object_indices@,
            staff.object_address_free_list@ == before.object_address_free_list@,
        decreases index,
    {
        if index == 0 {
            break;
        }
        if staff.objects[index - 1].slice_address.is_some() {
            break;
        }
        let width = spacing.widths[index - 1];
        room = room + width;
        index = index - 1;
        let ghost mid = *staff;
        proof {
            assert(staff.objects@[index as int] == objects[index as int]);
            assert(next_aligned(objects, index as int) == next_aligned(objects, index as int + 1));
        }
        set_distance_to_next_slice(staff, index, room);
        proof {
            assert forall|c: int| 0 <= c < objects.len() implies #[trigger] staff.objects@[c] == if index <= c <= k0 {
                with_distance(objects[c], room_distance(objects, *spacing, c) as i32)
            } else {
                objects[c]
            } by {
                if c == index as int {
                    assert(room_distance(objects, *spacing, c) == room as int);
                } else {
                    assert(staff.objects@[c] == mid.objects@[c]);
                }
            }
            assert(same_alignment(before, *staff)) by {
                assert forall|a: int|
                    crate::staff::object_live(*staff, a) && (#[trigger] crate::staff::object_at(*staff, a)).slice_address is Some
                    implies crate::staff::object_live(before, a)
                    && crate::staff::object_at(before, a).slice_address == crate::staff::object_at(*staff, a).slice_address by {
                    assert(crate::staff::object_live(mid, a));
                }
                assert forall|a: int|
                    crate::staff::object_live(before, a) && (#[trigger] crate::staff::object_at(before, a)).slice_address is Some
                    implies crate::staff::object_live(*staff, a)
                    && crate::staff::object_at(*staff, a).slice_address == crate::staff::object_at(before, a).slice_address by {
                    assert(crate::staff::object_live(mid, a));
                }
            }
        }
    }
    proof {
        assert forall|c: int| 0 <= c < objects.len() implies #[trigger] staff.objects@[c] == if next_aligned(objects, c) == k0 {
            with_distance(objects[c], room_distance(objects, *spacing, c) as i32)
        } else {
            objects[c]
        } by {
            lemma_next_aligned(objects, c, index as int - 1);
        }
    }
}

/// The index of the slice of the next aligned object at or after `c`, or
/// -1 when there is none.
pub open spec fn aligned_slice_index(objects: Seq<Object>, slice_indices: Seq<usize>, c: int) -> int {
    let k = next_aligned(objects, c);
    if k < objects.len() {
        slice_indices[objects[k].slice_address->0 as int] as int
    } else {
        -1
    }
}

/// The slice with another distance from the previous slice.
pub open spec fn with_slice_distance(slice: Slice, distance: i32) -> Slice {
    Slice {
        address: slice.address,
        object_addresses: slice.object_addresses,
        rhythmic_position: slice.rhythmic_position,
        distance_from_previous_slice: distance,
    }
}

/// The two lists align the same positions.
pub open spec fn same_slice_addresses(a: Seq<Object>, b: Seq<Object>) -> bool {
    a.len() == b.len() && forall|c: int| 0 <= c < a.len() ==> (#[trigger] a[c]).slice_address == b[c].slice_address
}

/// The walk back from an object reads only which objects are aligned.
pub proof fn lemma_walk_reads_alignment(
    a: Seq<Object>,
    b: Seq<Object>,
    spacing: StaffSpacing,
    distances: Seq<i32>,
    slice_indices: Seq<usize>,
    slice_index: int,
    c: int,
    room: int,
)
    requires
        same_slice_addresses(a, b),
        c <= a.len(),
    ensures
        walk_room(a, spacing, distances, slice_indices, slice_index, c, room)
            == walk_room(b, spacing, distances, slice_indices, slice_index, c, room),
    decreases c,
{
    if c > 0 {
        assert(a[c - 1].slice_address == b[c - 1].slice_address);
        lemma_walk_reads_alignment(a, b, spacing, distances, slice_indices, slice_index, c - 1, room + spacing.widths@[c - 1]);
    }
}

/// The next aligned object depends only on which objects are aligned.
pub proof fn lemma_next_aligned_reads_alignment(a: Seq<Object>, b: Seq<Object>, c: int)
    requires
        same_slice_addresses(a, b),
        0 <= c,
    ensures
        next_aligned(a, c) == next_aligned(b, c),
    decreases a.len() - c,
{
    if c < a.len() {
        assert(a[c].slice_address == b[c].slice_address);
        lemma_next_aligned_reads_alignment(a, b, c + 1);
    }
}

/// When the widest room of the entries is in range, so is the room of each.
pub proof fn lemma_widest_some(
    staves: Seq<Staff>,
    spacing: Seq<StaffSpacing>,
    distances: Seq<i32>,
    slice_indices: Seq<usize>,
    slice_index: int,
    entries: Seq<SystemAddress>,
    floor: int,
    f: int,
)
    requires
        widest_room(staves, spacing, distances, slice_indices, slice_index, entries, floor) is Some,
        0 <= f < entries.len(),
    ensures
        entry_room(staves, spacing, distances, slice_indices, slice_index, entries[f]) is Some,
    decreases entries.len(),
{
    if f < entries.len() - 1 {
        assert(entries.drop_last()[f] == entries[f]);
        lemma_widest_some(staves, spacing, distances, slice_indices, slice_index, entries.drop_last(), floor, f);
    }
}

/// The entries' rooms do not change when the staves change only in what
/// other than alignment.
pub proof fn lemma_widest_reads_alignment(
    a: Seq<Staff>,
    b: Seq<Staff>,
    spacing: Seq<StaffSpacing>,
    distances: Seq<i32>,
    slice_indices: Seq<usize>,
    slice_index: int,
    entries: Seq<SystemAddress>,
    floor: int,
)
    requires
        a.len() == b.len(),
        forall|t: int| 0 <= t < a.len() ==> same_slice_addresses(#[trigger] a[t].objects@, b[t].objects@),
        forall|t: int| 0 <= t < a.len() ==> (#[trigger] a[t]).object_indices@ == b[t].object_indices@,
        forall|f: int| 0 <= f < entries.len() ==> {
            &&& (#[trigger] entries[f]).staff_index < a.len()
            &&& entries[f].object_address < a[entries[f].staff_index as int].object_indices.len()
            &&& a[entries[f].staff_index as int].object_indices@[entries[f].object_address as int]
                < a[entries[f].staff_index as int].objects.len()
        },
    ensures
        widest_room(a, spacing, distances, slice_indices, slice_index, entries, floor)
            == widest_room(b, spacing, distances, slice_indices, slice_index, entries, floor),
    decreases entries.len(),
{
    if entries.len() > 0 {
        let rest = entries.drop_last();
        assert forall|f: int| 0 <= f < rest.len() implies {
            &&& (#[trigger] rest[f]).staff_index < a.len()
            &&& rest[f].object_address < a[rest[f].staff_index as int].object_indices.len()
            &&& a[rest[f].staff_index as int].object_indices@[rest[f].object_address as int]
                < a[rest[f].staff_index as int].objects.len()
        } by {
            assert(rest[f] == entries[f]);
        }
        lemma_widest_reads_alignment(a, b, spacing, distances, slice_indices, slice_index, rest, floor);
        let entry = entries.last();
        assert(entries[entries.len() - 1] == entry);
        let t = entry.staff_index as int;
        assert(same_slice_addresses(a[t].objects@, b[t].objects@));
        lemma_walk_reads_alignment(
            a[t].objects@,
            b[t].objects@,
            spacing[t],
            distances,
            slice_indices,
            slice_index,
            a[t].object_indices@[entry.object_address as int] as int,
            spacing[t].origin_offsets@[a[t].object_indices@[entry.object_address as int] as int] as int,
        );
    }
}

/// Changing the distance of one slice from its predecessor keeps the score
/// sound.
pub proof fn lemma_slice_distance_keeps_wf(old_score: Score, new_score: Score, slice_index: int, distance: i32)
    requires
        old_score.wf(),
        0 <= slice_index < old_score.slices.len(),
        new_score.slices@ == old_score.slices@.update(
            slice_index,
            with_slice_distance(old_score.slices@[slice_index], distance),
        ),
        new_score.staves@ == old_score.staves@,
        new_score.slice_indices@ == old_score.slice_indices@,
        new_score.slice_address_free_list@ == old_score.slice_address_free_list@,
    ensures
        new_score.wf(),
{
    assert(slice_addresses(new_score.slices@) =~= slice_addresses(old_score.slices@));
    assert forall|a: int| #[trigger] new_score.slice_live(a) == old_score.slice_live(a) by {}
    assert forall|a: int| old_score.slice_live(a) implies (#[trigger] new_score.slice_of(a)).object_addresses@
        == old_score.slice_of(a).object_addresses@ by {}
    assert forall|t: int, i: int|
        0 <= t < new_score.staves.len() && 0 <= i < new_score.staves@[t].objects.len()
            && (#[trigger] new_score.staves@[t].objects@[i]).slice_address is Some implies {
            let a = new_score.staves@[t].objects@[i].slice_address->0 as int;
            &&& new_score.slice_live(a)
            &&& slice_has_entry(new_score.slice_of(a), t, new_score.staves@[t].objects@[i].address as int)
        } by {
        let a = old_score.staves@[t].objects@[i].slice_address->0 as int;
        assert(old_score.slice_live(a));
        assert(slice_has_entry(old_score.slice_of(a), t, old_score.staves@[t].objects@[i].address as int));
        let e = choose|e: int| 0 <= e < old_score.slice_of(a).object_addresses.len() && #[trigger] old_score.slice_of(a).object_addresses@[e]
            == (SystemAddress { staff_index: t as usize, object_address: old_score.staves@[t].objects@[i].address });
        assert(new_score.slice_of(a).object_addresses@[e] == old_score.slice_of(a).object_addresses@[e]);
    }
    assert forall|k: int, e: int|
        0 <= k < new_score.slices.len() && 0 <= e < new_score.slices@[k].object_addresses.len() implies new_score.entry_wf(
            k,
            #[trigger] new_score.slices@[k].object_addresses@[e],
        ) by {
        assert(old_score.entry_wf(k, old_score.slices@[k].object_addresses@[e]));
    }
    assert forall|k: int, e: int, f: int|
        0 <= k < new_score.slices.len() && 0 <= e < f < new_score.slices@[k].object_addresses.len()
            implies #[trigger] new_score.slices@[k].object_addresses@[e] != #[trigger] new_score.slices@[k].object_addresses@[f] by {
        assert(old_score.slices@[k].object_addresses@[e] != old_score.slices@[k].object_addresses@[f]);
    }
    assert forall|k: int|
        0 <= k < new_score.slices.len() && (#[trigger] new_score.slices@[k]).rhythmic_position is Some
            implies crate::system::position_wf(new_score.slices@[k].rhythmic_position->0) by {
        assert(old_score.slices@[k].rhythmic_position == new_score.slices@[k].rhythmic_position);
    }
}

/// The object that entry `e` of a slice names is aligned to that slice,
/// and no other entry of the slice names the object at the same position.
proof fn lemma_entry_object(score: Score, slice_index: int, e: int)
    requires
        score.wf(),
        0 <= slice_index < score.slices.len(),
        0 <= e < score.slices@[slice_index].object_addresses.len(),
    ensures
        ({
            let entry = score.slices@[slice_index].object_addresses@[e];
            let staff = score.staves@[entry.staff_index as int];
            let k = staff.object_indices@[entry.object_address as int] as int;
            &&& entry.staff_index < score.staves.len()
            &&& entry.object_address < staff.object_indices.len()
            &&& 0 <= k < staff.objects.len()
            &&& staff.objects@[k].address == entry.object_address
            &&& staff.objects@[k].slice_address == Some(score.slices@[slice_index].address)
            &&& score.slice_indices@[score.slices@[slice_index].address as int] == slice_index
        }),
{
    let entry = score.slices@[slice_index].object_addresses@[e];
    assert(score.entry_wf(slice_index, entry));
    assert(slice_addresses(score.slices@)[slice_index] == score.slices@[slice_index].address);
}

/// Every object of a sound score whose next aligned object stands at slice
/// `slice_index` has that object named by an entry of the slice.
proof fn lemma_aligned_object_entry(score: Score, slice_index: int, t: int, c: int)
    requires
        score.wf(),
        0 <= slice_index < score.slices.len(),
        0 <= t < score.staves.len(),
        0 <= c < score.staves@[t].objects.len(),
        aligned_slice_index(score.staves@[t].objects@, score.slice_indices@, c) == slice_index,
    ensures
        exists|f: int|
            0 <= f < score.slices@[slice_index].object_addresses.len() && #[trigger] score.slices@[slice_index].object_addresses@[f]
                == (SystemAddress {
                staff_index: t as usize,
                object_address: score.staves@[t].objects@[next_aligned(score.staves@[t].objects@, c)].address,
            }),
{
    let objects = score.staves@[t].objects@;
    lemma_next_aligned(objects, c, c);
    let k = next_aligned(objects, c);
    assert(objects[k].slice_address is Some);
    let a = objects[k].slice_address->0 as int;
    assert(score.slice_live(a));
    assert(score.slice_of(a) == score.slices@[slice_index]);
    assert(slice_has_entry(score.slice_of(a), t, objects[k].address as int));
}

/// Reset the distance of the slice at `slice_index` from the previous slice,
/// and the distances to it of the objects that lead up to it: an object
/// aligned to the slice stands its origin offset from it, and each object
/// back to the previous aligned one adds its width. The slice stands as far
/// from the previous slice as the largest of `floor` (what its rhythmic
/// position asks for) and the rooms its objects need. Returns
/// `Err(LayoutOverflow)`, and changes nothing, when that reckoning leaves
/// the `i32` range.
pub fn reset_distance_from_previous_slice(
    score: &mut Score,
    slice_index: usize,
    floor: i32,
    spacing: &Vec<StaffSpacing>,
) -> (result: Result<(), LayoutOverflow>)
    requires
        old(score).wf(),
        spacing_wf(old(score).staves@, spacing@),
        slice_index < old(score).slices.len(),
        floor >= 0,
    ensures
        final(score).wf(),
        result is Ok <==> slice_room(*old(score), spacing@, slice_index as int, floor as int) is Some,
        result is Ok ==> final(score).slices@[slice_index as int].distance_from_previous_slice >= floor,
        final(score).slice_indices@ == old(score).slice_indices@,
        final(score).slice_address_free_list@ == old(score).slice_address_free_list@,
        final(score).ghost_cursor == old(score).ghost_cursor,
        final(score).slices@ == if result is Ok {
            old(score).slices@.update(
                slice_index as int,
                with_slice_distance(
                    old(score).slices@[slice_index as int],
                    slice_room(*old(score), spacing@, slice_index as int, floor as int)->0 as i32,
                ),
            )
        } else {
            old(score).slices@
        },
        final(score).staves.len() == old(score).staves.len(),
        forall|t: int|
            0 <= t < old(score).staves.len() ==> {
                &&& (#[trigger] final(score).staves@[t]).object_indices@ == old(score).staves@[t].object_indices@
                &&& final(score).staves@[t].object_address_free_list@ == old(score).staves@[t].object_address_free_list@
                &&& same_staff_settings(&final(score).staves@[t], &old(score).staves@[t])
                &&& final(score).staves@[t].objects.len() == old(score).staves@[t].objects.len()
            },
        forall|t: int, c: int|
            0 <= t < old(score).staves.len() && 0 <= c < old(score).staves@[t].objects.len()
                ==> #[trigger] final(score).staves@[t].objects@[c] == if result is Ok && aligned_slice_index(
                old(score).staves@[t].objects@,
                old(score).slice_indices@,
                c,
            ) == slice_index {
                with_distance(
                    old(score).staves@[t].objects@[c],
                    room_distance(old(score).staves@[t].objects@, spacing@[t], c) as i32,
                )
            } else {
                old(score).staves@[t].objects@[c]
            },
{
    proof {
        lemma_widest_room_floor(
            score.staves@,
            spacing@,
            slice_distances(score.slices@),
            score.slice_indices@,
            slice_index as int,
            score.slices@[slice_index as int].object_addresses@,
            floor as int,
        );
    }
    let width = match room_of_slice(score, spacing, slice_index, floor) {
        None => {
            return Err(LayoutOverflow);
        },
        Some(width) => width,
    };
    let ghost before = *score;
    let ghost s = slice_index as int;
    let ghost entries = before.slices@[s].object_addresses@;
    let ghost distances = slice_distances(before.slices@);
    let count = score.slices[slice_index].object_addresses.len();
    let mut e: usize = 0;
    while e < count
        invariant
            e <= count == entries.len(),
            0 <= s < before.slices.len(),
            s == slice_index,
            before.wf(),
            score.wf(),
            entries == before.slices@[s].object_addresses@,
            distances == slice_distances(before.slices@),
            spacing_wf(before.staves@, spacing@),
            slice_room(before, spacing@, s, floor as int) == Some(width as int),
            score.slices@ == before.slices@,
            score.slice_indices@ == before.slice_indices@,
            score.slice_address_free_list@ == before.slice_address_free_list@,
            score.ghost_cursor == before.ghost_cursor,
            score.staves.len() == before.staves.len(),
            forall|t: int|
                0 <= t < before.staves.len() ==> {
                    &&& (#[trigger] score.staves@[t]).object_indices@ == before.staves@[t].object_indices@
                    &&& score.staves@[t].object_address_free_list@ == before.staves@[t].object_address_free_list@
                    &&& same_staff_settings(&score.staves@[t], &before.staves@[t])
                    &&& same_slice_addresses(score.staves@[t].objects@, before.staves@[t].objects@)
                },
            forall|t: int, c: int|
                0 <= t < before.staves.len() && 0 <= c < before.staves@[t].objects.len()
                    ==> #[trigger] score.staves@[t].objects@[c] == if aligned_slice_index(
                    before.staves@[t].objects@,
                    before.slice_indices@,
                    c,
                ) == s && exists|f: int|
                    0 <= f < e && #[trigger] entries[f] == (SystemAddress {
                        staff_index: t as usize,
                        object_address: before.staves@[t].objects@[next_aligned(before.staves@[t].objects@, c)].address,
                    }) {
                    with_distance(
                        before.staves@[t].objects@[c],
                        room_distance(before.staves@[t].objects@, spacing@[t], c) as i32,
                    )
                } else {
                    before.staves@[t].objects@[c]
                },
        decreases count - e,
    {
        let entry = score.slices[slice_index].object_addresses[e];
        let t = entry.staff_index;
        proof {
            lemma_entry_object(before, s, e as int);
        }
        let object_index = score.staves[t].object_indices[entry.object_address];
        let ghost mid = *score;
        let ghost k0 = object_index as int;
        let ghost old_objects = before.staves@[t as int].objects@;
        proof {
            assert(entries[e as int] == entry);
            lemma_widest_some(before.staves@, spacing@, distances, before.slice_indices@, s, entries, floor as int, e as int);
            assert(same_slice_addresses(old_objects, mid.staves@[t as int].objects@)) by {
                assert(same_slice_addresses(mid.staves@[t as int].objects@, old_objects));
            }
            lemma_walk_reads_alignment(
                old_objects,
                mid.staves@[t as int].objects@,
                spacing@[t as int],
                distances,
                before.slice_indices@,
                s,
                k0,
                spacing@[t as int].origin_offsets@[k0] as int,
            );
            assert(mid.staves@[t as int].objects@[k0].slice_address is Some);
            assert(mid.staves@[t as int].wf());
        }
        set_room_distances(
            &mut score.staves[t],
            &spacing[t],
            object_index,
            Ghost(distances),
            Ghost(before.slice_indices@),
            Ghost(s),
        );
        proof {
            lemma_staff_change_keeps_score_wf(mid, *score, t as int);
            let new_objects = score.staves@[t as int].objects@;
            let mid_objects = mid.staves@[t as int].objects@;
            assert(same_slice_addresses(new_objects, old_objects)) by {
                assert forall|c: int| 0 <= c < new_objects.len() implies (#[trigger] new_objects[c]).slice_address
                    == old_objects[c].slice_address by {
                    assert(mid_objects[c].slice_address == old_objects[c].slice_address);
                }
            }
            assert forall|tt: int, c: int|
                0 <= tt < before.staves.len() && 0 <= c < before.staves@[tt].objects.len()
                    implies #[trigger] score.staves@[tt].objects@[c] == if aligned_slice_index(
                    before.staves@[tt].objects@,
                    before.slice_indices@,
                    c,
                ) == s && exists|f: int|
                    0 <= f < e + 1 && #[trigger] entries[f] == (SystemAddress {
                        staff_index: tt as usize,
                        object_address: before.staves@[tt].objects@[next_aligned(before.staves@[tt].objects@, c)].address,
                    }) {
                    with_distance(
                        before.staves@[tt].objects@[c],
                        room_distance(before.staves@[tt].objects@, spacing@[tt], c) as i32,
                    )
                } else {
                    before.staves@[tt].objects@[c]
                } by {
                let objs = before.staves@[tt].objects@;
                let named = SystemAddress {
                    staff_index: tt as usize,
                    object_address: objs[next_aligned(objs, c)].address,
                };
                let earlier = exists|f: int| 0 <= f < e && #[trigger] entries[f] == named;
                let now = exists|f: int| 0 <= f < e + 1 && #[trigger] entries[f] == named;
                if tt != t as int {
                    assert(score.staves@[tt] == mid.staves@[tt]);
                    assert(entries[e as int] != named);
                    assert(earlier == now) by {
                        if now {
                            let f = choose|f: int| 0 <= f < e + 1 && #[trigger] entries[f] == named;
                            assert(f < e);
                        }
                    }
                } else {
                    lemma_next_aligned(objs, c, c);
                    lemma_next_aligned_reads_alignment(objs, mid_objects, c);
                    let k = next_aligned(objs, c);
                    assert(before.staves@[tt].wf());
                    assert(objs.last().slice_address is Some);
                    lemma_next_aligned(objs, c, objs.len() - 1);
                    if k == k0 {
                        assert(entries[e as int] == named);
                        assert(!earlier) by {
                            if earlier {
                                let f = choose|f: int| 0 <= f < e && #[trigger] entries[f] == named;
                                assert(entries[f] != entries[e as int]);
                            }
                        }
                        assert(now);
                        assert(aligned_slice_index(objs, before.slice_indices@, c) == s);
                        assert(mid_objects[c] == objs[c]);
                        assert(room_distance(mid_objects, spacing@[tt], c) == room_distance(objs, spacing@[tt], c));
                    } else {
                        assert(entries[e as int] != named) by {
                            if entries[e as int] == named {
                                assert(crate::staff::object_addresses(objs)[k] == objs[k].address);
                            }
                        }
                        assert(earlier == now) by {
                            if now {
                                let f = choose|f: int| 0 <= f < e + 1 && #[trigger] entries[f] == named;
                                assert(f < e);
                            }
                        }
                    }
                }
            }
            assert forall|tt: int| 0 <= tt < before.staves.len() implies {
                &&& (#[trigger] score.staves@[tt]).object_indices@ == before.staves@[tt].object_indices@
                &&& score.staves@[tt].object_address_free_list@ == before.staves@[tt].object_address_free_list@
                &&& same_staff_settings(&score.staves@[tt], &before.staves@[tt])
                &&& same_slice_addresses(score.staves@[tt].objects@, before.staves@[tt].objects@)
            } by {
                if tt != t as int {
                    assert(score.staves@[tt] == mid.staves@[tt]);
                }
            }
        }
        e = e + 1;
    }
    let ghost mid = *score;
    score.slices[slice_index].distance_from_previous_slice = width;
    proof {
        assert(score.slices@ =~= mid.slices@.update(s, with_slice_distance(mid.slices@[s], width)));
        lemma_slice_distance_keeps_wf(mid, *score, s, width);
        assert forall|t: int, c: int|
            0 <= t < before.staves.len() && 0 <= c < before.staves@[t].objects.len()
                implies #[trigger] score.staves@[t].objects@[c] == if aligned_slice_index(
                before.staves@[t].objects@,
                before.slice_indices@,
                c,
            ) == s {
                with_distance(
                    before.staves@[t].objects@[c],
                    room_distance(before.staves@[t].objects@, spacing@[t], c) as i32,
                )
            } else {
                before.staves@[t].objects@[c]
            } by {
            if aligned_slice_index(before.staves@[t].objects@, before.slice_indices@, c) == s {
                lemma_aligned_object_entry(before, s, t, c);
            }
        }
    }
    Ok(())
}

/// The indices of the slices at the given addresses.
pub open spec fn respace_set(slice_indices: Seq<usize>, addresses: Seq<usize>) -> Set<int> {
    Set::new(|i: int| exists|j: int| 0 <= j < addresses.len() && #[trigger] slice_indices[addresses[j] as int] == i)
}

/// The distances of the first `n` slices of the score after the slices in
/// `marked` are reset in left-to-right order, each from the distances of the
/// slices before it as they then stand; `None` when a reckoning leaves the
/// `i32` range.
pub open spec fn respaced_distances(
    score: Score,
    spacing: Seq<StaffSpacing>,
    marked: Set<int>,
    floors: Seq<i32>,
    n: nat,
) -> Option<Seq<i32>>
    decreases n,
{
    if n == 0 {
        Some(Seq::empty())
    } else {
        match respaced_distances(score, spacing, marked, floors, (n - 1) as nat) {
            None => None,
            Some(prefix) => {
                let i = n - 1;
                if marked.contains(i) {
                    match widest_room(
                        score.staves@,
                        spacing,
                        prefix + slice_distances(score.slices@).skip(i),
                        score.slice_indices@,
                        i,
                        score.slices@[i].object_addresses@,
                        floors[i] as int,
                    ) {
                        None => None,
                        Some(distance) => Some(prefix.push(distance as i32)),
                    }
                } else {
                    Some(prefix.push(score.slices@[i].distance_from_previous_slice))
                }
            },
        }
    }
}

/// The staves keep their objects' alignment, their tables and settings.
pub open spec fn staves_keep_structure(now: Seq<Staff>, before: Seq<Staff>) -> bool {
    &&& now.len() == before.len()
    &&& forall|t: int|
        0 <= t < before.len() ==> {
            &&& (#[trigger] now[t]).object_indices@ == before[t].object_indices@
            &&& now[t].object_address_free_list@ == before[t].object_address_free_list@
            &&& same_staff_settings(&now[t], &before[t])
            &&& same_slice_addresses(now[t].objects@, before[t].objects@)
        }
}

/// The slices differ at most in their distances from their predecessors.
pub open spec fn slices_keep_structure(now: Seq<Slice>, before: Seq<Slice>) -> bool {
    &&& now.len() == before.len()
    &&& forall|k: int| 0 <= k < before.len() ==> #[trigger] now[k] == with_slice_distance(
        before[k],
        now[k].distance_from_previous_slice,
    )
}

/// The object after the slices in `marked` below `bound` are reset: those
/// whose next aligned object stands at such a slice have their room
/// distance, the others are as they were.
pub open spec fn respaced_object(before: Score, spacing: Seq<StaffSpacing>, marked: Set<int>, bound: int, t: int, c: int) -> Object {
    let objects = before.staves@[t].objects@;
    let i = aligned_slice_index(objects, before.slice_indices@, c);
    if i < bound && marked.contains(i) {
        with_distance(objects[c], room_distance(objects, spacing[t], c) as i32)
    } else {
        objects[c]
    }
}

/// Every object of the staves is as after the slices in `marked` below
/// `bound` are reset.
pub open spec fn objects_respaced(now: Seq<Staff>, before: Score, spacing: Seq<StaffSpacing>, marked: Set<int>, bound: int) -> bool {
    forall|t: int, c: int|
        0 <= t < before.staves.len() && 0 <= c < before.staves@[t].objects.len()
            ==> #[trigger] now[t].objects@[c] == respaced_object(before, spacing, marked, bound, t, c)
}

/// The aligned object that every object leads up to stands at a live slice.
proof fn lemma_aligned_slice_index_bounds(score: Score, t: int, c: int)
    requires
        score.wf(),
        0 <= t < score.staves.len(),
        0 <= c < score.staves@[t].objects.len(),
    ensures
        0 <= aligned_slice_index(score.staves@[t].objects@, score.slice_indices@, c) < score.slices.len(),
{
    let objects = score.staves@[t].objects@;
    assert(score.staves@[t].wf());
    lemma_next_aligned(objects, c, objects.len() - 1);
    let k = next_aligned(objects, c);
    let a = objects[k].slice_address->0 as int;
    assert(score.slice_live(a));
}

/// Reading the next aligned object and its room distance through staves
/// that keep their alignment gives what reading the staves before does.
proof fn lemma_room_reads_alignment(before: Score, now: Seq<Staff>, spacing: Seq<StaffSpacing>, t: int, c: int)
    requires
        staves_keep_structure(now, before.staves@),
        0 <= t < before.staves.len(),
        0 <= c < before.staves@[t].objects.len(),
    ensures
        aligned_slice_index(now[t].objects@, before.slice_indices@, c)
            == aligned_slice_index(before.staves@[t].objects@, before.slice_indices@, c),
        room_distance(now[t].objects@, spacing[t], c) == room_distance(before.staves@[t].objects@, spacing[t], c),
{
    let objs = before.staves@[t].objects@;
    let nows = now[t].objects@;
    assert(same_slice_addresses(nows, objs));
    assert(same_slice_addresses(objs, nows));
    lemma_next_aligned_reads_alignment(objs, nows, c);
    lemma_next_aligned(objs, c, c);
    let k = next_aligned(objs, c);
    if k < objs.len() {
        assert(objs[k].slice_address == nows[k].slice_address);
    }
}

/// The widest room of a slice, read through staves that keep their
/// alignment, is that of the staves before.
pub proof fn lemma_slice_room_reads_alignment(before: Score, mid: Score, spacing: Seq<StaffSpacing>, i: int, floor: int)
    requires
        before.wf(),
        0 <= i < before.slices.len(),
        staves_keep_structure(mid.staves@, before.staves@),
        slices_keep_structure(mid.slices@, before.slices@),
        mid.slice_indices@ == before.slice_indices@,
    ensures
        slice_room(mid, spacing, i, floor) == widest_room(
            before.staves@,
            spacing,
            slice_distances(mid.slices@),
            before.slice_indices@,
            i,
            before.slices@[i].object_addresses@,
            floor,
        ),
{
    let entries = before.slices@[i].object_addresses@;
    assert(mid.slices@[i] == with_slice_distance(before.slices@[i], mid.slices@[i].distance_from_previous_slice));
    assert forall|f: int| 0 <= f < entries.len() implies {
        &&& (#[trigger] entries[f]).staff_index < before.staves@.len()
        &&& entries[f].object_address < before.staves@[entries[f].staff_index as int].object_indices.len()
        &&& before.staves@[entries[f].staff_index as int].object_indices@[entries[f].object_address as int]
            < before.staves@[entries[f].staff_index as int].objects.len()
    } by {
        lemma_entry_object(before, i, f);
    }
    assert forall|t: int| 0 <= t < before.staves.len() implies same_slice_addresses(
        #[trigger] before.staves@[t].objects@,
        mid.staves@[t].objects@,
    ) by {
        assert(same_slice_addresses(mid.staves@[t].objects@, before.staves@[t].objects@));
    }
    assert forall|t: int| 0 <= t < before.staves.len() implies (#[trigger] before.staves@[t]).object_indices@
        == mid.staves@[t].object_indices@ by {}
    lemma_widest_reads_alignment(
        before.staves@,
        mid.staves@,
        spacing,
        slice_distances(mid.slices@),
        before.slice_indices@,
        i,
        entries,
        floor,
    );
}

/// One step of respacing: after the slice at `i` is reset from a state in
/// which the slices below `i` are done, the slices below `i + 1` are done.
proof fn lemma_respace_step(
    before: Score,
    mid: Score,
    after: Score,
    spacing: Seq<StaffSpacing>,
    marked: Set<int>,
    floors: Seq<i32>,
    i: int,
)
    requires
        before.wf(),
        0 <= i < before.slices.len(),
        floors.len() == before.slices.len(),
        marked.contains(i),
        respaced_distances(before, spacing, marked, floors, i as nat) is Some,
        slice_distances(mid.slices@) == respaced_distances(before, spacing, marked, floors, i as nat)->0
            + slice_distances(before.slices@).skip(i),
        staves_keep_structure(mid.staves@, before.staves@),
        slices_keep_structure(mid.slices@, before.slices@),
        objects_respaced(mid.staves@, before, spacing, marked, i),
        mid.slice_indices@ == before.slice_indices@,
        slice_room(mid, spacing, i, floors[i] as int) is Some,
        after.slices@ == mid.slices@.update(
            i,
            with_slice_distance(mid.slices@[i], slice_room(mid, spacing, i, floors[i] as int)->0 as i32),
        ),
        after.staves.len() == mid.staves.len(),
        forall|t: int|
            0 <= t < mid.staves.len() ==> {
                &&& (#[trigger] after.staves@[t]).object_indices@ == mid.staves@[t].object_indices@
                &&& after.staves@[t].object_address_free_list@ == mid.staves@[t].object_address_free_list@
                &&& same_staff_settings(&after.staves@[t], &mid.staves@[t])
                &&& after.staves@[t].objects.len() == mid.staves@[t].objects.len()
            },
        forall|t: int, c: int|
            0 <= t < mid.staves.len() && 0 <= c < mid.staves@[t].objects.len()
                ==> #[trigger] after.staves@[t].objects@[c] == if aligned_slice_index(
                mid.staves@[t].objects@,
                mid.slice_indices@,
                c,
            ) == i {
                with_distance(mid.staves@[t].objects@[c], room_distance(mid.staves@[t].objects@, spacing[t], c) as i32)
            } else {
                mid.staves@[t].objects@[c]
            },
    ensures
        respaced_distances(before, spacing, marked, floors, (i + 1) as nat) is Some,
        slice_distances(after.slices@) == respaced_distances(before, spacing, marked, floors, (i + 1) as nat)->0
            + slice_distances(before.slices@).skip(i + 1),
        staves_keep_structure(after.staves@, before.staves@),
        slices_keep_structure(after.slices@, before.slices@),
        objects_respaced(after.staves@, before, spacing, marked, i + 1),
{
    let prefix = respaced_distances(before, spacing, marked, floors, i as nat)->0;
    let old_distances = slice_distances(before.slices@);
    assert(prefix.len() == i) by {
        assert(slice_distances(mid.slices@).len() == before.slices.len());
    }
    lemma_slice_room_reads_alignment(before, mid, spacing, i, floors[i] as int);
    let d = slice_room(mid, spacing, i, floors[i] as int)->0;
    assert forall|k: int| 0 <= k < before.slices.len() implies #[trigger] slice_distances(after.slices@)[k]
        == (prefix.push(d as i32) + old_distances.skip(i + 1))[k] by {
        if k < i {
            assert(slice_distances(mid.slices@)[k] == prefix[k]);
        } else if k > i {
            assert(slice_distances(mid.slices@)[k] == old_distances.skip(i)[k - i]);
        }
    }
    assert(slice_distances(after.slices@) =~= prefix.push(d as i32) + old_distances.skip(i + 1));
    assert forall|k: int| 0 <= k < before.slices.len() implies #[trigger] after.slices@[k] == with_slice_distance(
        before.slices@[k],
        after.slices@[k].distance_from_previous_slice,
    ) by {
        assert(mid.slices@[k] == with_slice_distance(before.slices@[k], mid.slices@[k].distance_from_previous_slice));
    }
    assert forall|t: int| 0 <= t < before.staves.len() implies {
        &&& (#[trigger] after.staves@[t]).object_indices@ == before.staves@[t].object_indices@
        &&& after.staves@[t].object_address_free_list@ == before.staves@[t].object_address_free_list@
        &&& same_staff_settings(&after.staves@[t], &before.staves@[t])
        &&& same_slice_addresses(after.staves@[t].objects@, before.staves@[t].objects@)
    } by {
        assert(same_slice_addresses(mid.staves@[t].objects@, before.staves@[t].objects@));
        assert forall|c: int| 0 <= c < after.staves@[t].objects.len() implies (#[trigger] after.staves@[t].objects@[c]).slice_address
            == before.staves@[t].objects@[c].slice_address by {
            assert(mid.staves@[t].objects@[c].slice_address == before.staves@[t].objects@[c].slice_address);
        }
    }
    assert forall|t: int, c: int|
        0 <= t < before.staves.len() && 0 <= c < before.staves@[t].objects.len()
            implies #[trigger] after.staves@[t].objects@[c] == respaced_object(before, spacing, marked, i + 1, t, c) by {
        lemma_room_reads_alignment(before, mid.staves@, spacing, t, c);
        assert(mid.staves@[t].objects@[c] == respaced_object(before, spacing, marked, i, t, c));
    }
}

/// Reset, in left-to-right order, the slices at the given addresses and the
/// objects that lead up to them (see `reset_distance_from_previous_slice`);
/// `floors[i]` is the distance that the rhythm asks of the slice at index
/// `i`. Returns `Err(LayoutOverflow)` when a reckoning leaves the `i32`
/// range; the slices before that one are then already reset.
pub fn respace_slices(
    score: &mut Score,
    slice_addresses_to_respace: &Vec<usize>,
    floors: &Vec<i32>,
    spacing: &Vec<StaffSpacing>,
) -> (result: Result<(), LayoutOverflow>)
    requires
        old(score).wf(),
        spacing_wf(old(score).staves@, spacing@),
        floors.len() == old(score).slices.len(),
        forall|j: int| 0 <= j < floors.len() ==> #[trigger] floors@[j] >= 0,
        forall|j: int| 0 <= j < slice_addresses_to_respace.len() ==> old(score).slice_live(#[trigger] slice_addresses_to_respace@[j] as int),
    ensures
        final(score).wf(),
        result is Ok <==> respaced_distances(
            *old(score),
            spacing@,
            respace_set(old(score).slice_indices@, slice_addresses_to_respace@),
            floors@,
            old(score).slices.len() as nat,
        ) is Some,
        final(score).slice_indices@ == old(score).slice_indices@,
        final(score).slice_address_free_list@ == old(score).slice_address_free_list@,
        final(score).ghost_cursor == old(score).ghost_cursor,
        slices_keep_structure(final(score).slices@, old(score).slices@),
        staves_keep_structure(final(score).staves@, old(score).staves@),
        result is Ok ==> slice_distances(final(score).slices@) == respaced_distances(
            *old(score),
            spacing@,
            respace_set(old(score).slice_indices@, slice_addresses_to_respace@),
            floors@,
            old(score).slices.len() as nat,
        )->0,
        result is Ok ==> objects_respaced(
            final(score).staves@,
            *old(score),
            spacing@,
            respace_set(old(score).slice_indices@, slice_addresses_to_respace@),
            old(score).slices.len() as int,
        ),
{
    let ghost before = *score;
    let ghost marked = respace_set(before.slice_indices@, slice_addresses_to_respace@);
    let ghost old_distances = slice_distances(before.slices@);
    let count = score.slices.len();
    let mut marks: Vec<bool> = Vec::new();
    while marks.len() < count
        invariant
            marks.len() <= count,
            forall|i: int| 0 <= i < marks.len() ==> !(#[trigger] marks@[i]),
        decreases count - marks.len(),
    {
        marks.push(false);
    }
    let mut j: usize = 0;
    while j < slice_addresses_to_respace.len()
        invariant
            j <= slice_addresses_to_respace.len(),
            *score == before,
            count == before.slices.len(),
            before.wf(),
            marks.len() == count,
            forall|jj: int| 0 <= jj < slice_addresses_to_respace.len() ==> before.slice_live(#[trigger] slice_addresses_to_respace@[jj] as int),
            forall|i: int| 0 <= i < count ==> (#[trigger] marks@[i] <==> exists|jj: int|
                0 <= jj < j && #[trigger] before.slice_indices@[slice_addresses_to_respace@[jj] as int] == i),
        decreases slice_addresses_to_respace.len() - j,
    {
        let address = slice_addresses_to_respace[j];
        proof {
            assert(before.slice_live(slice_addresses_to_respace@[j as int] as int));
        }
        let index = score.slice_indices[address];
        marks.set(index, true);
        proof {
            assert forall|i: int| 0 <= i < count implies (#[trigger] marks@[i] <==> exists|jj: int|
                0 <= jj < j + 1 && #[trigger] before.slice_indices@[slice_addresses_to_respace@[jj] as int] == i) by {
                if i == index as int {
                    assert(before.slice_indices@[slice_addresses_to_respace@[j as int] as int] == i);
                } else if marks@[i] {
                    let jj = choose|jj: int| 0 <= jj < j && #[trigger] before.slice_indices@[slice_addresses_to_respace@[jj] as int] == i;
                    assert(0 <= jj < j + 1);
                } else {
                    if exists|jj: int| 0 <= jj < j + 1 && #[trigger] before.slice_indices@[slice_addresses_to_respace@[jj] as int] == i {
                        let jj = choose|jj: int| 0 <= jj < j + 1 && #[trigger] before.slice_indices@[slice_addresses_to_respace@[jj] as int] == i;
                        assert(jj != j as int);
                    }
                }
            }
        }
        j = j + 1;
    }
    proof {
        assert forall|i: int| 0 <= i < count implies (#[trigger] marks@[i] <==> marked.contains(i)) by {}
        assert(slice_distances(score.slices@) =~= Seq::<i32>::empty() + old_distances.skip(0));
    }
    let mut i: usize = 0;
    while i < count
        invariant
            i <= count == before.slices.len(),
            before == *old(score),
            before.wf(),
            score.wf(),
            marks.len() == count,
            forall|k: int| 0 <= k < count ==> (#[trigger] marks@[k] <==> marked.contains(k)),
            marked == respace_set(before.slice_indices@, slice_addresses_to_respace@),
            old_distances == slice_distances(before.slices@),
            spacing_wf(before.staves@, spacing@),
            floors.len() == count,
            forall|j: int| 0 <= j < floors.len() ==> #[trigger] floors@[j] >= 0,
            respaced_distances(before, spacing@, marked, floors@, i as nat) is Some,
            slice_distances(score.slices@) == respaced_distances(before, spacing@, marked, floors@, i as nat)->0
                + old_distances.skip(i as int),
            score.slice_indices@ == before.slice_indices@,
            score.slice_address_free_list@ == before.slice_address_free_list@,
            score.ghost_cursor == before.ghost_cursor,
            slices_keep_structure(score.slices@, before.slices@),
            staves_keep_structure(score.staves@, before.staves@),
            objects_respaced(score.staves@, before, spacing@, marked, i as int),
        decreases count - i,
    {
        let ghost mid = *score;
        let ghost prefix = respaced_distances(before, spacing@, marked, floors@, i as nat)->0;
        proof {
            assert(prefix.len() == i) by {
                assert(slice_distances(score.slices@).len() == count);
            }
            assert(spacing_wf(mid.staves@, spacing@)) by {
                assert forall|t: int| 0 <= t < mid.staves.len() implies {
                    &&& (#[trigger] spacing@[t]).widths.len() == mid.staves@[t].objects.len()
                    &&& spacing@[t].origin_offsets.len() == mid.staves@[t].objects.len()
                } by {
                    assert(same_slice_addresses(mid.staves@[t].objects@, before.staves@[t].objects@));
                }
            }
        }
        if marks[i] {
            let reset = reset_distance_from_previous_slice(score, i, floors[i], spacing);
            if reset.is_err() {
                proof {
                    lemma_slice_room_reads_alignment(before, mid, spacing@, i as int, floors@[i as int] as int);
                    assert(respaced_distances(before, spacing@, marked, floors@, i as nat + 1) is None);
                    lemma_respaced_none_stays(before, spacing@, marked, floors@, i as nat + 1, count as nat);
                    assert(staves_keep_structure(score.staves@, before.staves@)) by {
                        assert forall|t: int| 0 <= t < before.staves.len() implies same_slice_addresses(
                            #[trigger] score.staves@[t].objects@,
                            before.staves@[t].objects@,
                        ) by {
                            assert(same_slice_addresses(mid.staves@[t].objects@, before.staves@[t].objects@));
                            assert forall|c: int| 0 <= c < score.staves@[t].objects.len() implies (#[trigger] score.staves@[t].objects@[c]).slice_address
                                == before.staves@[t].objects@[c].slice_address by {
                                assert(score.staves@[t].objects@[c] == mid.staves@[t].objects@[c]);
                            }
                        }
                    }
                }
                return Err(LayoutOverflow);
            }
            proof {
                lemma_respace_step(before, mid, *score, spacing@, marked, floors@, i as int);
            }
        } else {
            proof {
                assert(!marked.contains(i as int));
                assert(slice_distances(score.slices@) =~= prefix.push(before.slices@[i as int].distance_from_previous_slice)
                    + old_distances.skip(i as int + 1)) by {
                    assert(slice_distances(score.slices@)[i as int] == old_distances[i as int]);
                }
                assert forall|t: int, c: int|
                    0 <= t < before.staves.len() && 0 <= c < before.staves@[t].objects.len()
                        implies #[trigger] score.staves@[t].objects@[c] == respaced_object(before, spacing@, marked, i + 1, t, c) by {
                    assert(score.staves@[t].objects@[c] == respaced_object(before, spacing@, marked, i as int, t, c));
                }
            }
        }
        i = i + 1;
    }
    proof {
        assert(old_distances.skip(count as int) =~= Seq::<i32>::empty());
        assert(slice_distances(score.slices@) =~= respaced_distances(before, spacing@, marked, floors@, count as nat)->0);
        assert forall|t: int, c: int|
            0 <= t < before.staves.len() && 0 <= c < before.staves@[t].objects.len()
                implies #[trigger] score.staves@[t].objects@[c] == respaced_object(before, spacing@, marked, count as int, t, c) by {
            lemma_aligned_slice_index_bounds(before, t, c);
        }
    }
    Ok(())
}

/// Once the reckoning leaves the `i32` range at some slice, it does for
/// every longer run of slices too.
proof fn lemma_respaced_none_stays(
    score: Score,
    spacing: Seq<StaffSpacing>,
    marked: Set<int>,
    floors: Seq<i32>,
    n: nat,
    m: nat,
)
    requires
        n <= m,
        respaced_distances(score, spacing, marked, floors, n) is None,
    ensures
        respaced_distances(score, spacing, marked, floors, m) is None,
    decreases m - n,
{
    if n < m {
        lemma_respaced_none_stays(score, spacing, marked, floors, n + 1, m);
    }
}

/// The index of the last slice before `slice_index` that has a rhythmic
/// position, or -1.
pub open spec fn previous_rhythmic_index(slices: Seq<Slice>, slice_index: int) -> int
    decreases slice_index,
{
    if slice_index <= 0 {
        -1
    } else if slices[slice_index - 1].rhythmic_position is Some {
        slice_index - 1
    } else {
        previous_rhythmic_index(slices, slice_index - 1)
    }
}

/// The previous rhythmic index lies before the slice, and the slices in
/// between have no rhythmic position.
pub proof fn lemma_previous_rhythmic_index(slices: Seq<Slice>, slice_index: int)
    requires
        0 <= slice_index <= slices.len(),
    ensures
        -1 <= previous_rhythmic_index(slices, slice_index) < slice_index,
        previous_rhythmic_index(slices, slice_index) >= 0 ==> slices[previous_rhythmic_index(
            slices,
            slice_index,
        )].rhythmic_position is Some,
        forall|k: int|
            previous_rhythmic_index(slices, slice_index) < k < slice_index ==> (#[trigger] slices[k]).rhythmic_position is None,
    decreases slice_index,
{
    if slice_index > 0 && slices[slice_index - 1].rhythmic_position is None {
        lemma_previous_rhythmic_index(slices, slice_index - 1);
    }
}

/// The rhythmic position of the slice at `slice_index` is at or after that
/// of the previous slice with one, when both have one.
pub open spec fn rhythm_advances_to(slices: Seq<Slice>, slice_index: int) -> bool {
    let previous = previous_rhythmic_index(slices, slice_index);
    slices[slice_index].rhythmic_position is Some && previous >= 0 ==> {
        let later = slices[slice_index].rhythmic_position->0;
        let earlier = slices[previous].rhythmic_position->0;
        !rat_lt(later.num(), later.den(), earlier.num(), earlier.den())
    }
}

/// Whether the rhythmic position of the slice at `slice_index` is at or
/// after that of the previous slice with one (see `rhythm_advances_to`).
pub fn rhythm_advances(slices: &Vec<Slice>, slice_index: usize) -> (advances: bool)
    requires
        slice_index < slices.len(),
        forall|k: int|
            0 <= k < slices.len() && (#[trigger] slices@[k]).rhythmic_position is Some ==> position_wf(
                slices@[k].rhythmic_position->0,
            ),
    ensures
        advances == rhythm_advances_to(slices@, slice_index as int),
{
    proof {
        lemma_previous_rhythmic_index(slices@, slice_index as int);
    }
    match &slices[slice_index].rhythmic_position {
        None => true,
        Some(position) => {
            let mut index = slice_index;
            while index > 0
                invariant
                    index <= slice_index < slices.len(),
                    previous_rhythmic_index(slices@, slice_index as int) == previous_rhythmic_index(slices@, index as int),
                    slices@[slice_index as int].rhythmic_position == Some(*position),
                    forall|k: int|
                        0 <= k < slices.len() && (#[trigger] slices@[k]).rhythmic_position is Some ==> position_wf(
                            slices@[k].rhythmic_position->0,
                        ),
                decreases index,
            {
                if let Some(previous) = &slices[index - 1].rhythmic_position {
                    proof {
                        assert(previous_rhythmic_index(slices@, index as int) == index - 1);
                        assert(position_wf(slices@[index - 1].rhythmic_position->0));
                        assert(position_wf(slices@[slice_index as int].rhythmic_position->0));
                    }
                    return !crate::rhythm::ratio_less_than(position, previous);
                }
                index = index - 1;
            }
            true
        },
    }
}

/// The length in whole notes from the previous slice with a rhythmic
/// position to the slice at `slice_index`, when that slice has a rhythmic
/// position and some slice before it does.
pub fn rhythmic_gap(slices: &Vec<Slice>, slice_index: usize) -> (gap: Option<WholeNotes>)
    requires
        slice_index < slices.len(),
        forall|k: int|
            0 <= k < slices.len() && (#[trigger] slices@[k]).rhythmic_position is Some ==> position_wf(
                slices@[k].rhythmic_position->0,
            ),
        rhythm_advances_to(slices@, slice_index as int),
    ensures
        gap is Some <==> (slices@[slice_index as int].rhythmic_position is Some && previous_rhythmic_index(
            slices@,
            slice_index as int,
        ) >= 0),
        gap matches Some(length) ==> {
            let later = slices@[slice_index as int].rhythmic_position->0;
            let earlier = slices@[previous_rhythmic_index(slices@, slice_index as int)].rhythmic_position->0;
            &&& length.wf()
            &&& rat_eq(
                length.num(),
                length.den(),
                later.num() * earlier.den() - earlier.num() * later.den(),
                later.den() * earlier.den(),
            )
            &&& divides(length.den(), two_to(30) as int)
        },
{
    proof {
        lemma_previous_rhythmic_index(slices@, slice_index as int);
    }
    match &slices[slice_index].rhythmic_position {
        None => None,
        Some(position) => {
            let mut index = slice_index;
            while index > 0
                invariant
                    index <= slice_index < slices.len(),
                    previous_rhythmic_index(slices@, slice_index as int) == previous_rhythmic_index(slices@, index as int),
                    slices@[slice_index as int].rhythmic_position == Some(*position),
                    rhythm_advances_to(slices@, slice_index as int),
                    forall|k: int|
                        0 <= k < slices.len() && (#[trigger] slices@[k]).rhythmic_position is Some ==> position_wf(
                            slices@[k].rhythmic_position->0,
                        ),
                decreases index,
            {
                if let Some(previous) = &slices[index - 1].rhythmic_position {
                    proof {
                        assert(previous_rhythmic_index(slices@, index as int) == index - 1);
                        assert(position_wf(slices@[index - 1].rhythmic_position->0));
                        assert(position_wf(slices@[slice_index as int].rhythmic_position->0));
                    }
                    return Some(ratio_sub(position, previous));
                }
                index = index - 1;
            }
            None
        },
    }
}

/// `start` plus `values[from]`, then plus `values[from + 1]`, and so on up
/// to `values[to - 1]`, one step at a time in `i32` arithmetic: the result,
/// or `None` when a step leaves the range.
pub open spec fn add_chain(start: int, values: Seq<i32>, from: int, to: int) -> Option<int>
    decreases to - from,
{
    if from >= to {
        Some(start)
    } else if !fits_i32(start + values[from]) {
        None
    } else {
        add_chain(start + values[from], values, from + 1, to)
    }
}

/// The horizontal position of an object: the system's left edge, less the
/// object's distance to the slice of the next aligned object, plus the
/// distances of the slices up to and including that slice, added one at a
/// time; `None` when a step leaves the `i32` range.
pub open spec fn object_x(
    slices: Seq<Slice>,
    slice_indices: Seq<usize>,
    objects: Seq<Object>,
    system_left_edge: int,
    object_index: int,
) -> Option<int> {
    let start = system_left_edge - objects[object_index].distance_to_next_slice;
    if !fits_i32(start) {
        None
    } else {
        let k = next_aligned(objects, object_index);
        add_chain(start, slice_distances(slices), 0, slice_indices[objects[k].slice_address->0 as int] + 1)
    }
}

/// The horizontal position of the object at `object_index` of the staff,
/// or `Err(LayoutOverflow)` when the reckoning leaves the `i32` range.
pub fn cursor_x(
    slices: &Vec<Slice>,
    slice_indices: &Vec<usize>,
    staff: &Staff,
    system_left_edge: i32,
    object_index: usize,
) -> (x: Result<i32, LayoutOverflow>)
    requires
        object_index < staff.objects.len(),
        next_aligned(staff.objects@, object_index as int) < staff.objects.len(),
        alignments_live(staff.objects@, slice_indices@, slices.len() as int),
    ensures
        x matches Ok(v) ==> object_x(slices@, slice_indices@, staff.objects@, system_left_edge as int, object_index as int)
            == Some(v as int),
        x is Err ==> object_x(slices@, slice_indices@, staff.objects@, system_left_edge as int, object_index as int) is None,
{
    let distance = staff.objects[object_index].distance_to_next_slice;
    if distance > 0 && system_left_edge < i32::MIN + distance || distance < 0 && system_left_edge > i32::MAX + distance {
        return Err(LayoutOverflow);
    }
    let mut x = system_left_edge - distance;
    let mut index = object_index;
    proof {
        lemma_next_aligned(staff.objects@, object_index as int, object_index as int);
    }
    while staff.objects[index].slice_address.is_none()
        invariant
            object_index <= index <= next_aligned(staff.objects@, object_index as int) < staff.objects.len(),
            next_aligned(staff.objects@, index as int) == next_aligned(staff.objects@, object_index as int),
        decreases staff.objects.len() - index,
    {
        proof {
            lemma_next_aligned(staff.objects@, index as int + 1, index as int + 1);
        }
        index = index + 1;
    }
    proof {
        lemma_next_aligned(staff.objects@, index as int, index as int);
        assert(staff.objects@[index as int].slice_address is Some);
    }
    let slice_address = match staff.objects[index].slice_address {
        Some(address) => address,
        None => 0,
    };
    let last = slice_indices[slice_address];
    let ghost distances = slice_distances(slices@);
    let mut slice_index: usize = 0;
    while slice_index <= last
        invariant
            last < slices.len(),
            slice_index <= last + 1,
            distances == slice_distances(slices@),
            object_x(slices@, slice_indices@, staff.objects@, system_left_edge as int, object_index as int)
                == add_chain(x as int, distances, slice_index as int, last + 1),
        decreases last + 1 - slice_index,
    {
        let step = slices[slice_index].distance_from_previous_slice;
        if step > 0 && x > i32::MAX - step || step < 0 && x < i32::MIN - step {
            return Err(LayoutOverflow);
        }
        x = x + step;
        slice_index = slice_index + 1;
    }
    Ok(x)
}

/// The index of the object named by the first entry of staff `t` among
/// `entries`, or -1 when none names one.
pub open spec fn first_entry_index(entries: Seq<SystemAddress>, staff: Staff, t: int) -> int
    decreases entries.len(),
{
    if entries.len() == 0 {
        -1
    } else if entries[0].staff_index == t {
        staff.object_indices@[entries[0].object_address as int] as int
    } else {
        first_entry_index(entries.drop_first(), staff, t)
    }
}

/// Scanning the objects from `pointer` up to `bound`, each at `slice_x`
/// less its distance to the slice: the first one right of `limit` stops the
/// scan; each valid cursor position passed becomes the cursor. Gives
/// whether the scan stopped, where it got to and the cursor, or `None` when
/// a position leaves the `i32` range.
pub open spec fn scan_objects(
    objects: Seq<Object>,
    limit: int,
    slice_x: int,
    pointer: int,
    bound: int,
    cursor: int,
) -> Option<(bool, int, int)>
    decreases bound + 1 - pointer,
{
    if pointer > bound {
        Some((false, pointer, cursor))
    } else {
        let x = slice_x - objects[pointer].distance_to_next_slice;
        if !fits_i32(x) {
            None
        } else if x > limit {
            Some((true, pointer, cursor))
        } else {
            scan_objects(
                objects,
                limit,
                slice_x,
                pointer + 1,
                bound,
                if objects[pointer].is_valid_cursor_position { pointer } else { cursor },
            )
        }
    }
}

/// Scanning the slices from `slice_index` on: each adds its distance to the
/// running position, and where it names an object of staff `t` the objects
/// up to that one are scanned at that position. Gives the index of the
/// cursor object where the scan stops or at the end, or `None` when a
/// position leaves the `i32` range.
pub open spec fn scan_slices(
    score: Score,
    t: int,
    limit: int,
    slice_index: int,
    pointer: int,
    cursor: int,
    slice_x: int,
) -> Option<int>
    decreases score.slices.len() - slice_index,
{
    if slice_index >= score.slices.len() || slice_index < 0 {
        Some(cursor)
    } else {
        let x = slice_x + score.slices@[slice_index].distance_from_previous_slice;
        if !fits_i32(x) {
            None
        } else {
            let bound = first_entry_index(score.slices@[slice_index].object_addresses@, score.staves@[t], t);
            if bound < 0 {
                scan_slices(score, t, limit, slice_index + 1, pointer, cursor, x)
            } else {
                match scan_objects(score.staves@[t].objects@, limit, x, pointer, bound, cursor) {
                    None => None,
                    Some((stopped, next, now)) => if stopped {
                        Some(now)
                    } else {
                        scan_slices(score, t, limit, slice_index + 1, next, now, x)
                    },
                }
            }
        }
    }
}

/// The first staff, from the top, whose bottom lies at or below `mouse_y`,
/// provided no staff up to it starts below `mouse_y`.
pub open spec fn hovered_staff(bounds: Seq<(i32, i32)>, mouse_y: int, t: int) -> Option<int>
    decreases bounds.len() - t,
{
    if t < 0 || t >= bounds.len() || bounds[t].0 > mouse_y {
        None
    } else if mouse_y <= bounds[t].1 {
        Some(t)
    } else {
        hovered_staff(bounds, mouse_y, t + 1)
    }
}

/// The first valid cursor position of the list at or after `c`.
pub open spec fn first_cursor_position(objects: Seq<Object>, c: int) -> int
    decreases objects.len() - c,
{
    if c >= objects.len() || objects[c].is_valid_cursor_position {
        c
    } else {
        first_cursor_position(objects, c + 1)
    }
}

/// The object the ghost cursor stands at when the mouse is at `mouse_y` and
/// left of every position beyond `limit`: in the hovered staff, the last
/// valid cursor position passed while scanning the slices from the left,
/// starting at the staff's first one. `None` when no staff is hovered.
pub open spec fn ghost_cursor(
    score: Score,
    system_left_edge: int,
    bounds: Seq<(i32, i32)>,
    limit: int,
    mouse_y: int,
) -> Option<Option<SystemAddress>> {
    match hovered_staff(bounds, mouse_y, 0) {
        None => Some(None),
        Some(t) => {
            let objects = score.staves@[t].objects@;
            let first = first_cursor_position(objects, 0);
            match scan_slices(score, t, limit, 0, first, first, system_left_edge) {
                None => None,
                Some(c) => Some(Some(SystemAddress { staff_index: t as usize, object_address: objects[c].address })),
            }
        }
    }
}

/// Every staff has an object that is a valid cursor position.
pub open spec fn staves_have_cursor_positions(staves: Seq<Staff>) -> bool {
    forall|t: int|
        0 <= t < staves.len() ==> exists|c: int|
            0 <= c < (#[trigger] staves[t]).objects.len() && staves[t].objects@[c].is_valid_cursor_position
}

/// The first valid cursor position at or after `c` lies at or before any
/// valid cursor position at or after `c`.
pub proof fn lemma_first_cursor_position(objects: Seq<Object>, c: int, j: int)
    requires
        0 <= c <= j < objects.len(),
        objects[j].is_valid_cursor_position,
    ensures
        c <= first_cursor_position(objects, c) <= j,
        objects[first_cursor_position(objects, c)].is_valid_cursor_position,
    decreases j - c,
{
    if !objects[c].is_valid_cursor_position {
        lemma_first_cursor_position(objects, c + 1, j);
    }
}

/// The index of the object named by the first entry of staff `t`.
fn first_entry_object(entries: &Vec<SystemAddress>, staff: &Staff, t: usize) -> (index: Option<usize>)
    requires
        forall|f: int| 0 <= f < entries.len() && (#[trigger] entries@[f]).staff_index == t ==> {
            &&& entries@[f].object_address < staff.object_indices.len()
            &&& staff.object_indices@[entries@[f].object_address as int] < staff.objects.len()
        },
    ensures
        index matches Some(i) ==> first_entry_index(entries@, *staff, t as int) == i && i < staff.objects.len(),
        index is None ==> first_entry_index(entries@, *staff, t as int) < 0,
{
    let mut f: usize = 0;
    proof {
        assert(entries@.skip(0) =~= entries@);
    }
    while f < entries.len()
        invariant
            f <= entries.len(),
            first_entry_index(entries@, *staff, t as int) == first_entry_index(entries@.skip(f as int), *staff, t as int),
            forall|g: int| 0 <= g < entries.len() && (#[trigger] entries@[g]).staff_index == t ==> {
                &&& entries@[g].object_address < staff.object_indices.len()
                &&& staff.object_indices@[entries@[g].object_address as int] < staff.objects.len()
            },
        decreases entries.len() - f,
    {
        proof {
            assert(entries@.skip(f as int)[0] == entries@[f as int]);
            assert(entries@.skip(f as int).drop_first() =~= entries@.skip(f as int + 1));
        }
        if entries[f].staff_index == t {
            return Some(staff.object_indices[entries[f].object_address]);
        }
        f = f + 1;
    }
    proof {
        assert(entries@.skip(f as int).len() == 0);
    }
    None
}

/// The ghost cursor for a mouse at `mouse_y` whose horizontal position lies
/// right of every position up to `mouse_x_limit` and left of the ones
/// beyond (see `ghost_cursor`), given each staff's vertical bounds as (top,
/// bottom); `Ok(None)` when no staff is hovered.
pub fn ghost_cursor_address(
    score: &Score,
    system_left_edge: i32,
    staff_bounds: &Vec<(i32, i32)>,
    mouse_x_limit: i32,
    mouse_y: i32,
) -> (address: Result<Option<SystemAddress>, LayoutOverflow>)
    requires
        score.wf(),
        staff_bounds.len() == score.staves.len(),
        staves_have_cursor_positions(score.staves@),
    ensures
        match address {
            Ok(a) => ghost_cursor(*score, system_left_edge as int, staff_bounds@, mouse_x_limit as int, mouse_y as int)
                == Some(a),
            Err(_) => ghost_cursor(*score, system_left_edge as int, staff_bounds@, mouse_x_limit as int, mouse_y as int)
                is None,
        },
{
    let ghost bounds = staff_bounds@;
    let mut t: usize = 0;
    let mut hovered: Option<usize> = None;
    while t < staff_bounds.len()
        invariant_except_break
            hovered is None,
        invariant
            t <= staff_bounds.len(),
            bounds == staff_bounds@,
            hovered_staff(bounds, mouse_y as int, 0) == hovered_staff(bounds, mouse_y as int, t as int),
        ensures
            hovered matches Some(h) ==> h < staff_bounds.len() && hovered_staff(bounds, mouse_y as int, 0) == Some(h as int),
            hovered is None ==> hovered_staff(bounds, mouse_y as int, 0) is None,
        decreases staff_bounds.len() - t,
    {
        let (top, bottom) = staff_bounds[t];
        if top > mouse_y {
            return Ok(None);
        }
        if mouse_y <= bottom {
            hovered = Some(t);
            break;
        }
        t = t + 1;
    }
    let t = match hovered {
        None => {
            return Ok(None);
        },
        Some(t) => t,
    };
    let staff = &score.staves[t];
    let ghost objects = staff.objects@;
    proof {
        assert(score.staves@[t as int] == *staff);
        let j = choose|c: int| 0 <= c < objects.len() && objects[c].is_valid_cursor_position;
        lemma_first_cursor_position(objects, 0, j);
    }
    let mut first: usize = 0;
    while !staff.objects[first].is_valid_cursor_position
        invariant
            first <= first_cursor_position(objects, 0) < objects.len(),
            objects == staff.objects@,
            objects.len() == staff.objects.len(),
            objects[first_cursor_position(objects, 0)].is_valid_cursor_position,
            first_cursor_position(objects, 0) == first_cursor_position(objects, first as int),
        decreases objects.len() - first,
    {
        proof {
            lemma_first_cursor_position(objects, first as int + 1, first_cursor_position(objects, 0));
        }
        first = first + 1;
    }
    let ghost start = first as int;
    let ghost whole = scan_slices(*score, t as int, mouse_x_limit as int, 0, start, start, system_left_edge as int);
    proof {
        assert(hovered_staff(staff_bounds@, mouse_y as int, 0) == Some(t as int));
        assert(ghost_cursor(*score, system_left_edge as int, staff_bounds@, mouse_x_limit as int, mouse_y as int) == match whole {
            None => None,
            Some(c) => Some(Some(SystemAddress { staff_index: t, object_address: objects[c].address })),
        });
    }
    let mut cursor = first;
    let mut pointer = first;
    let mut slice_x = system_left_edge;
    let mut slice_index: usize = 0;
    while slice_index < score.slices.len()
        invariant
            score.wf(),
            t < score.staves.len(),
            *staff == score.staves@[t as int],
            objects == staff.objects@,
            objects.len() == staff.objects.len(),
            cursor < objects.len(),
            whole == scan_slices(*score, t as int, mouse_x_limit as int, 0, start, start, system_left_edge as int),
            ghost_cursor(*score, system_left_edge as int, staff_bounds@, mouse_x_limit as int, mouse_y as int) == match whole {
                None => None,
                Some(c) => Some(Some(SystemAddress { staff_index: t, object_address: objects[c].address })),
            },
            whole == scan_slices(*score, t as int, mouse_x_limit as int, slice_index as int, pointer as int, cursor as int, slice_x as int),
        ensures
            scan_slices(*score, t as int, mouse_x_limit as int, 0, start, start, system_left_edge as int)
                == Some(cursor as int),
            cursor < objects.len(),
        decreases score.slices.len() - slice_index,
    {
        let distance = score.slices[slice_index].distance_from_previous_slice;
        if distance > 0 && slice_x > i32::MAX - distance || distance < 0 && slice_x < i32::MIN - distance {
            return Err(LayoutOverflow);
        }
        slice_x = slice_x + distance;
        let entries = &score.slices[slice_index].object_addresses;
        proof {
            assert forall|f: int| 0 <= f < entries.len() && (#[trigger] entries@[f]).staff_index == t implies {
                &&& entries@[f].object_address < staff.object_indices.len()
                &&& staff.object_indices@[entries@[f].object_address as int] < staff.objects.len()
            } by {
                assert(score.entry_wf(slice_index as int, entries@[f]));
            }
        }
        match first_entry_object(entries, staff, t) {
            None => {},
            Some(bound) => {
                let ghost p0 = pointer as int;
                let ghost c0 = cursor as int;
                let ghost x = slice_x as int;
                let mut stopped = false;
                while pointer <= bound
                    invariant_except_break
                        !stopped,
                    invariant
                        bound < objects.len(),
                        objects == staff.objects@,
                        objects.len() == staff.objects.len(),
                        cursor < objects.len(),
                        x == slice_x,
                        ghost_cursor(*score, system_left_edge as int, staff_bounds@, mouse_x_limit as int, mouse_y as int) == match whole {
                            None => None,
                            Some(c) => Some(Some(SystemAddress { staff_index: t, object_address: objects[c].address })),
                        },
                        whole == match scan_objects(objects, mouse_x_limit as int, x, p0, bound as int, c0) {
                            None => None,
                            Some((stopped, next, now)) => if stopped {
                                Some(now)
                            } else {
                                scan_slices(*score, t as int, mouse_x_limit as int, slice_index + 1, next, now, x)
                            },
                        },
                        scan_objects(objects, mouse_x_limit as int, x, p0, bound as int, c0)
                            == scan_objects(objects, mouse_x_limit as int, x, pointer as int, bound as int, cursor as int),
                    ensures
                        cursor < objects.len(),
                        scan_objects(objects, mouse_x_limit as int, x, p0, bound as int, c0)
                            == Some((stopped, pointer as int, cursor as int)),
                    decreases bound + 1 - pointer,
                {
                    let object_distance = staff.objects[pointer].distance_to_next_slice;
                    if object_distance > 0 && slice_x < i32::MIN + object_distance || object_distance < 0 && slice_x
                        > i32::MAX + object_distance {
                        return Err(LayoutOverflow);
                    }
                    let object_x = slice_x - object_distance;
                    if object_x > mouse_x_limit {
                        stopped = true;
                        break;
                    }
                    if staff.objects[pointer].is_valid_cursor_position {
                        cursor = pointer;
                    }
                    pointer = pointer + 1;
                }
                if stopped {
                    return Ok(Some(SystemAddress { staff_index: t, object_address: staff.objects[cursor].address }));
                }
            },
        }
        slice_index = slice_index + 1;
    }
    Ok(Some(SystemAddress { staff_index: t, object_address: staff.objects[cursor].address }))
}

/// Subtracting distances reads only the distances it subtracts.
pub proof fn lemma_subtract_reads_range(start: int, a: Seq<i32>, b: Seq<i32>, from: int, to: int)
    requires
        forall|i: int| from <= i < to ==> #[trigger] a[i] == b[i],
    ensures
        subtract_chain(start, a, from, to) == subtract_chain(start, b, from, to),
    decreases to - from,
{
    if from < to {
        assert(a[from] == b[from]);
        lemma_subtract_reads_range(start - a[from], a, b, from + 1, to);
    }
}

/// The walk back from an object reads only the distances of the slices
/// before `slice_index`.
pub proof fn lemma_walk_reads_earlier(
    objects: Seq<Object>,
    spacing: StaffSpacing,
    a: Seq<i32>,
    b: Seq<i32>,
    slice_indices: Seq<usize>,
    slice_index: int,
    c: int,
    room: int,
)
    requires
        forall|i: int| 0 <= i < slice_index ==> #[trigger] a[i] == b[i],
    ensures
        walk_room(objects, spacing, a, slice_indices, slice_index, c, room)
            == walk_room(objects, spacing, b, slice_indices, slice_index, c, room),
    decreases c,
{
    if c > 0 {
        let widened = room + spacing.widths@[c - 1];
        match objects[c - 1].slice_address {
            Some(address) => {
                let from = slice_indices[address as int] + 1;
                assert forall|i: int| from <= i < slice_index implies #[trigger] a[i] == b[i] by {
                    assert(0 <= i < slice_index);
                }
                lemma_subtract_reads_range(widened - spacing.origin_offsets@[c - 1], a, b, from, slice_index);
            },
            None => {
                lemma_walk_reads_earlier(objects, spacing, a, b, slice_indices, slice_index, c - 1, widened);
            },
        }
    }
}

/// The widest room of a slice reads only the distances of the slices
/// before it.
pub proof fn lemma_widest_reads_earlier(
    staves: Seq<Staff>,
    spacing: Seq<StaffSpacing>,
    a: Seq<i32>,
    b: Seq<i32>,
    slice_indices: Seq<usize>,
    slice_index: int,
    entries: Seq<SystemAddress>,
    floor: int,
)
    requires
        forall|i: int| 0 <= i < slice_index ==> #[trigger] a[i] == b[i],
    ensures
        widest_room(staves, spacing, a, slice_indices, slice_index, entries, floor)
            == widest_room(staves, spacing, b, slice_indices, slice_index, entries, floor),
    decreases entries.len(),
{
    if entries.len() > 0 {
        lemma_widest_reads_earlier(staves, spacing, a, b, slice_indices, slice_index, entries.drop_last(), floor);
        let entry = entries.last();
        let t = entry.staff_index as int;
        let k = staves[t].object_indices@[entry.object_address as int] as int;
        lemma_walk_reads_earlier(
            staves[t].objects@,
            spacing[t],
            a,
            b,
            slice_indices,
            slice_index,
            k,
            spacing[t].origin_offsets@[k] as int,
        );
    }
}

/// The object that the first entry of a staff in a slice names is an
/// object of that staff.
pub proof fn lemma_entry_object_bounds(score: Score, slice_index: int, t: int)
    requires
        score.wf(),
        0 <= slice_index < score.slices.len(),
        0 <= t < score.staves.len(),
    ensures
        first_entry_index(score.slices@[slice_index].object_addresses@, score.staves@[t], t)
            < score.staves@[t].objects.len(),
{
    lemma_first_entry_bounds(score, slice_index, t, 0);
    assert(score.slices@[slice_index].object_addresses@.skip(0) =~= score.slices@[slice_index].object_addresses@);
}

proof fn lemma_first_entry_bounds(score: Score, slice_index: int, t: int, from: int)
    requires
        score.wf(),
        0 <= slice_index < score.slices.len(),
        0 <= t < score.staves.len(),
        0 <= from <= score.slices@[slice_index].object_addresses.len(),
    ensures
        first_entry_index(score.slices@[slice_index].object_addresses@.skip(from), score.staves@[t], t)
            < score.staves@[t].objects.len(),
    decreases score.slices@[slice_index].object_addresses.len() - from,
{
    let entries = score.slices@[slice_index].object_addresses@;
    if from == 0 {
        assert(entries.skip(0) =~= entries);
    }
    if from < entries.len() {
        let rest = entries.skip(from);
        assert(rest[0] == entries[from]);
        assert(rest.drop_first() =~= entries.skip(from + 1));
        if rest[0].staff_index as int == t {
            lemma_entry_object(score, slice_index, from);
        } else {
            lemma_first_entry_bounds(score, slice_index, t, from + 1);
        }
    }
}

} // verus!
