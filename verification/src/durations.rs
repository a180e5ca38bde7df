use vstd::prelude::*;
use crate::rhythm::{
    divides, lemma_divides_multiple, lemma_divides_self, lemma_divides_transitive, lemma_rat_add_congruent,
    lemma_rat_eq_transitive, lemma_two_to_adds, rat_eq, rat_lt, ratio_add, ratio_equals, ratio_less_than, two_to,
    whole_notes_long, whole_notes_long_den, whole_notes_long_num, WholeNotes,
};
use crate::staff::{
    accidental_note_address, insertion_keeps_links, next_slice_address, note_accidental_address, object_addresses,
    object_at, object_content_wf, object_live, push_if_not_present, unlinked, with_address, Object, ObjectType,
    SystemAddress,
};
use crate::accidentals::{display_entries, remove_accidental_object};
use crate::rhythm::{as_ints, ratio_sub, rest_exponents, rest_log2_durations};
use crate::staff::{lemma_insert_keeps_live, note_pitch_of, replace_object_type, with_type, Staff};
use crate::system::lemma_staff_change_keeps_score_wf;
use crate::removal::{lemma_removal_reduces_entries, remove_object};
use crate::system::{insert_slice, insert_slice_object, position_wf, staff_has_room, Score, Slice};

verus! {

/// The object placed on a rhythmic slice: a valid cursor position with no
/// offset, unselected.
pub open spec fn rhythmic_object(object_type: ObjectType, slice_address: usize) -> Object {
    Object {
        object_type: object_type,
        address: 0,
        slice_address: Some(slice_address),
        distance_to_next_slice: 0,
        is_selected: false,
        is_valid_cursor_position: true,
    }
}

/// The first slice at or after `start` whose rhythmic position is not
/// before `position`, or the number of slices when there is none.
pub open spec fn rhythmic_slot(slices: Seq<Slice>, start: int, position: WholeNotes) -> int
    decreases slices.len() - start,
{
    if start < 0 || start >= slices.len() {
        slices.len() as int
    } else if slices[start].rhythmic_position is Some && !rat_lt(
        slices[start].rhythmic_position->0.num(),
        slices[start].rhythmic_position->0.den(),
        position.num(),
        position.den(),
    ) {
        start
    } else {
        rhythmic_slot(slices, start + 1, position)
    }
}

/// Whether the slice has the rhythmic position.
pub open spec fn at_position(slice: Slice, position: WholeNotes) -> bool {
    slice.rhythmic_position is Some && rat_eq(
        slice.rhythmic_position->0.num(),
        slice.rhythmic_position->0.den(),
        position.num(),
        position.den(),
    )
}

/// The first slice at or after `start` whose rhythmic position is not
/// before `position`, and whether it is at `position`.
pub fn find_rhythmic_slice(score: &Score, start: usize, position: &WholeNotes) -> (found: (usize, bool))
    requires
        score.wf(),
        start <= score.slices.len(),
        position_wf(*position),
    ensures
        found.0 == rhythmic_slot(score.slices@, start as int, *position),
        found.0 <= score.slices.len(),
        found.1 == (found.0 < score.slices.len() && at_position(score.slices@[found.0 as int], *position)),
{
    let mut slice_index = start;
    loop
        invariant
            score.wf(),
            start <= slice_index <= score.slices.len(),
            position_wf(*position),
            rhythmic_slot(score.slices@, start as int, *position) == rhythmic_slot(score.slices@, slice_index as int, *position),
        decreases score.slices.len() - slice_index,
    {
        if slice_index == score.slices.len() {
            return (slice_index, false);
        }
        let slice = &score.slices[slice_index];
        if let Some(rhythmic_position) = &slice.rhythmic_position {
            proof {
                assert(position_wf(*rhythmic_position));
            }
            if ratio_less_than(position, rhythmic_position) {
                proof {
                    assert(!rat_lt(rhythmic_position.num(), rhythmic_position.den(), position.num(), position.den())) by (nonlinear_arith)
                        requires
                            rat_lt(position.num(), position.den(), rhythmic_position.num(), rhythmic_position.den()),
                    ;
                    assert(!rat_eq(rhythmic_position.num(), rhythmic_position.den(), position.num(), position.den()));
                }
                return (slice_index, false);
            }
            if ratio_equals(rhythmic_position, position) {
                proof {
                    assert(!rat_lt(rhythmic_position.num(), rhythmic_position.den(), position.num(), position.den()));
                }
                return (slice_index, true);
            }
            proof {
                assert(rat_lt(rhythmic_position.num(), rhythmic_position.den(), position.num(), position.den()));
            }
        }
        slice_index = slice_index + 1;
    }
}

/// Insert an object of `object_type` at `object_index` of staff
/// `staff_index`, on the slice at `new_rhythmic_position`: the first slice
/// from `slice_index` on whose position is not before it, when that slice is
/// at the position; otherwise a new slice at the position, inserted before
/// that slice (or at the end). Leaves `slice_index` on the object's slice and
/// returns the object's address.
pub fn insert_rhythmic_slice_object(
    slice_addresses_to_respace: &mut Vec<usize>,
    score: &mut Score,
    staff_index: usize,
    object_type: ObjectType,
    object_index: usize,
    slice_index: &mut usize,
    new_rhythmic_position: WholeNotes,
) -> (address: usize)
    requires
        old(score).wf(),
        staff_index < old(score).staves.len(),
        *old(slice_index) <= old(score).slices.len(),
        object_index <= old(score).staves@[staff_index as int].objects.len(),
        position_wf(new_rhythmic_position),
        unlinked(rhythmic_object(object_type, 0)),
        object_content_wf(rhythmic_object(object_type, 0), old(score).staves@[staff_index as int].line_count),
        insertion_keeps_links(old(score).staves@[staff_index as int].objects@, object_index as int),
        staff_has_room(old(score).staves@[staff_index as int], 1),
        old(score).slice_indices.len() + 1 < usize::MAX,
    ensures
        final(score).wf(),
        ({
            let k = rhythmic_slot(old(score).slices@, *old(slice_index) as int, new_rhythmic_position);
            let existing = k < old(score).slices.len() && at_position(old(score).slices@[k], new_rhythmic_position);
            let slice = final(score).slices@[k];
            &&& *final(slice_index) == k
            &&& k < final(score).slices.len()
            &&& at_position(slice, new_rhythmic_position)
            &&& final(score).staves@[staff_index as int].objects@ == old(score).staves@[staff_index as int].objects@.insert(
                object_index as int,
                with_address(rhythmic_object(object_type, slice.address), address),
            )
            &&& if existing {
                &&& final(score).slices.len() == old(score).slices.len()
                &&& forall|m: int| 0 <= m < old(score).slices.len() && m != k ==> #[trigger] final(score).slices@[m]
                    == old(score).slices@[m]
                &&& slice.address == old(score).slices@[k].address
            } else {
                &&& final(score).slices@.remove(k) == old(score).slices@
                &&& !old(score).slice_live(slice.address as int)
            }
        }),
        final(score).staves.len() == old(score).staves.len(),
        forall|t: int| 0 <= t < old(score).staves.len() && t != staff_index ==> #[trigger] final(score).staves@[t]
            == old(score).staves@[t],
        crate::staff::same_staff_settings(&final(score).staves@[staff_index as int], &old(score).staves@[staff_index as int]),
        final(score).ghost_cursor == old(score).ghost_cursor,
        forall|b: int| old(score).slice_live(b) ==> #[trigger] final(score).slice_live(b)
            && final(score).slice_of(b).rhythmic_position == old(score).slice_of(b).rhythmic_position,
{
    let ghost old_score = *score;
    let (found_index, existing) = find_rhythmic_slice(score, *slice_index, &new_rhythmic_position);
    *slice_index = found_index;
    let mut slice_address: usize = 0;
    if existing {
        slice_address = score.slices[found_index].address;
    }
    if !existing {
        slice_address = insert_slice(score, *slice_index, Some(new_rhythmic_position));
    }
    let ghost before = *score;
    let address = insert_slice_object(
        slice_addresses_to_respace,
        score,
        staff_index,
        Object {
            object_type: object_type,
            address: 0,
            slice_address: Some(slice_address),
            distance_to_next_slice: 0,
            is_selected: false,
            is_valid_cursor_position: true,
        },
        object_index,
        *slice_index,
    );
    proof {
        assert(crate::system::slice_addresses(score.slices@) =~= crate::system::slice_addresses(before.slices@));
        assert forall|b: int| before.slice_live(b) implies #[trigger] score.slice_live(b)
            && score.slice_of(b).rhythmic_position == before.slice_of(b).rhythmic_position by {
            let m = before.slice_indices@[b] as int;
            assert(crate::system::slice_addresses(before.slices@)[m] == b);
        }
    }
    address
}

/// A duration of `2^log2_duration` whole notes with `augmentation_dot_count`
/// dots, short enough that its length's denominator divides `2^30`.
pub open spec fn duration_fits(log2_duration: i8, augmentation_dot_count: u8) -> bool {
    &&& -32 < log2_duration < 32
    &&& augmentation_dot_count + (if log2_duration < 0 { -log2_duration } else { 0int }) <= 30
}

/// Whether a duration of `2^log2_duration` whole notes with
/// `augmentation_dot_count` dots is short enough to enter (see
/// `duration_fits`).
pub fn duration_in_range(log2_duration: i8, augmentation_dot_count: u8) -> (fits: bool)
    ensures
        fits == duration_fits(log2_duration, augmentation_dot_count),
{
    if log2_duration <= -32 || log2_duration >= 32 {
        return false;
    }
    let shift: u8 = if log2_duration < 0 {
        (0 - log2_duration) as u8
    } else {
        0
    };
    augmentation_dot_count as u16 + shift as u16 <= 30
}

/// The denominator of a fitting duration's length divides `2^30`.
pub proof fn lemma_duration_den_divides(log2_duration: i8, augmentation_dot_count: u8)
    requires
        duration_fits(log2_duration, augmentation_dot_count),
    ensures
        divides(whole_notes_long_den(log2_duration as int, augmentation_dot_count as nat), two_to(30) as int),
{
    let dots = augmentation_dot_count as nat;
    let shift: nat = if log2_duration < 0 { (-log2_duration) as nat } else { 0 };
    lemma_two_to_adds(dots, shift);
    lemma_two_to_adds(0, 0);
    assert(two_to(0) == 1);
    assert(whole_notes_long_den(log2_duration as int, dots) == two_to(dots + shift));
    let e = dots + shift;
    lemma_two_to_adds(e, (30 - e) as nat);
    assert(e + (30 - e) as nat == 30);
    lemma_two_to_adds((30 - e) as nat, 0);
    lemma_divides_self(two_to(e) as int);
    lemma_divides_multiple(two_to(e) as int, two_to(e) as int, two_to((30 - e) as nat) as int);
}

/// The rhythmic position a duration ends at: `position` plus the length of
/// a duration of `2^log2_duration` whole notes with `augmentation_dot_count`
/// dots.
pub fn duration_end(position: &WholeNotes, log2_duration: i8, augmentation_dot_count: u8) -> (end: WholeNotes)
    requires
        position_wf(*position),
        duration_fits(log2_duration, augmentation_dot_count),
    ensures
        position_wf(end),
        rat_eq(
            end.num(),
            end.den(),
            position.num() * whole_notes_long_den(log2_duration as int, augmentation_dot_count as nat)
                + whole_notes_long_num(log2_duration as int, augmentation_dot_count as nat) * position.den(),
            position.den() * whole_notes_long_den(log2_duration as int, augmentation_dot_count as nat),
        ),
{
    let length = whole_notes_long(log2_duration, augmentation_dot_count);
    let end = ratio_add(position, &length);
    proof {
        let wn = whole_notes_long_num(log2_duration as int, augmentation_dot_count as nat);
        let wd = whole_notes_long_den(log2_duration as int, augmentation_dot_count as nat);
        lemma_duration_den_divides(log2_duration, augmentation_dot_count);
        lemma_divides_transitive(length.den(), wd, two_to(30) as int);
        assert(divides(end.den(), two_to(30) as int));
        assert(rat_eq(position.num(), position.den(), position.num(), position.den()));
        lemma_rat_add_congruent(position.num(), position.den(), length.num(), length.den(), position.num(), position.den(), wn, wd);
        assert(position.den() * length.den() > 0) by (nonlinear_arith)
            requires
                position.den() > 0,
                length.den() > 0,
        ;
        lemma_rat_eq_transitive(
            end.num(),
            end.den(),
            position.num() * length.den() + length.num() * position.den(),
            position.den() * length.den(),
            position.num() * wd + wn * position.den(),
            position.den() * wd,
        );
    }
    end
}

/// Where a duration goes: the object it replaces, that object's slice, and
/// the rhythmic position at which the duration ends.
pub struct DurationInsertionInfo {
    pub duration_object_index: usize,
    pub duration_slice_index: usize,
    pub duration_end_rhythmic_position: WholeNotes,
}

/// The insertion point is sound for staff `staff_index`: the object at it
/// is aligned to a slice with a rhythmic position, it is neither an
/// accidental nor a note with one, no accidental stands before it, and the
/// end position is that slice's position plus the duration's length.
pub open spec fn insertion_info_wf(
    score: Score,
    staff_index: int,
    info: DurationInsertionInfo,
    log2_duration: i8,
    augmentation_dot_count: u8,
) -> bool {
    let objects = score.staves@[staff_index].objects@;
    let i = info.duration_object_index as int;
    let k = info.duration_slice_index as int;
    &&& i < objects.len()
    &&& k < score.slices.len()
    &&& objects[i].slice_address == Some(score.slices@[k].address)
    &&& score.slices@[k].rhythmic_position is Some
    &&& unlinked(objects[i])
    &&& insertion_keeps_links(objects, i)
    &&& position_wf(info.duration_end_rhythmic_position)
    &&& ({
        let p = score.slices@[k].rhythmic_position->0;
        let end = info.duration_end_rhythmic_position;
        rat_eq(
            end.num(),
            end.den(),
            p.num() * whole_notes_long_den(log2_duration as int, augmentation_dot_count as nat)
                + whole_notes_long_num(log2_duration as int, augmentation_dot_count as nat) * p.den(),
            p.den() * whole_notes_long_den(log2_duration as int, augmentation_dot_count as nat),
        )
    })
}

/// The object at `cursor` of staff `s` of `score` lies at or after the end
/// of a duration of `2^log2_duration` whole notes with
/// `augmentation_dot_count` dots that starts where the object at `f` of
/// that staff of `old_score` lies, and rests fill the time from that end up
/// to it.
pub open spec fn past_written_duration(
    old_score: Score,
    score: Score,
    s: int,
    f: int,
    cursor: int,
    log2_duration: i8,
    augmentation_dot_count: u8,
) -> bool {
    let p = old_score.slice_of(old_score.staves@[s].objects@[f].slice_address->0 as int).rhythmic_position->0;
    let n = whole_notes_long_num(log2_duration as int, augmentation_dot_count as nat);
    let d = whole_notes_long_den(log2_duration as int, augmentation_dot_count as nat);
    exists|end: WholeNotes|
        rat_eq(end.num(), end.den(), p.num() * d + n * p.den(), p.den() * d) && #[trigger] lies_at_or_after(score, s, cursor, end)
            && rests_fill_gap(score, s, cursor, end)
}

/// The position of the first object from `i` on that lies on a slice with
/// a rhythmic position, when only accidentals and barlines come before it;
/// -1 when another object comes first or the staff ends.
#[verifier::opaque]
pub open spec fn first_rhythmic_passing(score: Score, objects: Seq<Object>, i: int) -> int
    decreases objects.len() - i,
{
    if i < 0 || i >= objects.len() {
        -1
    } else if slice_position(score, objects[i]) is Some {
        i
    } else if objects[i].object_type is Accidental || objects[i].object_type is Barline {
        first_rhythmic_passing(score, objects, i + 1)
    } else {
        -1
    }
}

/// The result of `first_rhythmic_passing` lies from `i` on.
proof fn lemma_first_rhythmic_passing_bounds(score: Score, objects: Seq<Object>, i: int)
    requires
        0 <= i,
    ensures
        first_rhythmic_passing(score, objects, i) == -1 || i <= first_rhythmic_passing(score, objects, i) < objects.len(),
    decreases objects.len() - i,
{
    reveal(first_rhythmic_passing);
    if i < objects.len() && slice_position(score, objects[i]) is None && (objects[i].object_type is Accidental
        || objects[i].object_type is Barline) {
        lemma_first_rhythmic_passing_bounds(score, objects, i + 1);
    }
}

/// Make room for a duration at the cursor: from the cursor's object on,
/// remove every object (accidentals and barlines stay) up to the first one
/// aligned to a slice with a rhythmic position; that object (its accidental
/// removed, and a valid cursor position again) is where the duration goes. Returns nothing when the staff ends,
/// or its address table is full, before such an object.
pub fn prepare_duration_insertion(
    slice_addresses_to_respace: &mut Vec<usize>,
    score: &mut Score,
    cursor_address: &SystemAddress,
    log2_duration: i8,
    augmentation_dot_count: u8,
) -> (info: Option<DurationInsertionInfo>)
    requires
        old(score).wf(),
        cursor_address.staff_index < old(score).staves.len(),
        object_live(old(score).staves@[cursor_address.staff_index as int], cursor_address.object_address as int),
        duration_fits(log2_duration, augmentation_dot_count),
    ensures
        final(score).wf(),
        final(score).staves.len() == old(score).staves.len(),
        forall|t: int| 0 <= t < old(score).staves.len() && t != cursor_address.staff_index ==> #[trigger] final(score).staves@[t]
            == old(score).staves@[t],
        crate::staff::same_staff_settings(
            &final(score).staves@[cursor_address.staff_index as int],
            &old(score).staves@[cursor_address.staff_index as int],
        ),
        final(score).ghost_cursor == old(score).ghost_cursor || final(score).ghost_cursor is None,
        info matches Some(info) ==> insertion_info_wf(
            *final(score),
            cursor_address.staff_index as int,
            info,
            log2_duration,
            augmentation_dot_count,
        ),
        ({
            let s = cursor_address.staff_index as int;
            let objects = old(score).staves@[s].objects@;
            let f = first_rhythmic_passing(*old(score), objects, old(score).staves@[s].object_indices@[cursor_address.object_address as int] as int);
            let ip = if note_accidental_address(objects[f]) is Some { f - 1 } else { f };
            let staff = final(score).staves@[s];
            f >= 0 ==> (info matches Some(info) && {
                &&& info.duration_object_index == ip
                &&& staff.object_indices@[objects[f].address as int] == ip
                &&& object_live(staff, objects[f].address as int)
                &&& staff.objects@[ip] == if note_accidental_address(objects[f]) is Some {
                    crate::staff::with_note_link(objects[f], None, true)
                } else {
                    objects[f]
                }
                &&& staff.objects@.subrange(0, ip) == objects.subrange(0, ip)
                &&& info.duration_slice_index == old(score).slice_indices@[objects[f].slice_address->0 as int]
                &&& final(score).slice_indices@ == old(score).slice_indices@
                &&& final(score).slices@ == old(score).slices@
                &&& staff.object_indices.len() == old(score).staves@[s].object_indices.len()
                &&& staff.objects.len() <= objects.len()
            })
        }),
        info is None ==> ({
            let staff = final(score).staves@[cursor_address.staff_index as int];
            ||| slice_position(*final(score), staff.objects@.last()) is None
            ||| staff.object_indices.len() + staff.objects.len() >= usize::MAX
        }),
{
    let ghost old_score = *score;
    let staff_index = cursor_address.staff_index;
    let ghost s = staff_index as int;
    let mut object_index = score.staves[staff_index].object_indices[cursor_address.object_address];
    let ghost first = object_index;
    proof {
        reveal(first_rhythmic_passing);
        lemma_first_rhythmic_passing_bounds(old_score, old_score.staves@[s].objects@, first as int);
    }
    loop
        invariant
            score.wf(),
            old_score == *old(score),
            s == staff_index,
            staff_index == cursor_address.staff_index,
            s < score.staves.len(),
            score.staves.len() == old_score.staves.len(),
            forall|t: int| 0 <= t < old_score.staves.len() && t != s ==> #[trigger] score.staves@[t] == old_score.staves@[t],
            crate::staff::same_staff_settings(&score.staves@[s], &old_score.staves@[s]),
            score.ghost_cursor == old_score.ghost_cursor || score.ghost_cursor is None,
            duration_fits(log2_duration, augmentation_dot_count),
            object_index >= score.staves@[s].objects.len() ==> slice_position(*score, score.staves@[s].objects@.last())
                is None,
            first_rhythmic_passing(old_score, old_score.staves@[s].objects@, first as int) == -1 || first
                <= first_rhythmic_passing(old_score, old_score.staves@[s].objects@, first as int)
                < old_score.staves@[s].objects.len(),
            first == old_score.staves@[s].object_indices@[cursor_address.object_address as int],
            ({
                let f = first_rhythmic_passing(old_score, old_score.staves@[s].objects@, first as int);
                f >= 0 ==> (*score == old_score && first <= object_index <= f && first_rhythmic_passing(
                    old_score,
                    old_score.staves@[s].objects@,
                    object_index as int,
                ) == f)
            }),
        decreases display_entries(score.staves@[s].objects@).len(), score.staves@[s].objects.len() - object_index,
    {
        let ghost before = *score;
        let ghost objects = score.staves@[s].objects@;
        proof {
            assert(before.staves@[s].wf());
            reveal(first_rhythmic_passing);
        }
        if object_index >= score.staves[staff_index].objects.len() {
            return None;
        }
        if let Some(slice_address) = score.staves[staff_index].objects[object_index].slice_address {
            proof {
                assert(before.staves@[s].objects@[object_index as int].slice_address is Some);
                assert(before.slice_live(slice_address as int));
                assert(crate::system::slice_addresses(before.slices@)[before.slice_indices@[slice_address as int] as int]
                    == slice_address);
            }
            let slice_index = score.slice_indices[slice_address];
            if let Some(rhythmic_position) = &score.slices[slice_index].rhythmic_position {
                proof {
                    assert(before.slices@[slice_index as int].rhythmic_position is Some);
                }
                let end = duration_end(rhythmic_position, log2_duration, augmentation_dot_count);
                proof {
                    let objects = score.staves@[s].objects@;
                    assert(objects[objects.len() - 1].slice_address is Some);
                }
                let next = next_slice_address(&score.staves[staff_index], object_index);
                push_if_not_present(slice_addresses_to_respace, next);
                let mut accidental_address: Option<usize> = None;
                if let ObjectType::Duration { pitch: Some(note_pitch), .. } = &score.staves[staff_index].objects[object_index].object_type {
                    accidental_address = note_pitch.accidental_address;
                }
                proof {
                    assert(accidental_address is Some <==> note_accidental_address(objects[object_index as int]) is Some);
                    assert(accidental_note_address(objects[object_index as int]) is None);
                }
                if let Some(accidental_address) = accidental_address {
                    proof {
                        assert(objects[object_index - 1].address == accidental_address);
                        assert(object_addresses(objects)[object_index - 1] == accidental_address);
                    }
                    let accidental_index = score.staves[staff_index].object_indices[accidental_address];
                    remove_accidental_object(slice_addresses_to_respace, score, staff_index, accidental_index);
                    object_index = object_index - 1;
                    let ghost unlinked_score = *score;
                    proof {
                        assert(unlinked_score.staves@[s].wf());
                        assert(note_pitch_of(unlinked_score.staves@[s].objects@[object_index as int]) is Some);
                    }
                    crate::staff::set_note_link(&mut score.staves[staff_index], object_index, None, true);
                    proof {
                        crate::staff::lemma_same_links_update(unlinked_score.staves@[s], score.staves@[s], object_index as int);
                        lemma_staff_change_keeps_score_wf(unlinked_score, *score, s);
                    }
                    proof {
                        let new_objects = score.staves@[s].objects@;
                        assert(new_objects[object_index as int] == crate::staff::with_note_link(objects[object_index + 1], None, true));
                        assert(score.staves@[s].wf());
                        assert(object_addresses(new_objects)[object_index as int] == objects[object_index + 1].address);
                        if object_index > 0 {
                            if accidental_note_address(new_objects[object_index - 1]) is Some {
                                assert(note_accidental_address(new_objects[object_index as int]) is Some);
                            }
                        }
                    }
                } else {
                    proof {
                        if object_index > 0 {
                            if accidental_note_address(objects[object_index - 1]) is Some {
                                assert(note_accidental_address(objects[object_index as int]) is Some);
                            }
                        }
                    }
                }
                proof {
                    let new_objects = score.staves@[s].objects@;
                    assert(object_addresses(new_objects)[object_index as int] == new_objects[object_index as int].address);
                    assert(object_addresses(objects)[object_index as int] == objects[object_index as int].address);
                    assert(new_objects.subrange(0, object_index as int) =~= objects.subrange(0, object_index as int));
                }
                return Some(DurationInsertionInfo {
                    duration_object_index: object_index,
                    duration_slice_index: slice_index,
                    duration_end_rhythmic_position: end,
                });
            }
        }
        let mut skip = false;
        match &score.staves[staff_index].objects[object_index].object_type {
            ObjectType::Accidental { .. } => {
                skip = true;
            },
            ObjectType::Barline { .. } => {
                skip = true;
            },
            _ => {},
        }
        proof {
            reveal(first_rhythmic_passing);
            assert(slice_position(*score, objects[object_index as int]) is None);
            if *score == old_score {
                if skip {
                    assert(first_rhythmic_passing(old_score, objects, object_index as int) == first_rhythmic_passing(
                        old_score,
                        objects,
                        object_index + 1,
                    ));
                    lemma_first_rhythmic_passing_bounds(old_score, objects, object_index + 1);
                } else {
                    assert(first_rhythmic_passing(old_score, objects, object_index as int) == -1);
                }
            }
        }
        if skip {
            object_index = object_index + 1;
            proof {
                assert(score.staves@[s].objects@ == objects);
            }
        } else {
            if object_index + 1 >= score.staves[staff_index].objects.len() {
                return None;
            }
            if score.staves[staff_index].object_indices.len() >= usize::MAX - score.staves[staff_index].objects.len() {
                return None;
            }
            let removal_count = remove_object(slice_addresses_to_respace, score, staff_index, object_index);
            proof {
                assert(accidental_note_address(objects[object_index as int]) is None);
                if removal_count >= 1 {
                    lemma_removal_reduces_entries(
                        objects,
                        score.staves@[s].objects@,
                        object_index as int,
                        removal_count as int,
                    );
                }
            }
            object_index = object_index + 1 - removal_count;
            if object_index >= score.staves[staff_index].objects.len() {
                object_index = score.staves[staff_index].objects.len() - 1;
            }
        }
    }
}

/// Whether the staff's address table and the slice table each have room for
/// one more address.
pub fn tables_have_room(score: &Score, staff_index: usize) -> (room: bool)
    requires
        staff_index < score.staves.len(),
    ensures
        room == (staff_has_room(score.staves@[staff_index as int], 1) && score.slice_indices.len() + 1 < usize::MAX
            && score.staves@[staff_index as int].object_indices.len() + score.staves@[staff_index as int].objects.len()
            < usize::MAX),
{
    let staff = &score.staves[staff_index];
    staff.object_indices.len() < usize::MAX - 1 && score.slice_indices.len() < usize::MAX - 1
        && staff.object_indices.len() < usize::MAX - staff.objects.len()
}

/// A positive divisor of a positive number is at most that number.
proof fn lemma_divisor_bound(d: int, m: int)
    requires
        divides(d, m),
        m > 0,
    ensures
        d <= m,
{
    if d > m {
        vstd::arithmetic::div_mod::lemma_small_mod(m as nat, d as nat);
    }
}

/// The object at `address` of the staff, or the note after it when it is an
/// accidental.
pub open spec fn aligned_object(staff: Staff, address: int) -> Object {
    let object = object_at(staff, address);
    match accidental_note_address(object) {
        Some(note) => object_at(staff, note as int),
        None => object,
    }
}

/// The rhythmic position of the slice the object lies on, if it lies on one
/// that has a rhythmic position.
pub open spec fn slice_position(score: Score, object: Object) -> Option<WholeNotes> {
    match object.slice_address {
        Some(b) => score.slice_of(b as int).rhythmic_position,
        None => None,
    }
}

/// The object at `address` of staff `s`, or the note after it when it is an
/// accidental, lies on a slice whose rhythmic position is not before `end`.
pub open spec fn lies_at_or_after(score: Score, s: int, address: int, end: WholeNotes) -> bool {
    let staff = score.staves@[s];
    let object = object_at(staff, address);
    let aligned = aligned_object(staff, address);
    &&& accidental_note_address(object) matches Some(note) ==> object_live(staff, note as int)
    &&& match aligned.slice_address {
        Some(b) => score.slice_live(b as int) && match score.slice_of(b as int).rhythmic_position {
            Some(p) => !rat_lt(p.num(), p.den(), end.num(), end.den()),
            None => false,
        },
        None => false,
    }
}

/// `gap_num / gap_den` is the time from `end` to the rhythmic position of
/// the slice that the object at `address` of staff `s` (or the note after
/// it, when it is an accidental) lies on.
pub open spec fn gap_is(score: Score, s: int, address: int, end: WholeNotes, gap_num: int, gap_den: int) -> bool {
    match slice_position(score, aligned_object(score.staves@[s], address)) {
        Some(p) => rat_eq(gap_num, gap_den, p.num() * end.den() - end.num() * p.den(), p.den() * end.den()),
        None => false,
    }
}

/// The object is a rest of `2^e` whole notes without dots.
pub open spec fn is_rest_of(object: Object, e: int) -> bool {
    match object.object_type {
        ObjectType::Duration { pitch: None, log2_duration, augmentation_dot_count } => log2_duration == e
            && augmentation_dot_count == 0,
        _ => false,
    }
}

/// Right before position `c` of the objects stand rests of `2^e` whole notes
/// for each `e` of `exponents`, in order.
pub open spec fn rests_before(objects: Seq<Object>, c: int, exponents: Seq<int>) -> bool {
    &&& exponents.len() <= c <= objects.len()
    &&& forall|j: int| 0 <= j < exponents.len() ==> is_rest_of(#[trigger] objects[c - exponents.len() + j], exponents[j])
}

/// Right before the object at `address` of staff `s` stand the rests that
/// fill the time from `end` to the slice it (or the note after it, when it
/// is an accidental) lies on, longest first (see `rest_exponents`; the time
/// is written as a fraction whose denominator divides `2^30`).
pub open spec fn rests_fill_gap(score: Score, s: int, address: int, end: WholeNotes) -> bool {
    let staff = score.staves@[s];
    exists|n: nat, d: nat|
        {
            &&& d > 0
            &&& divides(d as int, two_to(30) as int)
            &&& gap_is(score, s, address, end, n as int, d as int)
            &&& #[trigger] rests_before(staff.objects@, staff.object_indices@[address] as int, rest_exponents(n, d, 0))
        }
}

/// The object at `address` of `new_staff` is that of `old_staff`, up to
/// its link to an accidental and whether it is a cursor position.
pub open spec fn keeps_object(old_staff: Staff, new_staff: Staff, address: int) -> bool {
    &&& object_live(new_staff, address)
    &&& crate::staff::with_note_link(object_at(new_staff, address), None, true) == crate::staff::with_note_link(
        object_at(old_staff, address),
        None,
        true,
    )
}

/// Removing an object at another address keeps the object at `kept`.
proof fn lemma_removal_keeps_kept(old_staff: Staff, before: Staff, after: Staff, idx: int, removal_count: int, kept: int)
    requires
        before.wf(),
        after.wf(),
        0 <= idx,
        idx + 1 < before.objects.len(),
        accidental_note_address(before.objects@[idx]) is None,
        before.objects@[idx].address != kept,
        crate::removal::object_removal_result(before.objects@, after.objects@, idx, removal_count),
        keeps_object(old_staff, before, kept),
        accidental_note_address(object_at(old_staff, kept)) is None,
    ensures
        keeps_object(old_staff, after, kept),
{
    let i = before.object_indices@[kept] as int;
    assert(object_addresses(before.objects@)[i] == kept);
    assert(object_at(before, kept) == before.objects@[i]);
    lemma_removal_keeps_object(before.objects@, after.objects@, idx, removal_count, i);
    let j = choose|j: int|
        0 <= j < after.objects.len() && #[trigger] crate::staff::with_note_link(after.objects@[j], None, true)
            == crate::staff::with_note_link(before.objects@[i], None, true);
    crate::content::lemma_found_object_live(before.objects@[i], after, j);
}

/// Inserting an object keeps the object at `kept`.
proof fn lemma_insert_keeps_kept(old_staff: Staff, before: Staff, after: Staff, idx: int, kept: int)
    requires
        before.table_wf(),
        after.table_wf(),
        0 <= idx <= before.objects.len(),
        after.objects@ == before.objects@.insert(idx, after.objects@[idx]),
        keeps_object(old_staff, before, kept),
    ensures
        keeps_object(old_staff, after, kept),
{
    lemma_insert_keeps_live(before, after, idx, after.objects@[idx].address);
}

/// Removing an object other than the one at `i`, itself no accidental,
/// keeps the object at `i`, up to its link to an accidental and whether it
/// is a cursor position.
#[verifier::rlimit(30)]
proof fn lemma_removal_keeps_object(objects: Seq<Object>, new_objects: Seq<Object>, idx: int, removal_count: int, i: int)
    requires
        0 <= idx,
        idx + 1 < objects.len(),
        0 <= i < objects.len(),
        i != idx,
        crate::staff::accidental_links_wf(objects),
        accidental_note_address(objects[idx]) is None,
        accidental_note_address(objects[i]) is None,
        crate::removal::object_removal_result(objects, new_objects, idx, removal_count),
    ensures
        exists|j: int|
            0 <= j < new_objects.len() && #[trigger] crate::staff::with_note_link(new_objects[j], None, true)
                == crate::staff::with_note_link(objects[i], None, true),
{
    let object = objects[idx];
    if crate::removal::is_header_clef(object) {
        assert(crate::staff::with_note_link(new_objects[i], None, true) == crate::staff::with_note_link(objects[i], None, true));
    } else if note_pitch_of(object) is Some || object.object_type is KeySig {
        let first = idx + 1 - removal_count;
        if note_accidental_address(object) is Some {
            assert(accidental_note_address(objects[idx - 1]) is Some);
        }
        let w = crate::removal::without_run(objects, first, idx);
        let k = if i < first { i } else { i - (idx - first + 1) };
        assert(w[k] == objects[i]);
        let start = crate::staff::last_key_sig_before(w, first) + 1;
        crate::accidentals::lemma_last_key_sig_before(w, first);
        let key = crate::accidentals::previous_key_accidentals(w, first);
        let (stop, found_key_sig) = choose|stop: int, found_key_sig: bool| #[trigger] crate::accidentals::staff_displays_reset(
            w,
            new_objects,
            start,
            stop,
            found_key_sig,
            key,
        );
        crate::content::lemma_reset_keeps_object(w, new_objects, start, stop, found_key_sig, key, k);
    } else {
        assert(new_objects == objects.remove(idx));
        let j = if i < idx { i } else { i - 1 };
        assert(new_objects[j] == objects[i]);
        assert(crate::staff::with_note_link(new_objects[j], None, true) == crate::staff::with_note_link(objects[i], None, true));
    }
}

/// Removing an object before the last one leaves the last object on the
/// slice it was on.
#[verifier::rlimit(60)]
proof fn lemma_removal_keeps_last_slice(objects: Seq<Object>, new_objects: Seq<Object>, idx: int, removal_count: int)
    requires
        0 <= idx,
        idx + 1 < objects.len(),
        crate::staff::accidental_links_wf(objects),
        new_objects.len() > 0,
        accidental_note_address(new_objects.last()) is None,
        crate::removal::object_removal_result(objects, new_objects, idx, removal_count),
    ensures
        new_objects.last().slice_address == objects.last().slice_address,
{
    let object = objects[idx];
    let last = objects.len() - 1;
    assert(accidental_note_address(objects[last]) is None);
    if crate::removal::is_header_clef(object) {
    } else if object.object_type is Accidental {
        let updated = objects.update(idx + 1, crate::staff::unlinked_note(objects[idx + 1]));
        assert(new_objects == updated.remove(idx));
        assert(new_objects.last() == updated[last]);
    } else if note_pitch_of(object) is Some || object.object_type is KeySig {
        let first = idx + 1 - removal_count;
        let w = crate::removal::without_run(objects, first, idx);
        assert(w.last() == objects.last());
        let start = crate::staff::last_key_sig_before(w, first) + 1;
        crate::accidentals::lemma_last_key_sig_before(w, first);
        let key = crate::accidentals::previous_key_accidentals(w, first);
        let (stop, found_key_sig) = choose|stop: int, found_key_sig: bool| #[trigger] crate::accidentals::staff_displays_reset(
            w,
            new_objects,
            start,
            stop,
            found_key_sig,
            key,
        );
        let ks = crate::accidentals::first_key_sig_from(w, start);
        crate::accidentals::lemma_first_key_sig_bounds(w, start);
        let tail = new_objects.subrange(stop, new_objects.len() as int);
        if ks < w.len() {
            assert(tail.last() == new_objects.last());
            assert(w.subrange(ks, w.len() as int).last() == w.last());
        } else {
            assert(tail.len() == 0);
            let region = new_objects.subrange(start, stop);
            let old_region = w.subrange(start, w.len() as int);
            assert(old_region.last() == objects.last());
            assert(old_region.drop_last() =~= w.subrange(start, w.len() - 1));
            let old_entries = display_entries(old_region);
            assert(old_entries == display_entries(old_region.drop_last()).push(
                crate::accidentals::display_entry(objects.last()),
            ));
            assert(crate::accidentals::entry_objects(old_entries).len() > 0);
            if region.len() == 0 {
                assert(display_entries(region) =~= Seq::<crate::accidentals::DisplayEntry>::empty());
                assert(false);
            }
            assert(region.last() == new_objects.last());
            let entries = display_entries(region);
            assert(entries == display_entries(region.drop_last()).push(crate::accidentals::display_entry(new_objects.last())));
            let n = entries.len() - 1;
            assert(crate::accidentals::entry_objects(entries)[n] == crate::accidentals::entry_objects(old_entries)[n]);
        }
    } else {
        assert(new_objects == objects.remove(idx));
        assert(new_objects.last() == objects[last]);
    }
}

/// Inserting an object into the staff, with the live slices keeping their
/// rhythmic positions, keeps an object that lies at or after `end` there.
proof fn lemma_insert_keeps_lying_at_or_after(
    old_score: Score,
    new_score: Score,
    s: int,
    idx: int,
    address: int,
    end: WholeNotes,
)
    requires
        old_score.staves@[s].table_wf(),
        new_score.staves@[s].table_wf(),
        0 <= idx <= old_score.staves@[s].objects.len(),
        new_score.staves@[s].objects@ == old_score.staves@[s].objects@.insert(idx, new_score.staves@[s].objects@[idx]),
        object_live(old_score.staves@[s], address),
        lies_at_or_after(old_score, s, address, end),
        forall|b: int| old_score.slice_live(b) ==> #[trigger] new_score.slice_live(b)
            && new_score.slice_of(b).rhythmic_position == old_score.slice_of(b).rhythmic_position,
    ensures
        object_live(new_score.staves@[s], address),
        lies_at_or_after(new_score, s, address, end),
        slice_position(new_score, aligned_object(new_score.staves@[s], address)) == slice_position(
            old_score,
            aligned_object(old_score.staves@[s], address),
        ),
{
    lemma_insert_keeps_live(old_score.staves@[s], new_score.staves@[s], idx, new_score.staves@[s].objects@[idx].address);
}

/// An object on a slice at `end` has no time to fill before it.
proof fn lemma_no_gap(score: Score, s: int, address: int, end: WholeNotes)
    requires
        0 <= score.staves@[s].object_indices@[address] <= score.staves@[s].objects.len(),
        slice_position(score, aligned_object(score.staves@[s], address)) matches Some(p) && rat_eq(
            p.num(),
            p.den(),
            end.num(),
            end.den(),
        ),
    ensures
        rests_fill_gap(score, s, address, end),
{
    let staff = score.staves@[s];
    assert(rest_exponents(0, 1, 0) =~= Seq::<int>::empty()) by {
        reveal_with_fuel(rest_exponents, 2);
    }
    lemma_divides_self(1);
    crate::rhythm::lemma_two_to_adds(30, 0);
    lemma_divides_multiple(1, 1, two_to(30) as int);
    assert(rests_before(staff.objects@, staff.object_indices@[address] as int, rest_exponents(0, 1, 0)));
    assert(gap_is(score, s, address, end, 0, 1));
}

/// Make the time after a duration that ends at `end` fit: from
/// `object_index` on, the objects it overlaps go (accidentals and barlines
/// stay) up to the first one aligned to a slice at or after `end`; rests
/// fill the time from `end` to that object's slice (placed before the
/// object's accidental, if it has one), their slices searched for from
/// `slice_index` on. When the staff ends first, a new end object is placed
/// at `end`. Returns the address of the object the cursor moves to: that
/// object (its accidental, if it has one) or the new end object, which lies
/// at or after `end` with the rests right before it; nothing when a table
/// is full.
pub fn fill_after_duration(
    slice_addresses_to_respace: &mut Vec<usize>,
    score: &mut Score,
    staff_index: usize,
    object_index: usize,
    slice_index: usize,
    end: WholeNotes,
    kept_address: usize,
) -> (new_cursor_address: Option<usize>)
    requires
        old(score).wf(),
        staff_index < old(score).staves.len(),
        position_wf(end),
        object_live(old(score).staves@[staff_index as int], kept_address as int),
        accidental_note_address(object_at(old(score).staves@[staff_index as int], kept_address as int)) is None,
    ensures
        keeps_object(old(score).staves@[staff_index as int], final(score).staves@[staff_index as int], kept_address as int),
        final(score).wf(),
        final(score).staves.len() == old(score).staves.len(),
        forall|t: int| 0 <= t < old(score).staves.len() && t != staff_index ==> #[trigger] final(score).staves@[t]
            == old(score).staves@[t],
        crate::staff::same_staff_settings(&final(score).staves@[staff_index as int], &old(score).staves@[staff_index as int]),
        final(score).ghost_cursor == old(score).ghost_cursor || final(score).ghost_cursor is None,
        new_cursor_address matches Some(a) ==> object_live(final(score).staves@[staff_index as int], a as int)
            && lies_at_or_after(*final(score), staff_index as int, a as int, end) && rests_fill_gap(
            *final(score),
            staff_index as int,
            a as int,
            end,
        ),
        new_cursor_address is None ==> !crate::editor::staff_tables_have_room(*final(score), staff_index as int),
{
    let ghost old_score = *score;
    let ghost s = staff_index as int;
    let ghost target = end;
    let mut object_index = object_index;
    let mut slice_index = slice_index;
    let mut found: Option<(usize, usize, WholeNotes)> = None;
    loop
        invariant_except_break
            found is None,
        invariant
            score.wf(),
            old_score == *old(score),
            s == staff_index,
            s < score.staves.len(),
            score.staves.len() == old_score.staves.len(),
            forall|t: int| 0 <= t < old_score.staves.len() && t != s ==> #[trigger] score.staves@[t] == old_score.staves@[t],
            crate::staff::same_staff_settings(&score.staves@[s], &old_score.staves@[s]),
            score.ghost_cursor == old_score.ghost_cursor || score.ghost_cursor is None,
            position_wf(end),
            target == end,
            keeps_object(old_score.staves@[s], score.staves@[s], kept_address as int),
            accidental_note_address(object_at(old_score.staves@[s], kept_address as int)) is None,
        ensures
            score.wf(),
            s < score.staves.len(),
            score.staves.len() == old_score.staves.len(),
            forall|t: int| 0 <= t < old_score.staves.len() && t != s ==> #[trigger] score.staves@[t] == old_score.staves@[t],
            crate::staff::same_staff_settings(&score.staves@[s], &old_score.staves@[s]),
            score.ghost_cursor == old_score.ghost_cursor || score.ghost_cursor is None,
            position_wf(end),
            target == end,
            keeps_object(old_score.staves@[s], score.staves@[s], kept_address as int),
            found is Some,
            found matches Some(stop) ==> {
                let objects = score.staves@[s].objects@;
                &&& stop.0 <= objects.len()
                &&& object_live(score.staves@[s], stop.1 as int)
                &&& insertion_keeps_links(objects, stop.0 as int)
                &&& stop.2.wf()
                &&& divides(stop.2.den(), two_to(30) as int)
                &&& lies_at_or_after(*score, s, stop.1 as int, target)
                &&& score.staves@[s].object_indices@[stop.1 as int] == stop.0
                &&& gap_is(*score, s, stop.1 as int, target, stop.2.num(), stop.2.den())
            },
        decreases display_entries(score.staves@[s].objects@).len(), score.staves@[s].objects.len() - object_index,
    {
        let ghost objects = score.staves@[s].objects@;
        let ghost before = *score;
        proof {
            assert(before.staves@[s].wf());
        }
        let length = score.staves[staff_index].objects.len();
        if object_index >= length {
            if slice_index > score.slices.len() {
                slice_index = score.slices.len();
            }
            if !tables_have_room(score, staff_index) {
                return None;
            }
            proof {
                assert(objects[length - 1].slice_address is Some);
                assert(accidental_note_address(objects[length - 1]) is None);
            }
            let address = insert_rhythmic_slice_object(
                slice_addresses_to_respace,
                score,
                staff_index,
                ObjectType::Blank,
                length,
                &mut slice_index,
                end,
            );
            proof {
                let new_objects = score.staves@[s].objects@;
                assert(crate::staff::object_addresses(new_objects)[length as int] == address);
                assert(score.staves@[s].wf());
                assert(object_at(score.staves@[s], address as int) == new_objects[length as int]);
                let k = slice_index as int;
                assert(crate::system::slice_addresses(score.slices@)[k] == score.slices@[k].address);
                assert(score.slice_of(score.slices@[k].address as int) == score.slices@[k]);
                lemma_no_gap(*score, s, address as int, end);
                lemma_insert_keeps_kept(old_score.staves@[s], before.staves@[s], score.staves@[s], length as int, kept_address as int);
            }
            return Some(address);
        }
        let mut reached = false;
        if let Some(slice_address) = score.staves[staff_index].objects[object_index].slice_address {
            proof {
                assert(before.staves@[s].objects@[object_index as int].slice_address is Some);
                assert(before.slice_live(slice_address as int));
                assert(crate::system::slice_addresses(before.slices@)[before.slice_indices@[slice_address as int] as int]
                    == slice_address);
            }
            let k = score.slice_indices[slice_address];
            if let Some(rhythmic_position) = &score.slices[k].rhythmic_position {
                proof {
                    assert(before.slices@[k as int].rhythmic_position is Some);
                    assert(position_wf(*rhythmic_position));
                }
                if !ratio_less_than(rhythmic_position, &end) {
                    let rest = ratio_sub(rhythmic_position, &end);
                    let object = &score.staves[staff_index].objects[object_index];
                    let mut new_cursor_address = object.address;
                    let mut rest_index = object_index;
                    if let ObjectType::Duration { pitch: Some(note_pitch), .. } = &object.object_type {
                        if let Some(accidental_address) = note_pitch.accidental_address {
                            proof {
                                let objects = score.staves@[s].objects@;
                                assert(note_accidental_address(objects[object_index as int]) is Some);
                                assert(score.staves@[s].wf());
                            }
                            new_cursor_address = accidental_address;
                            rest_index = object_index - 1;
                        }
                    }
                    proof {
                        let objects = score.staves@[s].objects@;
                        let i = object_index as int;
                        assert(crate::staff::object_addresses(objects)[i] == objects[i].address);
                        if note_accidental_address(objects[i]) is Some {
                            assert(i > 0);
                            assert(objects[i - 1].address == new_cursor_address);
                            assert(crate::staff::object_addresses(objects)[i - 1] == new_cursor_address);
                            assert(accidental_note_address(objects[i - 1]) is Some);
                            if i - 1 > 0 {
                                if accidental_note_address(objects[i - 2]) is Some {
                                    assert(note_pitch_of(objects[i - 1]) is Some);
                                }
                            }
                        } else {
                            if i > 0 {
                                if accidental_note_address(objects[i - 1]) is Some {
                                    assert(note_accidental_address(objects[i]) is Some);
                                }
                            }
                        }
                    }
                    found = Some((rest_index, new_cursor_address, rest));
                    reached = true;
                    proof {
                        let staff = score.staves@[s];
                        let objects = staff.objects@;
                        let i = object_index as int;
                        assert(crate::staff::object_addresses(objects)[i] == objects[i].address);
                        assert(object_at(staff, objects[i].address as int) == objects[i]);
                        if note_accidental_address(objects[i]) is Some {
                            assert(crate::staff::object_addresses(objects)[i - 1] == objects[i - 1].address);
                            assert(object_at(staff, new_cursor_address as int) == objects[i - 1]);
                        }
                        assert(score.slice_of(slice_address as int) == score.slices@[k as int]);
                        assert(aligned_object(staff, new_cursor_address as int) == objects[i]);
                    }
                }
            }
        }
        if reached {
            break;
        }
        let mut skip = false;
        match &score.staves[staff_index].objects[object_index].object_type {
            ObjectType::Accidental { .. } => {
                skip = true;
            },
            ObjectType::Barline { .. } => {
                skip = true;
            },
            _ => {},
        }
        if score.staves[staff_index].objects[object_index].address == kept_address {
            skip = true;
        }
        if skip {
            object_index = object_index + 1;
        } else {
            if !tables_have_room(score, staff_index) {
                return None;
            }
            if object_index + 1 >= length {
                if slice_index > score.slices.len() {
                    slice_index = score.slices.len();
                }
                proof {
                    assert(accidental_note_address(objects[length - 1]) is None);
                }
                let ghost unextended = *score;
                insert_rhythmic_slice_object(
                    slice_addresses_to_respace,
                    score,
                    staff_index,
                    ObjectType::Blank,
                    length,
                    &mut slice_index,
                    end,
                );
                let ghost extended = *score;
                proof {
                    assert(unextended.staves@[s].wf());
                    assert(extended.staves@[s].wf());
                    lemma_insert_keeps_kept(old_score.staves@[s], unextended.staves@[s], extended.staves@[s], length as int, kept_address as int);
                }
                if !tables_have_room(score, staff_index) {
                    return None;
                }
                let removal_count = remove_object(slice_addresses_to_respace, score, staff_index, object_index);
                let last = score.staves[staff_index].objects.len() - 1;
                proof {
                    assert(score.staves@[s].wf());
                    assert(extended.staves@[s].wf());
                    let extended_objects = extended.staves@[s].objects@;
                    let new_objects = score.staves@[s].objects@;
                    assert(crate::staff::object_addresses(new_objects)[last as int] == new_objects[last as int].address);
                    let k = slice_index as int;
                    let b = extended.slices@[k].address;
                    assert(extended_objects.last() == extended_objects[length as int]);
                    lemma_removal_keeps_last_slice(extended_objects, new_objects, object_index as int, removal_count as int);
                    assert(crate::system::slice_addresses(extended.slices@)[k] == b);
                    assert(extended.slice_of(b as int) == extended.slices@[k]);
                    assert(extended_objects[object_index as int] == objects[object_index as int]);
                    if extended_objects[object_index as int].slice_address == Some(b) {
                        assert(unextended.slice_live(b as int));
                        assert(extended.slice_of(b as int).rhythmic_position == unextended.slice_of(b as int).rhythmic_position);
                        assert(false);
                    }
                    assert(score.slice_of(b as int) == extended.slice_of(b as int));
                    lemma_no_gap(*score, s, new_objects[last as int].address as int, end);
                    lemma_removal_keeps_kept(
                        old_score.staves@[s],
                        extended.staves@[s],
                        score.staves@[s],
                        object_index as int,
                        removal_count as int,
                        kept_address as int,
                    );
                }
                return Some(score.staves[staff_index].objects[last].address);
            }
            let removal_count = remove_object(slice_addresses_to_respace, score, staff_index, object_index);
            proof {
                assert(accidental_note_address(objects[object_index as int]) is None);
                assert(score.staves@[s].wf());
                lemma_removal_keeps_kept(
                    old_score.staves@[s],
                    before.staves@[s],
                    score.staves@[s],
                    object_index as int,
                    removal_count as int,
                    kept_address as int,
                );
                if removal_count >= 1 {
                    lemma_removal_reduces_entries(
                        objects,
                        score.staves@[s].objects@,
                        object_index as int,
                        removal_count as int,
                    );
                }
            }
            object_index = object_index + 1 - removal_count;
        }
    }
    let (mut rest_index, new_cursor_address, rest) = match found {
        Some(stop) => stop,
        None => {
            return None;
        },
    };
    proof {
        crate::rhythm::lemma_two_to_adds(30, 0);
        lemma_divisor_bound(rest.den(), two_to(30) as int);
        crate::rhythm::lemma_two_to_adds(30, 1);
        crate::rhythm::lemma_two_to_adds(1, 0);
        assert(two_to(1) == 2) by {
            reveal_with_fuel(two_to, 2);
        }
    }
    let exponents = rest_log2_durations(&rest);
    if slice_index > score.slices.len() {
        slice_index = score.slices.len();
    }
    let mut end = end;
    let mut i: usize = 0;
    while i < exponents.len()
        invariant
            score.wf(),
            old_score == *old(score),
            s == staff_index,
            s < score.staves.len(),
            score.staves.len() == old_score.staves.len(),
            forall|t: int| 0 <= t < old_score.staves.len() && t != s ==> #[trigger] score.staves@[t] == old_score.staves@[t],
            crate::staff::same_staff_settings(&score.staves@[s], &old_score.staves@[s]),
            score.ghost_cursor == old_score.ghost_cursor || score.ghost_cursor is None,
            position_wf(end),
            i <= exponents.len(),
            forall|j: int| 0 <= j < exponents.len() ==> -30 <= #[trigger] exponents@[j] <= 0,
            rest_index <= score.staves@[s].objects.len(),
            slice_index <= score.slices.len(),
            insertion_keeps_links(score.staves@[s].objects@, rest_index as int),
            object_live(score.staves@[s], new_cursor_address as int),
            lies_at_or_after(*score, s, new_cursor_address as int, target),
            keeps_object(old_score.staves@[s], score.staves@[s], kept_address as int),
            score.staves@[s].object_indices@[new_cursor_address as int] == rest_index,
            gap_is(*score, s, new_cursor_address as int, target, rest.num(), rest.den()),
            rests_before(score.staves@[s].objects@, rest_index as int, as_ints(exponents@).take(i as int)),
            as_ints(exponents@) == rest_exponents(rest.num() as nat, rest.den() as nat, 0),
        decreases exponents.len() - i,
    {
        if !tables_have_room(score, staff_index) {
            return None;
        }
        let rest_log2_duration = exponents[i];
        let next_end = duration_end(&end, rest_log2_duration, 0);
        let ghost before = *score;
        insert_rhythmic_slice_object(
            slice_addresses_to_respace,
            score,
            staff_index,
            ObjectType::Duration { pitch: None, log2_duration: rest_log2_duration, augmentation_dot_count: 0 },
            rest_index,
            &mut slice_index,
            end,
        );
        proof {
            let old_staff = before.staves@[s];
            let new_staff = score.staves@[s];
            assert(old_staff.wf());
            assert(new_staff.wf());
            lemma_insert_keeps_live(old_staff, new_staff, rest_index as int, new_staff.objects@[rest_index as int].address);
            lemma_insert_keeps_lying_at_or_after(before, *score, s, rest_index as int, new_cursor_address as int, target);
            lemma_insert_keeps_kept(old_score.staves@[s], old_staff, new_staff, rest_index as int, kept_address as int);
            assert(accidental_note_address(new_staff.objects@[rest_index as int]) is None);
            let c = rest_index as int;
            assert(crate::staff::object_addresses(old_staff.objects@)[c] == new_cursor_address);
            assert(new_staff.objects@[c + 1] == old_staff.objects@[c]);
            assert(crate::staff::object_addresses(new_staff.objects@)[c + 1] == new_cursor_address);
            let done = as_ints(exponents@).take(i as int);
            let next = as_ints(exponents@).take(i + 1);
            assert(next =~= done.push(exponents@[i as int] as int));
            assert forall|j: int| 0 <= j < next.len() implies is_rest_of(
                #[trigger] new_staff.objects@[c + 1 - next.len() + j],
                next[j],
            ) by {
                if j < done.len() {
                    assert(new_staff.objects@[c + 1 - next.len() + j] == old_staff.objects@[c - done.len() + j]);
                }
            }
        }
        end = next_end;
        rest_index = rest_index + 1;
        i = i + 1;
    }
    proof {
        assert(as_ints(exponents@).take(i as int) =~= as_ints(exponents@));
        crate::rhythm::lemma_two_to_adds(30, 0);
        assert(rests_before(
            score.staves@[s].objects@,
            score.staves@[s].object_indices@[new_cursor_address as int] as int,
            rest_exponents(rest.num() as nat, rest.den() as nat, 0),
        ));
    }
    Some(new_cursor_address)
}

/// Place `duration` at the insertion point: it replaces the object there,
/// and the time after it is made to fit (see `fill_after_duration`).
/// Returns the address of the object the cursor moves to, which lies at or
/// after the duration's end, with rests filling the time up to it; nothing
/// when a table is full.
pub fn insert_duration(
    slice_addresses_to_respace: &mut Vec<usize>,
    score: &mut Score,
    staff_index: usize,
    insertion_info: DurationInsertionInfo,
    duration: ObjectType,
) -> (new_cursor_address: Option<usize>)
    requires
        old(score).wf(),
        staff_index < old(score).staves.len(),
        insertion_info.duration_object_index < old(score).staves@[staff_index as int].objects.len(),
        unlinked(old(score).staves@[staff_index as int].objects@[insertion_info.duration_object_index as int]),
        unlinked(with_type(old(score).staves@[staff_index as int].objects@[insertion_info.duration_object_index as int], duration)),
        duration is Duration,
        position_wf(insertion_info.duration_end_rhythmic_position),
    ensures
        final(score).wf(),
        final(score).staves.len() == old(score).staves.len(),
        forall|t: int| 0 <= t < old(score).staves.len() && t != staff_index ==> #[trigger] final(score).staves@[t]
            == old(score).staves@[t],
        crate::staff::same_staff_settings(&final(score).staves@[staff_index as int], &old(score).staves@[staff_index as int]),
        final(score).ghost_cursor == old(score).ghost_cursor || final(score).ghost_cursor is None,
        new_cursor_address matches Some(a) ==> object_live(final(score).staves@[staff_index as int], a as int)
            && lies_at_or_after(*final(score), staff_index as int, a as int, insertion_info.duration_end_rhythmic_position)
            && rests_fill_gap(*final(score), staff_index as int, a as int, insertion_info.duration_end_rhythmic_position),
        new_cursor_address is None ==> !crate::editor::staff_tables_have_room(*final(score), staff_index as int),
        ({
            let replaced = old(score).staves@[staff_index as int].objects@[insertion_info.duration_object_index as int];
            let staff = final(score).staves@[staff_index as int];
            &&& object_live(staff, replaced.address as int)
            &&& crate::staff::with_note_link(object_at(staff, replaced.address as int), None, true)
                == crate::staff::with_note_link(with_type(replaced, duration), None, true)
        }),
{
    let ghost s = staff_index as int;
    let duration_index = insertion_info.duration_object_index;
    proof {
        assert(score.staves@[s].wf());
    }
    let ghost before_replace = *score;
    let duration_address = score.staves[staff_index].objects[duration_index].address;
    replace_object_type(&mut score.staves[staff_index], duration_index, duration);
    proof {
        lemma_staff_change_keeps_score_wf(before_replace, *score, s);
        let objects = score.staves@[s].objects@;
        assert(object_addresses(objects)[duration_index as int] == duration_address);
        assert(object_at(score.staves@[s], duration_address as int) == objects[duration_index as int]);
    }
    let ghost replaced_score = *score;
    let new_cursor_address = fill_after_duration(
        slice_addresses_to_respace,
        score,
        staff_index,
        duration_index + 1,
        insertion_info.duration_slice_index,
        insertion_info.duration_end_rhythmic_position,
        duration_address,
    );
    proof {
        let placed = object_at(replaced_score.staves@[s], duration_address as int);
        let now = object_at(score.staves@[s], duration_address as int);
        assert(crate::staff::with_note_link(now, None, true) == crate::staff::with_note_link(placed, None, true));
    }
    new_cursor_address
}

} // verus!
