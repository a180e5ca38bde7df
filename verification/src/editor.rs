use vstd::prelude::*;
use crate::staff::{
    default_accidental_of_steps_above_c4, object_addresses, object_is_header, object_live, previous_cursor_state,
    range_floor_at_index, replace_object_type, same_alignment, set_cursor_to_next_state, set_selected,
    spec_object_is_header, update_object, NotePitch, Object, ObjectType, SystemAddress,
};
use crate::system::{lemma_staff_change_keeps_score_wf, Score};
use crate::notation::{
    clamped_subtract, lowered_accidental, raised_accidental, spec_letter_key_steps, steps_above_c4_of_letter_key, Clef,
    Pitch,
};
use crate::durations::{
    duration_fits, fill_after_duration, insert_duration, prepare_duration_insertion, tables_have_room,
};
use crate::accidentals::{insert_accidental_object, reset_accidental_displays_from_previous_key_sig};
use crate::removal::delete_object;
use crate::staff::{
    insert_object, insertion_keeps_links, lemma_insert_keeps_live, lemma_insert_keeps_staff_wf, next_slice_address,
    object_at, object_content_wf, push_if_not_present, unlinked, with_address, accidental_note_address,
};

verus! {

/// What is selected: the cursor (at an object of a staff, with the lowest
/// pitch its letter keys enter), one object, or nothing.
pub enum Selection {
    ActiveCursor { address: SystemAddress, range_floor: i8 },
    Object(SystemAddress),
    Nothing,
}

/// The address names an object of one of the score's staves.
pub open spec fn address_live(score: Score, address: SystemAddress) -> bool {
    &&& address.staff_index < score.staves.len()
    &&& object_live(score.staves@[address.staff_index as int], address.object_address as int)
}

/// The selection names objects of the score.
pub open spec fn selection_wf(score: Score, selection: Selection) -> bool {
    match selection {
        Selection::ActiveCursor { address, .. } => address_live(score, address),
        Selection::Object(address) => address_live(score, address),
        Selection::Nothing => true,
    }
}

/// Whether the address names an object of the score.
pub fn address_is_live(score: &Score, address: SystemAddress) -> (live: bool)
    ensures
        live == address_live(*score, address),
{
    if address.staff_index >= score.staves.len() {
        return false;
    }
    let staff = &score.staves[address.staff_index];
    if address.object_address >= staff.object_indices.len() {
        return false;
    }
    let index = staff.object_indices[address.object_address];
    index < staff.objects.len() && staff.objects[index].address == address.object_address
}

/// The position of the object a live address names.
pub fn object_index_of(score: &Score, address: SystemAddress) -> (index: usize)
    requires
        address_live(*score, address),
    ensures
        index == score.staves@[address.staff_index as int].object_indices@[address.object_address as int],
        index < score.staves@[address.staff_index as int].objects.len(),
        score.staves@[address.staff_index as int].objects@[index as int].address == address.object_address,
{
    score.staves[address.staff_index].object_indices[address.object_address]
}

/// Keep the selection when it still names objects of the score; otherwise
/// select nothing.
pub fn validate_selection(score: &Score, selection: &mut Selection)
    ensures
        selection_wf(*score, *final(selection)),
        *final(selection) == *old(selection) || *final(selection) == Selection::Nothing,
        selection_wf(*score, *old(selection)) ==> *final(selection) == *old(selection),
{
    let live = match &*selection {
        Selection::ActiveCursor { address, .. } => address_is_live(score, *address),
        Selection::Object(address) => address_is_live(score, *address),
        Selection::Nothing => true,
    };
    if !live {
        *selection = Selection::Nothing;
    }
}

/// The score is sound, and so is the selection.
pub open spec fn editor_wf(score: Score, selection: Selection) -> bool {
    score.wf() && selection_wf(score, selection)
}

/// Changing only which objects are selected keeps a sound score sound, with
/// the same live objects.
proof fn lemma_selection_change(old_score: Score, new_score: Score, s: int)
    requires
        old_score.wf(),
        0 <= s < old_score.staves.len(),
        new_score.staves.len() == old_score.staves.len(),
        forall|t: int| 0 <= t < old_score.staves.len() && t != s ==> #[trigger] new_score.staves@[t] == old_score.staves@[t],
        new_score.staves@[s].wf(),
        same_alignment(old_score.staves@[s], new_score.staves@[s]),
        new_score.staves@[s].object_indices@ == old_score.staves@[s].object_indices@,
        new_score.staves@[s].objects.len() == old_score.staves@[s].objects.len(),
        forall|i: int| 0 <= i < old_score.staves@[s].objects.len() ==> (#[trigger] new_score.staves@[s].objects@[i]).address
            == old_score.staves@[s].objects@[i].address,
        new_score.slices@ == old_score.slices@,
        new_score.slice_indices@ == old_score.slice_indices@,
        new_score.slice_address_free_list@ == old_score.slice_address_free_list@,
    ensures
        new_score.wf(),
        forall|address: SystemAddress| #[trigger] address_live(new_score, address) == address_live(old_score, address),
{
    lemma_staff_change_keeps_score_wf(old_score, new_score, s);
    assert(crate::staff::object_addresses(new_score.staves@[s].objects@) =~= crate::staff::object_addresses(
        old_score.staves@[s].objects@,
    ));
    assert forall|address: SystemAddress| #[trigger] address_live(new_score, address) == address_live(old_score, address) by {
        if address.staff_index as int != s && address.staff_index < old_score.staves.len() {
            assert(new_score.staves@[address.staff_index as int] == old_score.staves@[address.staff_index as int]);
        }
    }
}

/// Select nothing, unmarking a selected object. Returns whether anything was
/// selected.
pub fn cancel_selection(score: &mut Score, selection: &mut Selection) -> (cancelled: bool)
    requires
        editor_wf(*old(score), *old(selection)),
    ensures
        editor_wf(*final(score), *final(selection)),
        *final(selection) == Selection::Nothing,
        cancelled == !(*old(selection) is Nothing),
        final(score).slices@ == old(score).slices@,
        final(score).staves.len() == old(score).staves.len(),
        forall|address: SystemAddress| #[trigger] address_live(*final(score), address) == address_live(*old(score), address),
        forall|t: int| 0 <= t < old(score).staves.len() ==> (#[trigger] final(score).staves@[t]).objects.len()
            == old(score).staves@[t].objects.len() && final(score).staves@[t].line_count == old(score).staves@[t].line_count,
        forall|t: int, i: int|
            0 <= t < old(score).staves.len() && 0 <= i < old(score).staves@[t].objects.len() ==> (
            #[trigger] final(score).staves@[t].objects@[i]).object_type == old(score).staves@[t].objects@[i].object_type
                && final(score).staves@[t].objects@[i].address == old(score).staves@[t].objects@[i].address,
        match *old(selection) {
            Selection::Object(address) => {
                let s = address.staff_index as int;
                let i = old(score).staves@[s].object_indices@[address.object_address as int] as int;
                &&& !final(score).staves@[s].objects@[i].is_selected
                &&& final(score).staves@[s].objects@ == old(score).staves@[s].objects@.update(
                    i,
                    crate::staff::with_selected(old(score).staves@[s].objects@[i], false),
                )
                &&& forall|t: int| 0 <= t < old(score).staves.len() && t != s ==> #[trigger] final(score).staves@[t]
                    == old(score).staves@[t]
            },
            _ => *final(score) == *old(score),
        },
{
    match *selection {
        Selection::ActiveCursor { .. } => {},
        Selection::Object(address) => {
            let ghost old_score = *score;
            let index = object_index_of(score, address);
            proof {
                assert(score.staves@[address.staff_index as int].wf());
            }
            set_selected(&mut score.staves[address.staff_index], index, false);
            proof {
                lemma_selection_change(old_score, *score, address.staff_index as int);
                assert(index == old_score.staves@[address.staff_index as int].object_indices@[address.object_address as int]);
                assert(!score.staves@[address.staff_index as int].objects@[index as int].is_selected);
            }
        },
        Selection::Nothing => {
            return false;
        },
    }
    *selection = Selection::Nothing;
    true
}

/// Select the object at a live address, after cancelling the selection.
/// Returns whether it stands at the head of its staff.
pub fn select_object(score: &mut Score, selection: &mut Selection, address: SystemAddress) -> (is_header: bool)
    requires
        editor_wf(*old(score), *old(selection)),
        address_live(*old(score), address),
    ensures
        editor_wf(*final(score), *final(selection)),
        *final(selection) == Selection::Object(address),
        final(score).slices@ == old(score).slices@,
        final(score).staves.len() == old(score).staves.len(),
        ({
            let s = address.staff_index as int;
            let i = final(score).staves@[s].object_indices@[address.object_address as int] as int;
            &&& final(score).staves@[s].objects@[i].is_selected
            &&& is_header == spec_object_is_header(final(score).staves@[s].objects@[i])
        }),
{
    cancel_selection(score, selection);
    let ghost before = *score;
    let index = object_index_of(score, address);
    proof {
        assert(score.staves@[address.staff_index as int].wf());
    }
    set_selected(&mut score.staves[address.staff_index], index, true);
    proof {
        lemma_selection_change(before, *score, address.staff_index as int);
        assert(address_live(before, address));
        assert(address_live(*score, address));
        assert(index == score.staves@[address.staff_index as int].object_indices@[address.object_address as int]);
    }
    *selection = Selection::Object(address);
    object_is_header(&score.staves[address.staff_index].objects[index])
}

/// Make the ghost cursor the cursor, with its range floor three steps above
/// middle C, after cancelling the selection. Returns whether there was a
/// ghost cursor on an object of the score.
pub fn activate_ghost_cursor(score: &mut Score, selection: &mut Selection) -> (activated: bool)
    requires
        editor_wf(*old(score), *old(selection)),
    ensures
        editor_wf(*final(score), *final(selection)),
        activated ==> final(score).ghost_cursor is None && *final(selection) == (Selection::ActiveCursor {
            address: old(score).ghost_cursor->0,
            range_floor: 3,
        }),
        !activated ==> *final(score) == *old(score) && *final(selection) == *old(selection),
        activated <==> (old(score).ghost_cursor matches Some(a) && address_live(*old(score), a)),
{
    let ghost_address = match score.ghost_cursor {
        Some(address) => address,
        None => {
            return false;
        },
    };
    if !address_is_live(score, ghost_address) {
        return false;
    }
    cancel_selection(score, selection);
    proof {
        assert(address_live(*score, ghost_address));
    }
    score.ghost_cursor = None;
    *selection = Selection::ActiveCursor { address: ghost_address, range_floor: 3 };
    true
}

/// The cursor after a move left from the object at `address`: at the last
/// valid cursor position before it, with the range floor of the first note
/// from there on (before the object), or `range_floor`; none when there is
/// no earlier cursor position.
pub open spec fn cursor_moved_left(score: Score, address: SystemAddress, range_floor: i8) -> Option<Selection> {
    let objects = score.staves@[address.staff_index as int].objects@;
    let index = score.staves@[address.staff_index as int].object_indices@[address.object_address as int] as int;
    let previous = crate::staff::previous_cursor_position(objects, index);
    if previous < 0 {
        None
    } else {
        Some(
            Selection::ActiveCursor {
                address: SystemAddress { staff_index: address.staff_index, object_address: objects[previous].address },
                range_floor: crate::staff::first_note_range_floor(objects, previous, index, range_floor as int) as i8,
            },
        )
    }
}

/// The cursor after a move right from the object at `address`: at the next
/// valid cursor position, with the range floor of the last clef or note
/// passed, or where it is when there is none.
pub open spec fn cursor_moved_right(score: Score, address: SystemAddress, range_floor: i8) -> Selection {
    let objects = score.staves@[address.staff_index as int].objects@;
    let index = score.staves@[address.staff_index as int].object_indices@[address.object_address as int] as int;
    let next = crate::staff::next_cursor_position(objects, index);
    if next < 0 {
        Selection::ActiveCursor { address, range_floor }
    } else {
        Selection::ActiveCursor {
            address: SystemAddress { staff_index: address.staff_index, object_address: objects[next].address },
            range_floor: crate::staff::last_implied_range_floor(objects, index, next, range_floor as int) as i8,
        }
    }
}

/// Move the cursor to the previous valid cursor position of its staff.
/// Returns whether it moved.
pub fn move_cursor_left(score: &Score, selection: &mut Selection) -> (moved: bool)
    requires
        editor_wf(*score, *old(selection)),
    ensures
        editor_wf(*score, *final(selection)),
        moved <==> (*old(selection) matches Selection::ActiveCursor { address, range_floor } && cursor_moved_left(
            *score,
            address,
            range_floor,
        ) is Some),
        moved ==> (*old(selection) matches Selection::ActiveCursor { address, range_floor } && *final(selection)
            == cursor_moved_left(*score, address, range_floor)->0),
        !moved ==> *final(selection) == *old(selection),
{
    if let Selection::ActiveCursor { address, range_floor } = *selection {
        let index = object_index_of(score, address);
        let staff = &score.staves[address.staff_index];
        if let Some((object_address, new_range_floor)) = previous_cursor_state(staff, index, range_floor) {
            proof {
                let p = crate::staff::previous_cursor_position(staff.objects@, index as int);
                crate::staff::lemma_previous_cursor_position(staff.objects@, index as int);
                assert(staff.wf());
                assert(object_addresses(staff.objects@)[p] == object_address);
            }
            *selection = Selection::ActiveCursor {
                address: SystemAddress { staff_index: address.staff_index, object_address },
                range_floor: new_range_floor,
            };
            return true;
        }
    }
    false
}

/// Move the cursor to the next valid cursor position of its staff (or keep
/// it at the end), with the range floor of the last clef or note passed.
/// Returns whether there is a cursor.
pub fn move_cursor_right(score: &Score, selection: &mut Selection) -> (moved: bool)
    requires
        editor_wf(*score, *old(selection)),
    ensures
        editor_wf(*score, *final(selection)),
        moved <==> *old(selection) is ActiveCursor,
        moved ==> (*old(selection) matches Selection::ActiveCursor { address, range_floor } && *final(selection)
            == cursor_moved_right(*score, address, range_floor)),
        !moved ==> *final(selection) == *old(selection),
{
    if let Selection::ActiveCursor { address, range_floor } = *selection {
        let index = object_index_of(score, address);
        let staff = &score.staves[address.staff_index];
        proof {
            assert(staff.wf());
        }
        let (object_address, new_range_floor) = set_cursor_to_next_state(staff, index, range_floor);
        proof {
            let next = crate::staff::next_cursor_position(staff.objects@, index as int);
            crate::staff::lemma_next_cursor_position(staff.objects@, index as int);
            if next >= 0 {
                assert(object_addresses(staff.objects@)[next] == object_address);
            } else {
                assert(object_addresses(staff.objects@)[index as int] == object_address);
            }
        }
        *selection = Selection::ActiveCursor {
            address: SystemAddress { staff_index: address.staff_index, object_address },
            range_floor: new_range_floor,
        };
        return true;
    }
    false
}

/// Set the ghost cursor. Returns whether it changed.
pub fn set_ghost_cursor(score: &mut Score, ghost_cursor: Option<SystemAddress>) -> (changed: bool)
    ensures
        final(score).ghost_cursor == ghost_cursor,
        final(score).staves@ == old(score).staves@,
        final(score).slices@ == old(score).slices@,
        final(score).slice_indices@ == old(score).slice_indices@,
        final(score).slice_address_free_list@ == old(score).slice_address_free_list@,
        changed == (old(score).ghost_cursor != ghost_cursor),
        old(score).wf() ==> final(score).wf(),
{
    let changed = match (&score.ghost_cursor, &ghost_cursor) {
        (Some(current), Some(new)) => current.staff_index != new.staff_index || current.object_address != new.object_address,
        (None, None) => false,
        _ => true,
    };
    score.ghost_cursor = ghost_cursor;
    changed
}

/// Whether the pitch a letter key enters above the range floor fits in an
/// `i8`.
pub fn letter_key_steps_fit(key_code: i32, range_floor: i8) -> (fits: bool)
    requires
        65 <= key_code <= 71,
    ensures
        fits == (spec_letter_key_steps(key_code as int, range_floor as int) <= 127),
{
    let scale_degree = (key_code - 60) % 7;
    let difference = scale_degree - range_floor as i32;
    let mut offset = difference % 7;
    proof {
        let d = difference as int;
        assert(d >= 0 ==> offset == d % 7);
        assert(d < 0 ==> offset == -((-d) % 7));
    }
    if offset < 0 {
        offset = offset + 7;
    }
    proof {
        let d = difference as int;
        if d < 0 {
            let t = (-d) % 7;
            let q = (-d) / 7;
            assert(-d == 7 * q + t);
            if t == 0 {
                assert(d == 7 * (-q));
                assert(d % 7 == 0);
            } else {
                assert(d == 7 * (-q - 1) + (7 - t));
                assert(d % 7 == 7 - t);
            }
        }
        assert(offset == d % 7);
    }
    range_floor as i32 + offset <= 127
}

/// Enter a note at the cursor for a letter key ('A' through 'G'): the
/// lowest pitch with that letter at or above the range floor, with the
/// accidental its step takes by default there (shown before it when another
/// octave's note of its letter shows another), of `2^log2_duration` whole
/// notes with `augmentation_dot_count` dots. The cursor moves past it and
/// its range floor goes three steps below the note. Returns whether a note
/// was entered: not when nothing but the cursor is selected, when the pitch
/// would not fit in an `i8`, or when the staff or a table ends first.
#[verifier::rlimit(60)]
pub fn insert_note_at_cursor(
    slice_addresses_to_respace: &mut Vec<usize>,
    score: &mut Score,
    selection: &mut Selection,
    key_code: i32,
    log2_duration: i8,
    augmentation_dot_count: u8,
) -> (inserted: bool)
    requires
        editor_wf(*old(score), *old(selection)),
        65 <= key_code <= 71,
        duration_fits(log2_duration, augmentation_dot_count),
    ensures
        editor_wf(*final(score), *final(selection)),
        inserted ==> (*old(selection) matches Selection::ActiveCursor { address, range_floor } && ({
            let steps = spec_letter_key_steps(key_code as int, range_floor as int);
            &&& steps <= 127
            &&& (*final(selection) is Nothing || (*final(selection) matches Selection::ActiveCursor {
                address: new_address,
                range_floor: new_floor,
            } && new_address.staff_index == address.staff_index && new_floor == (if steps - 3 < -128 {
                -128
            } else {
                steps - 3
            })))
        })),
        !inserted && !(*old(selection) is ActiveCursor) ==> *final(score) == *old(score) && *final(selection)
            == *old(selection) && final(slice_addresses_to_respace)@ == old(slice_addresses_to_respace)@,
        inserted ==> (*old(selection) matches Selection::ActiveCursor { address, .. } && (*final(selection) matches Selection::ActiveCursor {
            address: new_address,
            ..
        } ==> {
            let s = address.staff_index as int;
            let f = crate::durations::first_rhythmic_passing(
                *old(score),
                old(score).staves@[s].objects@,
                old(score).staves@[s].object_indices@[address.object_address as int] as int,
            );
            f >= 0 ==> crate::durations::past_written_duration(
                *old(score),
                *final(score),
                s,
                f,
                new_address.object_address as int,
                log2_duration,
                augmentation_dot_count,
            )
        })),
        inserted && *final(selection) is Nothing ==> (*old(selection) matches Selection::ActiveCursor { address, .. }
            && !staff_tables_have_room(*final(score), address.staff_index as int)),
        *old(selection) matches Selection::ActiveCursor { address, range_floor } ==> ({
            let s = address.staff_index as int;
            let objects = old(score).staves@[s].objects@;
            let f = crate::durations::first_rhythmic_passing(
                *old(score),
                objects,
                old(score).staves@[s].object_indices@[address.object_address as int] as int,
            );
            let ip = if crate::staff::note_accidental_address(objects[f]) is Some { f - 1 } else { f };
            let steps = spec_letter_key_steps(key_code as int, range_floor as int);
            f >= 0 && steps <= 127 && staff_tables_have_room(*old(score), s) ==> inserted && object_live(
                final(score).staves@[s],
                objects[f].address as int,
            ) && (crate::staff::object_at(final(score).staves@[s], objects[f].address as int).object_type matches ObjectType::Duration {
                pitch: Some(note_pitch),
                log2_duration: l,
                augmentation_dot_count: d,
            } && note_pitch.pitch == (Pitch {
                accidental: crate::staff::spec_default_accidental(objects, ip, steps),
                steps_above_c4: steps as i8,
            }) && l == log2_duration && d == augmentation_dot_count)
        }),
        !inserted ==> (*old(selection) matches Selection::ActiveCursor { address, range_floor } ==> {
            let s = address.staff_index as int;
            let staff = final(score).staves@[s];
            ||| (spec_letter_key_steps(key_code as int, range_floor as int) > 127 && *final(score) == *old(score)
                && *final(selection) == *old(selection) && final(slice_addresses_to_respace)@ == old(
                slice_addresses_to_respace,
            )@)
            ||| crate::durations::slice_position(*final(score), staff.objects@.last()) is None
            ||| !staff_tables_have_room(*final(score), s)
        }),
{
    let (address, range_floor) = match *selection {
        Selection::ActiveCursor { address, range_floor } => (address, range_floor),
        _ => {
            return false;
        },
    };
    if !letter_key_steps_fit(key_code, range_floor) {
        return false;
    }
    let steps_above_c4 = steps_above_c4_of_letter_key(key_code, range_floor);
    let staff_index = address.staff_index;
    let ghost s = staff_index as int;
    let ghost old_objects = score.staves@[s].objects@;
    let ghost f = crate::durations::first_rhythmic_passing(
        *score,
        old_objects,
        score.staves@[s].object_indices@[address.object_address as int] as int,
    );
    let ghost fast = f >= 0 && staff_tables_have_room(*score, s);
    let ghost ip = if crate::staff::note_accidental_address(old_objects[f]) is Some { f - 1 } else { f };
    let info = match prepare_duration_insertion(slice_addresses_to_respace, score, &address, log2_duration, augmentation_dot_count) {
        Some(info) => info,
        None => {
            validate_selection(score, selection);
            return false;
        },
    };
    let index = info.duration_object_index;
    let ghost prepared = *score;
    let accidental = default_accidental_of_steps_above_c4(&score.staves[staff_index].objects, index, steps_above_c4);
    proof {
        if fast {
            crate::staff::lemma_default_accidental_prefix(prepared.staves@[s].objects@, old_objects, ip, steps_above_c4 as int);
            assert(staff_tables_have_room(prepared, s));
        }
    }
    let duration = ObjectType::Duration {
        pitch: Some(NotePitch {
            accidental_address: None,
            pitch: Pitch { accidental: accidental.accidental, steps_above_c4 },
        }),
        log2_duration,
        augmentation_dot_count,
    };
    proof {
        assert(score.staves@[s].wf());
    }
    let ghost before_replace = *score;
    let duration_address = score.staves[staff_index].objects[index].address;
    replace_object_type(&mut score.staves[staff_index], index, duration);
    proof {
        lemma_staff_change_keeps_score_wf(before_replace, *score, s);
    }
    let mut next_index = index + 1;
    if accidental.is_visible {
        if !tables_have_room(score, staff_index) {
            validate_selection(score, selection);
            return false;
        }
        let ghost unaccented = *score;
        insert_accidental_object(slice_addresses_to_respace, score, staff_index, index);
        next_index = index + 2;
        proof {
            let objects = score.staves@[s].objects@;
            assert(score.staves@[s].wf());
            assert(objects[index + 1] == crate::staff::with_note_link(unaccented.staves@[s].objects@[index as int], Some(objects[index as int].address), false));
            assert(object_addresses(objects)[index + 1] == duration_address);
        }
    } else {
        proof {
            assert(object_addresses(score.staves@[s].objects@)[index as int] == duration_address);
        }
    }
    let ghost placed = *score;
    let new_cursor_address = fill_after_duration(
        slice_addresses_to_respace,
        score,
        staff_index,
        next_index,
        info.duration_slice_index,
        info.duration_end_rhythmic_position,
        duration_address,
    );
    proof {
        let written = crate::staff::object_at(placed.staves@[s], duration_address as int);
        assert(crate::staff::with_note_link(written, None, true).object_type == crate::staff::with_note_link(
            crate::staff::with_type(prepared.staves@[s].objects@[index as int], duration),
            None,
            true,
        ).object_type);
    }
    match new_cursor_address {
        Some(object_address) => {
            *selection = Selection::ActiveCursor {
                address: SystemAddress { staff_index, object_address },
                range_floor: clamped_subtract(steps_above_c4, 3),
            };
        },
        None => {
            *selection = Selection::Nothing;
        },
    }
    true
}

/// Enter a rest of `2^log2_duration` whole notes with
/// `augmentation_dot_count` dots at the cursor; the cursor moves past it.
/// Returns whether a rest was entered: not when nothing but the cursor is
/// selected, or when the staff or a table ends first.
pub fn insert_rest_at_cursor(
    slice_addresses_to_respace: &mut Vec<usize>,
    score: &mut Score,
    selection: &mut Selection,
    log2_duration: i8,
    augmentation_dot_count: u8,
) -> (inserted: bool)
    requires
        editor_wf(*old(score), *old(selection)),
        duration_fits(log2_duration, augmentation_dot_count),
    ensures
        editor_wf(*final(score), *final(selection)),
        inserted ==> (*old(selection) matches Selection::ActiveCursor { address, range_floor } && (
            *final(selection) is Nothing || (*final(selection) matches Selection::ActiveCursor {
                address: new_address,
                range_floor: new_floor,
            } && new_address.staff_index == address.staff_index && new_floor == range_floor))),
        !inserted && !(*old(selection) is ActiveCursor) ==> *final(score) == *old(score) && *final(selection)
            == *old(selection) && final(slice_addresses_to_respace)@ == old(slice_addresses_to_respace)@,
        inserted ==> (*old(selection) matches Selection::ActiveCursor { address, .. } && (*final(selection) matches Selection::ActiveCursor {
            address: new_address,
            ..
        } ==> {
            let s = address.staff_index as int;
            let f = crate::durations::first_rhythmic_passing(
                *old(score),
                old(score).staves@[s].objects@,
                old(score).staves@[s].object_indices@[address.object_address as int] as int,
            );
            f >= 0 ==> crate::durations::past_written_duration(
                *old(score),
                *final(score),
                s,
                f,
                new_address.object_address as int,
                log2_duration,
                augmentation_dot_count,
            )
        })),
        inserted && *final(selection) is Nothing ==> (*old(selection) matches Selection::ActiveCursor { address, .. }
            && !staff_tables_have_room(*final(score), address.staff_index as int)),
        *old(selection) matches Selection::ActiveCursor { address, .. } ==> ({
            let s = address.staff_index as int;
            let objects = old(score).staves@[s].objects@;
            let f = crate::durations::first_rhythmic_passing(
                *old(score),
                objects,
                old(score).staves@[s].object_indices@[address.object_address as int] as int,
            );
            f >= 0 ==> inserted && object_live(final(score).staves@[s], objects[f].address as int) && crate::staff::object_at(
                final(score).staves@[s],
                objects[f].address as int,
            ).object_type == (ObjectType::Duration { pitch: None, log2_duration, augmentation_dot_count })
        }),
        !inserted ==> (*old(selection) matches Selection::ActiveCursor { address, .. } ==> {
            let staff = final(score).staves@[address.staff_index as int];
            ||| crate::durations::slice_position(*final(score), staff.objects@.last()) is None
            ||| !staff_tables_have_room(*final(score), address.staff_index as int)
        }),
{
    let (address, range_floor) = match *selection {
        Selection::ActiveCursor { address, range_floor } => (address, range_floor),
        _ => {
            return false;
        },
    };
    let staff_index = address.staff_index;
    let info = match prepare_duration_insertion(slice_addresses_to_respace, score, &address, log2_duration, augmentation_dot_count) {
        Some(info) => info,
        None => {
            validate_selection(score, selection);
            return false;
        },
    };
    proof {
        assert(score.staves@[staff_index as int].wf());
    }
    let new_cursor_address = insert_duration(
        slice_addresses_to_respace,
        score,
        staff_index,
        info,
        ObjectType::Duration { pitch: None, log2_duration, augmentation_dot_count },
    );
    match new_cursor_address {
        Some(object_address) => {
            *selection = Selection::ActiveCursor { address: SystemAddress { staff_index, object_address }, range_floor };
        },
        None => {
            *selection = Selection::Nothing;
        },
    }
    true
}

/// Whether the selected object at `address` may be deleted: it is not the
/// last of its staff, and the staff's tables have room for one more object.
pub open spec fn deletion_allowed(score: Score, address: SystemAddress) -> bool {
    let s = address.staff_index as int;
    let index = score.staves@[s].object_indices@[address.object_address as int] as int;
    index + 1 < score.staves@[s].objects.len() && staff_tables_have_room(score, s)
}

/// Delete the selected object (a note becomes a rest; accidentals, barlines
/// and rests stay), and put the cursor on the object then at its place,
/// with the range floor there. Returns whether an object was selected and
/// deleted: not the last of its staff, nor when its address table is full.
pub fn delete_selected_object(
    slice_addresses_to_respace: &mut Vec<usize>,
    score: &mut Score,
    selection: &mut Selection,
) -> (deleted: bool)
    requires
        editor_wf(*old(score), *old(selection)),
    ensures
        editor_wf(*final(score), *final(selection)),
        deleted <==> (*old(selection) matches Selection::Object(address) && deletion_allowed(*old(score), address)),
        deleted ==> (*old(selection) matches Selection::Object(address) && ({
            let s = address.staff_index as int;
            let index = old(score).staves@[s].object_indices@[address.object_address as int] as int;
            let objects = final(score).staves@[s].objects@;
            &&& exists|count: int| #[trigger] crate::removal::object_deleted(*old(score), *final(score), s, index, count)
            &&& *final(selection) == if index < objects.len() {
                Selection::ActiveCursor {
                    address: SystemAddress { staff_index: address.staff_index, object_address: objects[index].address },
                    range_floor: crate::staff::last_implied_range_floor(objects, 0, index, 3) as i8,
                }
            } else {
                Selection::Nothing
            }
        })),
        !deleted ==> *final(score) == *old(score) && *final(selection) == *old(selection)
            && final(slice_addresses_to_respace)@ == old(slice_addresses_to_respace)@,
{
    let address = match *selection {
        Selection::Object(address) => address,
        _ => {
            return false;
        },
    };
    let staff_index = address.staff_index;
    let index = object_index_of(score, address);
    if index + 1 >= score.staves[staff_index].objects.len() || !tables_have_room(score, staff_index) {
        return false;
    }
    delete_object(slice_addresses_to_respace, score, staff_index, index);
    if index < score.staves[staff_index].objects.len() {
        proof {
            let staff = score.staves@[staff_index as int];
            assert(staff.wf());
            assert(object_addresses(staff.objects@)[index as int] == staff.objects@[index as int].address);
        }
        let object_address = score.staves[staff_index].objects[index].address;
        let range_floor = range_floor_at_index(&score.staves[staff_index], index);
        *selection = Selection::ActiveCursor { address: SystemAddress { staff_index, object_address }, range_floor };
    } else {
        *selection = Selection::Nothing;
    }
    true
}

/// Delete the object before the cursor, or the selected object. Returns
/// whether something was deleted.
pub fn delete_before_cursor(
    slice_addresses_to_respace: &mut Vec<usize>,
    score: &mut Score,
    selection: &mut Selection,
) -> (deleted: bool)
    requires
        editor_wf(*old(score), *old(selection)),
    ensures
        editor_wf(*final(score), *final(selection)),
        *old(selection) matches Selection::ActiveCursor { address, .. } ==> ({
            let s = address.staff_index as int;
            let index = old(score).staves@[s].object_indices@[address.object_address as int] as int;
            &&& deleted <==> (index > 0 && staff_tables_have_room(*old(score), s))
            &&& deleted ==> (exists|count: int| #[trigger] crate::removal::object_deleted(
                *old(score),
                *final(score),
                s,
                index - 1,
                count,
            )) && (*final(selection) == *old(selection) || *final(selection) is Nothing)
        }),
        *old(selection) is Object ==> (deleted <==> (*old(selection) matches Selection::Object(address)
            && deletion_allowed(*old(score), address))),
        *old(selection) is Nothing ==> !deleted,
        !deleted ==> *final(score) == *old(score) && *final(selection) == *old(selection)
            && final(slice_addresses_to_respace)@ == old(slice_addresses_to_respace)@,
{
    match *selection {
        Selection::ActiveCursor { address, .. } => {
            let staff_index = address.staff_index;
            let index = object_index_of(score, address);
            if index == 0 || !tables_have_room(score, staff_index) {
                return false;
            }
            delete_object(slice_addresses_to_respace, score, staff_index, index - 1);
            validate_selection(score, selection);
            true
        },
        Selection::Nothing => false,
        Selection::Object(_) => delete_selected_object(slice_addresses_to_respace, score, selection),
    }
}

/// The object at `index` after a move up or down: a clef moves its
/// baseline a step while it stays within the staff's lines (else it stays);
/// a note moves a step with its default accidental, or with shift keeps its
/// step and takes the next accidental up or down when there is one; `None`
/// when the object does not move that way.
pub open spec fn moved_vertically(objects: Seq<Object>, index: int, up: bool, with_shift: bool, line_count: int) -> Option<Object> {
    let object = objects[index];
    match object.object_type {
        ObjectType::Clef(clef) => {
            let baseline = if up {
                clef.steps_of_baseline_above_staff_middle + 1
            } else {
                clef.steps_of_baseline_above_staff_middle - 1
            };
            if (up && baseline < line_count) || (!up && baseline > -line_count) {
                Some(
                    crate::staff::with_type(
                        object,
                        ObjectType::Clef(
                            Clef {
                                codepoint: clef.codepoint,
                                steps_of_baseline_above_staff_middle: baseline as i8,
                                is_header: clef.is_header,
                            },
                        ),
                    ),
                )
            } else {
                Some(object)
            }
        },
        ObjectType::Duration { pitch: Some(note_pitch), log2_duration, augmentation_dot_count } => {
            let steps = note_pitch.pitch.steps_above_c4;
            let new_steps: i8 = if with_shift {
                steps
            } else if up {
                if steps < 127 { (steps + 1) as i8 } else { steps }
            } else {
                if steps > -128 { (steps - 1) as i8 } else { steps }
            };
            let accidental = if with_shift {
                if up {
                    crate::notation::one_step_sharper(note_pitch.pitch.accidental)
                } else {
                    crate::notation::one_step_flatter(note_pitch.pitch.accidental)
                }
            } else {
                Some(crate::staff::spec_default_accidental(objects, index, new_steps as int))
            };
            match accidental {
                None => None,
                Some(accidental) => Some(
                    crate::staff::with_type(
                        object,
                        ObjectType::Duration {
                            pitch: Some(
                                NotePitch {
                                    accidental_address: note_pitch.accidental_address,
                                    pitch: Pitch { accidental, steps_above_c4: new_steps },
                                },
                            ),
                            log2_duration,
                            augmentation_dot_count,
                        },
                    ),
                ),
            }
        },
        _ => None,
    }
}

/// The tables of the score and of staff `s` have room for one more object
/// (what resetting accidental displays after a change may need).
pub open spec fn staff_tables_have_room(score: Score, s: int) -> bool {
    let staff = score.staves@[s];
    &&& crate::system::staff_has_room(staff, 1)
    &&& score.slice_indices.len() + 1 < usize::MAX
    &&& staff.object_indices.len() + staff.objects.len() < usize::MAX
}

/// Move the selection a step up (`up`) or down: the cursor's range floor an
/// octave (staying within the `i8` range); a selected clef one step (staying
/// within the staff's lines); a selected note one step, taking the
/// accidental its new step has by default, or with `with_shift` its
/// accidental one step (not past double sharp or double flat); after a note
/// changes, the accidental displays are reset from the key signature before
/// it. Returns whether anything changed that needs redrawing.
pub fn move_selection_vertically(
    slice_addresses_to_respace: &mut Vec<usize>,
    score: &mut Score,
    selection: &mut Selection,
    up: bool,
    with_shift: bool,
) -> (changed: bool)
    requires
        editor_wf(*old(score), *old(selection)),
    ensures
        editor_wf(*final(score), *final(selection)),
        !(*old(selection) is Object) ==> final(slice_addresses_to_respace)@ == old(slice_addresses_to_respace)@,
        *old(selection) matches Selection::ActiveCursor { address, range_floor } ==> *final(score) == *old(score) && changed
            && *final(selection) == (Selection::ActiveCursor {
                address: address,
                range_floor: (if up {
                    if range_floor > 120 { 127 } else { range_floor + 7 }
                } else {
                    if range_floor - 7 < -128 { -128 } else { range_floor - 7 }
                }) as i8,
            }),
        *old(selection) is Nothing ==> !changed && *final(score) == *old(score) && *final(selection) == *old(selection),
        *old(selection) matches Selection::Object(address) ==> ({
            let s = address.staff_index as int;
            let staff = old(score).staves@[s];
            let i = staff.object_indices@[address.object_address as int] as int;
            match moved_vertically(staff.objects@, i, up, with_shift, staff.line_count as int) {
                None => !changed && *final(score) == *old(score) && *final(selection) == *old(selection)
                    && final(slice_addresses_to_respace)@ == old(slice_addresses_to_respace)@,
                Some(moved) => {
                    &&& changed
                    &&& *final(selection) == *old(selection)
                    &&& final(score).slices@ == old(score).slices@
                    &&& final(score).staves.len() == old(score).staves.len()
                    &&& forall|t: int| 0 <= t < old(score).staves.len() && t != s ==> #[trigger] final(score).staves@[t]
                        == old(score).staves@[t]
                    &&& if moved.object_type is Clef || !staff_tables_have_room(*old(score), s) {
                        final(score).staves@[s].objects@ == staff.objects@.update(i, moved)
                    } else {
                        crate::accidentals::displays_reset_from_previous_key_sig(
                            staff.objects@.update(i, moved),
                            final(score).staves@[s].objects@,
                            i,
                        )
                    }
                },
            }
        }),
{
    let address = match *selection {
        Selection::ActiveCursor { address, range_floor } => {
            let new_range_floor = if up {
                if range_floor > i8::MAX - 7 {
                    i8::MAX
                } else {
                    range_floor + 7
                }
            } else {
                clamped_subtract(range_floor, 7)
            };
            *selection = Selection::ActiveCursor { address, range_floor: new_range_floor };
            return true;
        },
        Selection::Object(address) => address,
        Selection::Nothing => {
            return false;
        },
    };
    let staff_index = address.staff_index;
    let ghost s = staff_index as int;
    let index = object_index_of(score, address);
    let line_count = score.staves[staff_index].line_count as i8;
    proof {
        assert(score.staves@[s].wf());
        assert(crate::staff::object_content_wf(score.staves@[s].objects@[index as int], score.staves@[s].line_count));
    }
    let object = &score.staves[staff_index].objects[index];
    match &object.object_type {
        ObjectType::Clef(clef) => {
            let new_baseline = if up {
                clef.steps_of_baseline_above_staff_middle + 1
            } else {
                clef.steps_of_baseline_above_staff_middle - 1
            };
            if (up && new_baseline < line_count) || (!up && new_baseline > -line_count) {
                let new_object = Object {
                    object_type: ObjectType::Clef(Clef {
                        codepoint: clef.codepoint,
                        steps_of_baseline_above_staff_middle: new_baseline,
                        is_header: clef.is_header,
                    }),
                    address: object.address,
                    slice_address: object.slice_address,
                    distance_to_next_slice: object.distance_to_next_slice,
                    is_selected: object.is_selected,
                    is_valid_cursor_position: object.is_valid_cursor_position,
                };
                let ghost before = *score;
                update_object(&mut score.staves[staff_index], index, new_object);
                proof {
                    lemma_staff_change_keeps_score_wf(before, *score, s);
                    assert(crate::staff::object_addresses(score.staves@[s].objects@) =~= crate::staff::object_addresses(
                        before.staves@[s].objects@,
                    ));
                    assert(address_live(*score, address));
                }
            }
            true
        },
        ObjectType::Duration { pitch: Some(note_pitch), log2_duration, augmentation_dot_count } => {
            let steps_above_c4;
            let accidental;
            if !with_shift {
                steps_above_c4 = if up {
                    if note_pitch.pitch.steps_above_c4 < i8::MAX {
                        note_pitch.pitch.steps_above_c4 + 1
                    } else {
                        note_pitch.pitch.steps_above_c4
                    }
                } else {
                    if note_pitch.pitch.steps_above_c4 > i8::MIN {
                        note_pitch.pitch.steps_above_c4 - 1
                    } else {
                        note_pitch.pitch.steps_above_c4
                    }
                };
                accidental = default_accidental_of_steps_above_c4(&score.staves[staff_index].objects, index, steps_above_c4).accidental;
            } else {
                steps_above_c4 = note_pitch.pitch.steps_above_c4;
                let changed = if up {
                    raised_accidental(note_pitch.pitch.accidental)
                } else {
                    lowered_accidental(note_pitch.pitch.accidental)
                };
                accidental = match changed {
                    Some(accidental) => accidental,
                    None => {
                        return false;
                    },
                };
            }
            let new_object = Object {
                object_type: ObjectType::Duration {
                    pitch: Some(NotePitch {
                        accidental_address: note_pitch.accidental_address,
                        pitch: Pitch { accidental, steps_above_c4 },
                    }),
                    log2_duration: *log2_duration,
                    augmentation_dot_count: *augmentation_dot_count,
                },
                address: object.address,
                slice_address: object.slice_address,
                distance_to_next_slice: object.distance_to_next_slice,
                is_selected: object.is_selected,
                is_valid_cursor_position: object.is_valid_cursor_position,
            };
            let ghost before = *score;
            update_object(&mut score.staves[staff_index], index, new_object);
            proof {
                lemma_staff_change_keeps_score_wf(before, *score, s);
                assert(object_addresses(score.staves@[s].objects@) =~= object_addresses(before.staves@[s].objects@));
                assert(address_live(*score, address));
            }
            if tables_have_room(score, staff_index) {
                let ghost updated = *score;
                reset_accidental_displays_from_previous_key_sig(slice_addresses_to_respace, score, staff_index, index);
                proof {
                    let old_objects = updated.staves@[s].objects@;
                    let objects = score.staves@[s].objects@;
                    assert(updated.staves@[s].wf());
                    assert(score.staves@[s].wf());
                    crate::accidentals::lemma_last_key_sig_before(old_objects, index as int);
                    let start = crate::staff::last_key_sig_before(old_objects, index as int) + 1;
                    let key = crate::accidentals::previous_key_accidentals(old_objects, index as int);
                    let (stop, found) = choose|stop: int, found: bool| #[trigger] crate::accidentals::staff_displays_reset(
                        old_objects,
                        objects,
                        start,
                        stop,
                        found,
                        key,
                    );
                    assert(object_addresses(old_objects)[index as int] == address.object_address);
                    assert(object_at(updated.staves@[s], address.object_address as int) == old_objects[index as int]);
                    crate::content::lemma_reset_keeps_live(
                        updated.staves@[s],
                        score.staves@[s],
                        start,
                        stop,
                        found,
                        key,
                        address.object_address as int,
                    );
                }
            }
            true
        },
        _ => false,
    }
}

/// Insert an object aligned to no slice at `object_index` of staff
/// `staff_index` (not at the end, and parting no accidental from its note).
/// Returns its address.
pub(crate) fn insert_unaligned_object(
    slice_addresses_to_respace: &mut Vec<usize>,
    score: &mut Score,
    staff_index: usize,
    object_index: usize,
    object: Object,
) -> (address: usize)
    requires
        old(score).wf(),
        staff_index < old(score).staves.len(),
        object_index < old(score).staves@[staff_index as int].objects.len(),
        object.slice_address is None,
        unlinked(object),
        object_content_wf(object, old(score).staves@[staff_index as int].line_count),
        insertion_keeps_links(old(score).staves@[staff_index as int].objects@, object_index as int),
        crate::system::staff_has_room(old(score).staves@[staff_index as int], 1),
    ensures
        final(score).wf(),
        final(score).staves.len() == old(score).staves.len(),
        forall|t: int| 0 <= t < old(score).staves.len() && t != staff_index ==> #[trigger] final(score).staves@[t]
            == old(score).staves@[t],
        final(score).staves@[staff_index as int].objects@ == old(score).staves@[staff_index as int].objects@.insert(
            object_index as int,
            with_address(object, address),
        ),
        final(score).slices@ == old(score).slices@,
        final(score).ghost_cursor == old(score).ghost_cursor,
        forall|a: SystemAddress| address_live(*old(score), a) ==> #[trigger] address_live(*final(score), a),
{
    let ghost s = staff_index as int;
    let ghost old_score = *score;
    let ghost old_staff = score.staves@[s];
    proof {
        assert(old_staff.wf());
        let last = old_staff.objects.len() - 1;
        assert(old_staff.objects@[last].slice_address is Some);
    }
    let address = insert_object(slice_addresses_to_respace, &mut score.staves[staff_index], object_index, object);
    proof {
        let new_staff = score.staves@[s];
        lemma_insert_keeps_live(old_staff, new_staff, object_index as int, address);
        lemma_insert_keeps_staff_wf(old_staff, new_staff, object_index as int, address);
        assert(same_alignment(old_staff, new_staff)) by {
            assert forall|a: int| object_live(new_staff, a) && (#[trigger] object_at(new_staff, a)).slice_address is Some implies object_live(old_staff, a)
                && object_at(old_staff, a).slice_address == object_at(new_staff, a).slice_address by {
                let i = new_staff.object_indices@[a] as int;
                assert(object_addresses(new_staff.objects@)[i] == a);
                if i != object_index {
                    let oi = if i < object_index { i } else { i - 1 };
                    assert(new_staff.objects@[i] == old_staff.objects@[oi]);
                    assert(object_addresses(old_staff.objects@)[oi] == a);
                }
            }
        }
        lemma_staff_change_keeps_score_wf(old_score, *score, s);
        assert forall|a: SystemAddress| address_live(old_score, a) implies #[trigger] address_live(*score, a) by {
            if a.staff_index as int != s {
                assert(score.staves@[a.staff_index as int] == old_score.staves@[a.staff_index as int]);
            }
        }
    }
    address
}

/// The position of the last clef at or before `index`, if any.
fn clef_at_or_before(objects: &Vec<Object>, index: usize) -> (clef_index: Option<usize>)
    requires
        index < objects.len(),
    ensures
        match clef_index {
            Some(j) => j == last_clef_at_or_before(objects@, index as int),
            None => last_clef_at_or_before(objects@, index as int) < 0,
        },
        match clef_index {
            Some(j) => j <= index && objects@[j as int].object_type is Clef && forall|k: int|
                j < k <= index ==> !((#[trigger] objects@[k]).object_type is Clef),
            None => forall|k: int| 0 <= k <= index ==> !((#[trigger] objects@[k]).object_type is Clef),
        },
{
    let mut j = index;
    loop
        invariant
            j <= index < objects.len(),
            forall|k: int| j < k <= index ==> !((#[trigger] objects@[k]).object_type is Clef),
            last_clef_at_or_before(objects@, index as int) == last_clef_at_or_before(objects@, j as int),
        decreases j,
    {
        if let ObjectType::Clef(_) = &objects[j].object_type {
            return Some(j);
        }
        if j == 0 {
            proof {
                assert(last_clef_at_or_before(objects@, -1) == -1);
            }
            return None;
        }
        j = j - 1;
    }
}

/// Add a clef at the selection: with the cursor, a new clef goes before the
/// cursor's object (before its accidental, if it has one) and the cursor
/// moves past it; with an object selected, the last clef at or before it
/// takes the new clef's glyph and baseline, the selection goes, and the
/// cursor goes to the position after that clef. Returns whether a clef was
/// placed.
#[verifier::rlimit(40)]
pub fn insert_clef(
    slice_addresses_to_respace: &mut Vec<usize>,
    score: &mut Score,
    selection: &mut Selection,
    clef: Clef,
) -> (inserted: bool)
    requires
        editor_wf(*old(score), *old(selection)),
        !(*old(selection) is Nothing),
        crate::notation::clef_wf(clef),
        -16 <= clef.steps_of_baseline_above_staff_middle <= 16,
    ensures
        editor_wf(*final(score), *final(selection)),
        inserted ==> *final(selection) is ActiveCursor,
        !inserted ==> *final(score) == *old(score) && *final(selection) == *old(selection),
        *old(selection) matches Selection::ActiveCursor { address, range_floor } ==> ({
            let s = address.staff_index as int;
            let index = insertion_index(*old(score), address);
            &&& inserted <==> staff_tables_have_room(*old(score), s)
            &&& inserted ==> {
                &&& exists|a: usize| #[trigger] final(score).staves@[s].objects@ == old(score).staves@[s].objects@.insert(
                    index,
                    with_address(entered_object(ObjectType::Clef(clef)), a),
                )
                &&& forall|t: int| 0 <= t < old(score).staves.len() && t != s ==> #[trigger] final(score).staves@[t]
                    == old(score).staves@[t]
                &&& *final(selection) == cursor_after(*final(score), s, index, range_floor)
            }
        }),
        *old(selection) matches Selection::Object(address) ==> ({
            let s = address.staff_index as int;
            let objects = old(score).staves@[s].objects@;
            let clef_index = last_clef_at_or_before(
                objects,
                old(score).staves@[s].object_indices@[address.object_address as int] as int,
            );
            &&& inserted <==> clef_index >= 0
            &&& inserted ==> {
                &&& final(score).staves@[s].objects.len() == objects.len()
                &&& forall|k: int| 0 <= k < objects.len() ==> (#[trigger] final(score).staves@[s].objects@[k]).object_type
                    == if k == clef_index {
                    ObjectType::Clef(
                        Clef {
                            codepoint: clef.codepoint,
                            steps_of_baseline_above_staff_middle: clef.steps_of_baseline_above_staff_middle,
                            is_header: objects[k].object_type->Clef_0.is_header,
                        },
                    )
                } else {
                    objects[k].object_type
                }
                &&& *final(selection) == cursor_after(*final(score), s, clef_index, 0)
            }
        }),
{
    match *selection {
        Selection::ActiveCursor { address, range_floor } => {
            let staff_index = address.staff_index;
            let ghost s = staff_index as int;
            let mut index = object_index_of(score, address);
            proof {
                assert(score.staves@[s].wf());
            }
            if index > 0 {
                if let ObjectType::Accidental { .. } = &score.staves[staff_index].objects[index - 1].object_type {
                    index = index - 1;
                }
            }
            proof {
                let objects = score.staves@[s].objects@;
                if index > 0 && accidental_note_address(objects[index - 1]) is Some {
                    assert(crate::staff::note_pitch_of(objects[index as int]) is Some);
                }
            }
            if !tables_have_room(score, staff_index) {
                return false;
            }
            insert_unaligned_object(
                slice_addresses_to_respace,
                score,
                staff_index,
                index,
                Object {
                    object_type: ObjectType::Clef(clef),
                    address: 0,
                    slice_address: None,
                    distance_to_next_slice: 0,
                    is_selected: false,
                    is_valid_cursor_position: true,
                },
            );
            let staff = &score.staves[staff_index];
            proof {
                assert(staff.wf());
            }
            let (object_address, new_range_floor) = set_cursor_to_next_state(staff, index, range_floor);
            proof {
                let next = crate::staff::next_cursor_position(staff.objects@, index as int);
                crate::staff::lemma_next_cursor_position(staff.objects@, index as int);
                if next >= 0 {
                    assert(object_addresses(staff.objects@)[next] == object_address);
                } else {
                    assert(object_addresses(staff.objects@)[index as int] == object_address);
                }
            }
            *selection = Selection::ActiveCursor {
                address: SystemAddress { staff_index, object_address },
                range_floor: new_range_floor,
            };
            true
        },
        Selection::Object(address) => {
            let staff_index = address.staff_index;
            let ghost s = staff_index as int;
            let index = object_index_of(score, address);
            let clef_index = match clef_at_or_before(&score.staves[staff_index].objects, index) {
                Some(j) => j,
                None => {
                    return false;
                },
            };
            proof {
                assert(score.staves@[s].wf());
            }
            let object = &score.staves[staff_index].objects[clef_index];
            let is_header = match &object.object_type {
                ObjectType::Clef(old_clef) => old_clef.is_header,
                _ => false,
            };
            let new_object = Object {
                object_type: ObjectType::Clef(Clef {
                    codepoint: clef.codepoint,
                    steps_of_baseline_above_staff_middle: clef.steps_of_baseline_above_staff_middle,
                    is_header,
                }),
                address: object.address,
                slice_address: object.slice_address,
                distance_to_next_slice: object.distance_to_next_slice,
                is_selected: object.is_selected,
                is_valid_cursor_position: object.is_valid_cursor_position,
            };
            let ghost before = *score;
            update_object(&mut score.staves[staff_index], clef_index, new_object);
            proof {
                lemma_staff_change_keeps_score_wf(before, *score, s);
                assert(crate::staff::object_addresses(score.staves@[s].objects@) =~= crate::staff::object_addresses(
                    before.staves@[s].objects@,
                ));
                assert(address_live(*score, address));
            }
            cancel_selection(score, selection);
            let staff = &score.staves[staff_index];
            proof {
                assert(staff.wf());
            }
            let (object_address, new_range_floor) = set_cursor_to_next_state(staff, clef_index, 0);
            proof {
                let next = crate::staff::next_cursor_position(staff.objects@, clef_index as int);
                crate::staff::lemma_next_cursor_position(staff.objects@, clef_index as int);
                if next >= 0 {
                    assert(object_addresses(staff.objects@)[next] == object_address);
                } else {
                    assert(object_addresses(staff.objects@)[clef_index as int] == object_address);
                }
            }
            if clef_index + 1 < staff.objects.len() {
                proof {
                    let last = staff.objects.len() - 1;
                    assert(staff.objects@[last].slice_address is Some);
                }
                let next_slice = next_slice_address(staff, clef_index + 1);
                push_if_not_present(slice_addresses_to_respace, next_slice);
            }
            *selection = Selection::ActiveCursor {
                address: SystemAddress { staff_index, object_address },
                range_floor: new_range_floor,
            };
            true
        },
        Selection::Nothing => false,
    }
}

/// The cursor after the object at `index` of staff `staff_index`: at the
/// next valid cursor position, with the range floor of the last clef or note
/// passed, or at the object itself with `range_floor` when there is none.
pub open spec fn cursor_after(score: Score, staff_index: int, index: int, range_floor: i8) -> Selection {
    let objects = score.staves@[staff_index].objects@;
    let next = crate::staff::next_cursor_position(objects, index);
    if next < 0 {
        Selection::ActiveCursor {
            address: SystemAddress { staff_index: staff_index as usize, object_address: objects[index].address },
            range_floor,
        }
    } else {
        Selection::ActiveCursor {
            address: SystemAddress { staff_index: staff_index as usize, object_address: objects[next].address },
            range_floor: crate::staff::last_implied_range_floor(objects, index, next, range_floor as int) as i8,
        }
    }
}

/// Where a new object goes at the cursor's object at `address`: before it,
/// or before its accidental when it has one.
pub open spec fn insertion_index(score: Score, address: SystemAddress) -> int {
    let objects = score.staves@[address.staff_index as int].objects@;
    let index = score.staves@[address.staff_index as int].object_indices@[address.object_address as int] as int;
    if index > 0 && objects[index - 1].object_type is Accidental {
        index - 1
    } else {
        index
    }
}

/// The position of the last clef at or before `index`, or -1.
pub open spec fn last_clef_at_or_before(objects: Seq<Object>, index: int) -> int
    decreases index + 1,
{
    if index < 0 {
        -1
    } else if objects[index].object_type is Clef {
        index
    } else {
        last_clef_at_or_before(objects, index - 1)
    }
}

/// A clef entered at the cursor: not aligned to a slice, a cursor position.
pub open spec fn entered_object(object_type: ObjectType) -> Object {
    Object {
        object_type,
        address: 0,
        slice_address: None,
        distance_to_next_slice: 0,
        is_selected: false,
        is_valid_cursor_position: true,
    }
}

/// The cursor after the object at `index` of staff `staff_index`: at the
/// next valid cursor position, with the range floor of the last clef or note
/// passed from the object on (or at the object, with `range_floor`, at the
/// end of the staff).
pub fn cursor_after_object(score: &Score, staff_index: usize, index: usize, range_floor: i8) -> (selection: Selection)
    requires
        score.wf(),
        staff_index < score.staves.len(),
        index < score.staves@[staff_index as int].objects.len(),
    ensures
        selection_wf(*score, selection),
        selection == cursor_after(*score, staff_index as int, index as int, range_floor),
{
    let staff = &score.staves[staff_index];
    proof {
        assert(staff.wf());
    }
    let (object_address, new_range_floor) = set_cursor_to_next_state(staff, index, range_floor);
    proof {
        let next = crate::staff::next_cursor_position(staff.objects@, index as int);
        crate::staff::lemma_next_cursor_position(staff.objects@, index as int);
        if next >= 0 {
            assert(object_addresses(staff.objects@)[next] == object_address);
        } else {
            assert(object_addresses(staff.objects@)[index as int] == object_address);
        }
    }
    Selection::ActiveCursor { address: SystemAddress { staff_index, object_address }, range_floor: new_range_floor }
}

/// Where a new object goes at the cursor's object: before it, or before its
/// accidental when it has one.
pub fn cursor_insertion_index(score: &Score, address: SystemAddress) -> (index: usize)
    requires
        score.wf(),
        address_live(*score, address),
    ensures
        index == insertion_index(*score, address),
        index < score.staves@[address.staff_index as int].objects.len(),
        insertion_keeps_links(score.staves@[address.staff_index as int].objects@, index as int),
{
    let staff = &score.staves[address.staff_index];
    let mut index = object_index_of(score, address);
    proof {
        assert(staff.wf());
    }
    if index > 0 {
        if let ObjectType::Accidental { .. } = &staff.objects[index - 1].object_type {
            index = index - 1;
        }
    }
    proof {
        let objects = staff.objects@;
        if index > 0 && accidental_note_address(objects[index - 1]) is Some {
            assert(crate::staff::note_pitch_of(objects[index as int]) is Some);
        }
    }
    index
}

} // verus!
