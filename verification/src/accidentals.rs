use vstd::prelude::*;
use crate::notation::{Accidental, Pitch};
use crate::staff::{
    accidental_note_address, accidental_object, insert_accidental, note_accidental_address, note_pitch_of,
    remove_accidental, same_alignment, same_staff_settings, staff_room, with_note_link, Object, ObjectType,
    SystemAddress,
};
use crate::system::{lemma_staff_change_keeps_score_wf, Score};
use crate::staff::{next_slice_address, push_if_not_present, object_addresses, last_key_sig_before, object_content_wf};
use crate::notation::{letter_accidental, letter_name_accidentals_from_key_sig};

verus! {

/// The letter name (0 for C through 6 for B) of a staff step counted from
/// middle C. Steps below middle C count down through the letters too (the
/// step below C is B), so the remainder is the Euclidean one; a remainder
/// of the step's two's-complement bits taken as an unsigned number would
/// give notes below middle C another letter's name.
pub open spec fn letter_of(steps_above_c4: int) -> int {
    steps_above_c4 % 7
}

/// The letter name of a staff step counted from middle C.
pub fn letter_name(steps_above_c4: i8) -> (letter: u8)
    ensures
        letter as int == letter_of(steps_above_c4 as int),
        letter < 7,
{
    let remainder = steps_above_c4 % 7;
    let ghost s = steps_above_c4 as int;
    proof {
        assert(steps_above_c4 >= 0 ==> remainder == s % 7);
        assert(steps_above_c4 < 0 ==> remainder == -((-s) % 7));
    }
    let letter = if remainder < 0 { remainder + 7 } else { remainder };
    proof {
        if steps_above_c4 < 0 {
            let t = (-s) % 7;
            let q = (-s) / 7;
            assert(-s == 7 * q + t);
            if t == 0 {
                assert(s == 7 * (-q));
                assert(s % 7 == 0);
            } else {
                assert(s == 7 * (-q - 1) + (7 - t));
                assert(s % 7 == 7 - t);
            }
        }
    }
    letter as u8
}

/// What a new note's pitch makes of the history of pitches shown so far
/// (oldest first), searching back from position `i`: whether its accidental
/// must be shown, and the history afterwards. Only pitches of the note's
/// letter count. The first one found that has the note's step, or another
/// accidental than the note, decides: a pitch of the same step shows the
/// accidental when the two accidentals differ and is replaced by the note's
/// pitch; a pitch of another step with another accidental shows it. When no
/// pitch decides, the accidental is shown when it differs from what the key
/// signature gives the letter. Unless replaced, the note's pitch is added.
pub open spec fn scan(history: Seq<Pitch>, pitch: Pitch, i: int, key_accidental: Accidental) -> (bool, Seq<Pitch>)
    decreases i,
{
    if i <= 0 || i > history.len() {
        (key_accidental != pitch.accidental, history.push(pitch))
    } else if letter_of(history[i - 1].steps_above_c4 as int) != letter_of(pitch.steps_above_c4 as int) {
        scan(history, pitch, i - 1, key_accidental)
    } else if history[i - 1].steps_above_c4 == pitch.steps_above_c4 {
        (history[i - 1].accidental != pitch.accidental, history.update(i - 1, pitch))
    } else if history[i - 1].accidental != pitch.accidental {
        (true, history.push(pitch))
    } else {
        scan(history, pitch, i - 1, key_accidental)
    }
}

/// Decide whether a note of `pitch` shows its accidental, given the pitches
/// shown so far, and record the note's pitch among them.
pub fn accidental_shown(history: &mut Vec<Pitch>, pitch: Pitch, key_accidental: Accidental) -> (shown: bool)
    ensures
        (shown, final(history)@) == scan(old(history)@, pitch, old(history).len() as int, key_accidental),
{
    let letter = letter_name(pitch.steps_above_c4);
    let mut i = history.len();
    loop
        invariant
            i <= history.len(),
            history@ == old(history)@,
            letter as int == letter_of(pitch.steps_above_c4 as int),
            scan(old(history)@, pitch, old(history).len() as int, key_accidental) == scan(
                old(history)@,
                pitch,
                i as int,
                key_accidental,
            ),
        decreases i,
    {
        if i == 0 {
            let shown = key_accidental != pitch.accidental;
            history.push(pitch);
            return shown;
        }
        i = i - 1;
        let entry = history[i];
        if letter_name(entry.steps_above_c4) == letter {
            if entry.steps_above_c4 == pitch.steps_above_c4 {
                let shown = entry.accidental != pitch.accidental;
                history.set(i, pitch);
                return shown;
            }
            if entry.accidental != pitch.accidental {
                history.push(pitch);
                return true;
            }
        }
    }
}

/// What the display of an object contributes: the object with its
/// accidental link cleared (for a note), and whether it shows an accidental.
pub struct DisplayEntry {
    pub object: Object,
    pub has_accidental: bool,
}

/// The display entry of an object.
pub open spec fn display_entry(object: Object) -> DisplayEntry {
    DisplayEntry {
        object: with_note_link(object, None, true),
        has_accidental: note_accidental_address(object) is Some,
    }
}

/// The display entries of a run of objects: one for each object that is not
/// an accidental, in order.
pub open spec fn display_entries(objects: Seq<Object>) -> Seq<DisplayEntry>
    decreases objects.len(),
{
    if objects.len() == 0 {
        Seq::empty()
    } else {
        let previous = display_entries(objects.drop_last());
        if accidental_note_address(objects.last()) is Some {
            previous
        } else {
            previous.push(display_entry(objects.last()))
        }
    }
}

/// The objects of display entries.
pub open spec fn entry_objects(entries: Seq<DisplayEntry>) -> Seq<Object> {
    Seq::new(entries.len(), |j: int| entries[j].object)
}

/// The pitches shown after a run of display entries.
pub open spec fn history(entries: Seq<DisplayEntry>, key_accidentals: Seq<Accidental>) -> Seq<Pitch>
    decreases entries.len(),
{
    if entries.len() == 0 {
        Seq::empty()
    } else {
        let previous = history(entries.drop_last(), key_accidentals);
        match note_pitch_of(entries.last().object) {
            Some(pitch) => scan(
                previous,
                pitch,
                previous.len() as int,
                key_accidentals[letter_of(pitch.steps_above_c4 as int)],
            ).1,
            None => previous,
        }
    }
}

/// Whether the note of entry `j` must show its accidental after the entries
/// before it.
pub open spec fn shown_at(entries: Seq<DisplayEntry>, j: int, key_accidentals: Seq<Accidental>) -> bool {
    let previous = history(entries.take(j), key_accidentals);
    let pitch = note_pitch_of(entries[j].object)->0;
    scan(previous, pitch, previous.len() as int, key_accidentals[letter_of(pitch.steps_above_c4 as int)]).0
}

/// Every note of the entries shows its accidental exactly when it must.
pub open spec fn displays_ok(entries: Seq<DisplayEntry>, key_accidentals: Seq<Accidental>) -> bool {
    forall|j: int|
        0 <= j < entries.len() && note_pitch_of((#[trigger] entries[j]).object) is Some ==> entries[j].has_accidental
            == shown_at(entries, j, key_accidentals)
}

/// A run of objects with one more object at its end has that object's
/// display entry at the end of its entries, unless it is an accidental.
pub proof fn lemma_entries_push(objects: Seq<Object>, object: Object)
    ensures
        display_entries(objects.push(object)) == if accidental_note_address(object) is Some {
            display_entries(objects)
        } else {
            display_entries(objects).push(display_entry(object))
        },
{
    assert(objects.push(object).drop_last() =~= objects);
}

/// The history after one more entry is the scan of that entry's pitch, when
/// it is a note.
pub proof fn lemma_history_push(entries: Seq<DisplayEntry>, entry: DisplayEntry, key_accidentals: Seq<Accidental>)
    ensures
        history(entries.push(entry), key_accidentals) == match note_pitch_of(entry.object) {
            Some(pitch) => scan(
                history(entries, key_accidentals),
                pitch,
                history(entries, key_accidentals).len() as int,
                key_accidentals[letter_of(pitch.steps_above_c4 as int)],
            ).1,
            None => history(entries, key_accidentals),
        },
{
    assert(entries.push(entry).drop_last() =~= entries);
}

/// Sound displays stay sound with one more entry that shows its accidental
/// exactly when it must.
pub proof fn lemma_displays_ok_push(entries: Seq<DisplayEntry>, entry: DisplayEntry, key_accidentals: Seq<Accidental>)
    requires
        displays_ok(entries, key_accidentals),
        note_pitch_of(entry.object) matches Some(pitch) ==> entry.has_accidental == scan(
            history(entries, key_accidentals),
            pitch,
            history(entries, key_accidentals).len() as int,
            key_accidentals[letter_of(pitch.steps_above_c4 as int)],
        ).0,
    ensures
        displays_ok(entries.push(entry), key_accidentals),
{
    let pushed = entries.push(entry);
    assert(pushed.take(entries.len() as int) =~= entries);
    assert forall|j: int|
        0 <= j < pushed.len() && note_pitch_of((#[trigger] pushed[j]).object) is Some implies pushed[j].has_accidental
            == shown_at(pushed, j, key_accidentals) by {
        if j < entries.len() {
            assert(pushed.take(j) =~= entries.take(j));
            assert(pushed[j] == entries[j]);
        }
    }
}

/// Equal entry objects stay equal with one more entry of the same object.
pub proof fn lemma_entry_objects_push(a: Seq<DisplayEntry>, b: Seq<DisplayEntry>, x: DisplayEntry, y: DisplayEntry)
    requires
        entry_objects(a) == entry_objects(b),
        x.object == y.object,
    ensures
        entry_objects(a.push(x)) == entry_objects(b.push(y)),
{
    assert(a.len() == entry_objects(a).len());
    assert(b.len() == entry_objects(b).len());
    assert forall|j: int| 0 <= j < a.len() + 1 implies #[trigger] entry_objects(a.push(x))[j] == entry_objects(b.push(y))[j] by {
        if j < a.len() {
            assert(entry_objects(a)[j] == a[j].object);
            assert(entry_objects(b)[j] == b[j].object);
        }
    }
    assert(entry_objects(a.push(x)) =~= entry_objects(b.push(y)));
}

/// The position of the first key signature at or after `start`, or the
/// length of the objects when there is none.
pub open spec fn first_key_sig_from(objects: Seq<Object>, start: int) -> int
    decreases objects.len() - start,
{
    if start < 0 || start >= objects.len() {
        objects.len() as int
    } else if objects[start].object_type is KeySig {
        start
    } else {
        first_key_sig_from(objects, start + 1)
    }
}

/// A position at which the objects end or a key signature stands, with no
/// key signature from `start` up to it, is the first key signature's.
pub proof fn lemma_first_key_sig(objects: Seq<Object>, start: int, position: int)
    requires
        0 <= start <= position <= objects.len(),
        position == objects.len() || objects[position].object_type is KeySig,
        forall|m: int| start <= m < position ==> !((#[trigger] objects[m]).object_type is KeySig),
    ensures
        first_key_sig_from(objects, start) == position,
    decreases position - start,
{
    if start < position {
        lemma_first_key_sig(objects, start + 1, position);
    }
}

/// Remove the accidental at `accidental_index` of staff `staff_index`,
/// unlinking its note; the ghost cursor goes when it stood on the
/// accidental.
pub fn remove_accidental_object(
    slice_addresses_to_respace: &mut Vec<usize>,
    score: &mut Score,
    staff_index: usize,
    accidental_index: usize,
)
    requires
        old(score).wf(),
        staff_index < old(score).staves.len(),
        accidental_index < old(score).staves@[staff_index as int].objects.len(),
        accidental_note_address(old(score).staves@[staff_index as int].objects@[accidental_index as int]) is Some,
    ensures
        final(score).wf(),
        accidental_index + 1 < old(score).staves@[staff_index as int].objects.len(),
        final(score).staves@[staff_index as int].objects@ == old(score).staves@[staff_index as int].objects@.update(
            accidental_index + 1,
            crate::staff::unlinked_note(old(score).staves@[staff_index as int].objects@[accidental_index + 1]),
        ).remove(accidental_index as int),
        same_staff_settings(&final(score).staves@[staff_index as int], &old(score).staves@[staff_index as int]),
        final(score).staves@[staff_index as int].object_indices.len() == old(score).staves@[staff_index as int].object_indices.len(),
        final(score).staves@[staff_index as int].object_address_free_list@ == old(score).staves@[staff_index as int].object_address_free_list@.push(
            old(score).staves@[staff_index as int].objects@[accidental_index as int].address,
        ),
        final(slice_addresses_to_respace)@ == crate::staff::pushed_if_absent(
            old(slice_addresses_to_respace)@,
            crate::staff::spec_next_slice_address(
                old(score).staves@[staff_index as int].objects@.update(
                    accidental_index + 1,
                    crate::staff::unlinked_note(old(score).staves@[staff_index as int].objects@[accidental_index + 1]),
                ),
                accidental_index as int,
            ),
        ),
        final(score).slices@ == old(score).slices@,
        final(score).slice_indices@ == old(score).slice_indices@,
        final(score).slice_address_free_list@ == old(score).slice_address_free_list@,
        final(score).staves.len() == old(score).staves.len(),
        forall|t: int| 0 <= t < old(score).staves.len() && t != staff_index ==> #[trigger] final(score).staves@[t]
            == old(score).staves@[t],
        final(score).ghost_cursor == (if old(score).ghost_cursor == Some(
            SystemAddress {
                staff_index: staff_index,
                object_address: old(score).staves@[staff_index as int].objects@[accidental_index as int].address,
            },
        ) {
            None
        } else {
            old(score).ghost_cursor
        }),
{
    let ghost old_score = *score;
    let address = score.staves[staff_index].objects[accidental_index].address;
    if let Some(ghost_address) = &score.ghost_cursor {
        if ghost_address.staff_index == staff_index && ghost_address.object_address == address {
            score.ghost_cursor = None;
        }
    }
    proof {
        assert(old_score.staves@[staff_index as int].wf());
    }
    remove_accidental(slice_addresses_to_respace, &mut score.staves[staff_index], accidental_index);
    proof {
        lemma_staff_change_keeps_score_wf(old_score, *score, staff_index as int);
    }
}

/// Insert an accidental before the note at `note_index` of staff
/// `staff_index`, which has none, and link the note to it. Returns the
/// accidental's address.
pub fn insert_accidental_object(
    slice_addresses_to_respace: &mut Vec<usize>,
    score: &mut Score,
    staff_index: usize,
    note_index: usize,
) -> (address: usize)
    requires
        old(score).wf(),
        staff_index < old(score).staves.len(),
        note_index < old(score).staves@[staff_index as int].objects.len(),
        note_pitch_of(old(score).staves@[staff_index as int].objects@[note_index as int]) is Some,
        note_accidental_address(old(score).staves@[staff_index as int].objects@[note_index as int]) is None,
        staff_room(old(score).staves@[staff_index as int], 1),
    ensures
        final(score).wf(),
        final(score).staves@[staff_index as int].objects@ == old(score).staves@[staff_index as int].objects@.update(
            note_index as int,
            with_note_link(old(score).staves@[staff_index as int].objects@[note_index as int], Some(address), false),
        ).insert(
            note_index as int,
            accidental_object(address, old(score).staves@[staff_index as int].objects@[note_index as int].address),
        ),
        same_staff_settings(&final(score).staves@[staff_index as int], &old(score).staves@[staff_index as int]),
        final(score).staves@[staff_index as int].object_indices.len() <= old(score).staves@[staff_index as int].object_indices.len() + 1,
        final(score).slices@ == old(score).slices@,
        final(score).slice_indices@ == old(score).slice_indices@,
        final(score).slice_address_free_list@ == old(score).slice_address_free_list@,
        final(score).staves.len() == old(score).staves.len(),
        forall|t: int| 0 <= t < old(score).staves.len() && t != staff_index ==> #[trigger] final(score).staves@[t]
            == old(score).staves@[t],
        final(score).ghost_cursor == old(score).ghost_cursor,
        address == crate::staff::taken_address(
            old(score).staves@[staff_index as int].object_address_free_list@,
            old(score).staves@[staff_index as int].object_indices@.len(),
        ),
        final(score).staves@[staff_index as int].object_address_free_list@ == crate::staff::free_after_taking(
            old(score).staves@[staff_index as int].object_address_free_list@,
        ),
        final(score).staves@[staff_index as int].object_indices@.len() == crate::staff::table_len_after_taking(
            old(score).staves@[staff_index as int].object_address_free_list@,
            old(score).staves@[staff_index as int].object_indices@.len(),
        ),
        final(slice_addresses_to_respace)@ == crate::staff::pushed_if_absent(
            old(slice_addresses_to_respace)@,
            crate::staff::spec_next_slice_address(final(score).staves@[staff_index as int].objects@, note_index as int),
        ),
{
    let ghost old_score = *score;
    proof {
        assert(old_score.staves@[staff_index as int].wf());
    }
    let address = insert_accidental(slice_addresses_to_respace, &mut score.staves[staff_index], note_index);
    proof {
        lemma_staff_change_keeps_score_wf(old_score, *score, staff_index as int);
    }
    address
}

/// The display entries of the objects from `start` up to `end` of a staff.
pub open spec fn staff_entries(score: Score, staff_index: int, start: int, end: int) -> Seq<DisplayEntry> {
    display_entries(score.staves@[staff_index].objects@.subrange(start, end))
}

/// One step of resetting the accidental displays of a staff from `start`,
/// at the object at `index`, on the staff's objects, free addresses, address
/// table length and the slices to respace: a note whose accidental must
/// show but has none gets one before it (at the address a new object takes)
/// and its slice is queued; a note whose accidental shows and must keeps it
/// and its slice is queued; a note whose accidental shows but must not
/// loses it (its address is freed) and its slice is queued; any other
/// object stays. The last component is the position after the object.
pub open spec fn display_step_effect(
    objects: Seq<Object>,
    free: Seq<usize>,
    table_len: nat,
    respace: Seq<usize>,
    start: int,
    index: int,
    key_accidentals: Seq<Accidental>,
) -> (Seq<Object>, Seq<usize>, nat, Seq<usize>, int) {
    let object = objects[index];
    match note_pitch_of(object) {
        Some(pitch) => {
            let previous = history(display_entries(objects.subrange(start, index)), key_accidentals);
            let shown = scan(
                previous,
                pitch,
                previous.len() as int,
                key_accidentals[letter_of(pitch.steps_above_c4 as int)],
            ).0;
            match note_accidental_address(object) {
                Some(_) => if shown {
                    (
                        objects,
                        free,
                        table_len,
                        crate::staff::pushed_if_absent(respace, crate::staff::spec_next_slice_address(objects, index)),
                        index + 1,
                    )
                } else {
                    let unlinked = objects.update(index, crate::staff::unlinked_note(object));
                    (
                        unlinked.remove(index - 1),
                        free.push(objects[index - 1].address),
                        table_len,
                        crate::staff::pushed_if_absent(respace, crate::staff::spec_next_slice_address(unlinked, index - 1)),
                        index,
                    )
                },
                None => if shown {
                    let address = crate::staff::taken_address(free, table_len);
                    let new_objects = objects.update(index, with_note_link(object, Some(address), false)).insert(
                        index,
                        accidental_object(address, object.address),
                    );
                    (
                        new_objects,
                        crate::staff::free_after_taking(free),
                        crate::staff::table_len_after_taking(free, table_len),
                        crate::staff::pushed_if_absent(respace, crate::staff::spec_next_slice_address(new_objects, index)),
                        index + 2,
                    )
                } else {
                    (objects, free, table_len, respace, index + 1)
                },
            }
        },
        None => (objects, free, table_len, respace, index + 1),
    }
}

/// `steps` steps of resetting the accidental displays from `start` (see
/// `display_step_effect`), each at the position the one before left.
pub open spec fn display_run(
    objects: Seq<Object>,
    free: Seq<usize>,
    table_len: nat,
    respace: Seq<usize>,
    start: int,
    key_accidentals: Seq<Accidental>,
    steps: nat,
) -> (Seq<Object>, Seq<usize>, nat, Seq<usize>, int)
    decreases steps,
{
    if steps == 0 {
        (objects, free, table_len, respace, start)
    } else {
        let r = display_run(objects, free, table_len, respace, start, key_accidentals, (steps - 1) as nat);
        display_step_effect(r.0, r.1, r.2, r.3, start, r.4, key_accidentals)
    }
}

/// Show or hide the accidental of the object at `index` of staff
/// `staff_index`, when it is a note, as the pitches shown since `start`
/// require, and record its pitch. Returns the position after the object.
#[verifier::rlimit(60)]
fn display_step(
    slice_addresses_to_respace: &mut Vec<usize>,
    score: &mut Score,
    staff_index: usize,
    index: usize,
    pitches: &mut Vec<Pitch>,
    key_sig_accidentals: &[Accidental; 7],
    Ghost(start): Ghost<int>,
) -> (next: usize)
    requires
        old(score).wf(),
        staff_index < old(score).staves.len(),
        0 <= start <= index < old(score).staves@[staff_index as int].objects.len(),
        start == 0 || accidental_note_address(old(score).staves@[staff_index as int].objects@[start - 1]) is None,
        staff_room(old(score).staves@[staff_index as int], 1),
        old(pitches)@ == history(staff_entries(*old(score), staff_index as int, start, index as int), key_sig_accidentals@),
    ensures
        final(score).wf(),
        final(score).slices@ == old(score).slices@,
        final(score).slice_indices@ == old(score).slice_indices@,
        final(score).slice_address_free_list@ == old(score).slice_address_free_list@,
        final(score).staves.len() == old(score).staves.len(),
        forall|t: int| 0 <= t < old(score).staves.len() && t != staff_index ==> #[trigger] final(score).staves@[t]
            == old(score).staves@[t],
        same_staff_settings(&final(score).staves@[staff_index as int], &old(score).staves@[staff_index as int]),
        final(score).ghost_cursor == old(score).ghost_cursor || final(score).ghost_cursor is None,
        final(score).staves@[staff_index as int].object_indices.len() <= old(score).staves@[staff_index as int].object_indices.len() + 1,
        ({
            let objects = old(score).staves@[staff_index as int].objects@;
            let new_objects = final(score).staves@[staff_index as int].objects@;
            let entries = staff_entries(*old(score), staff_index as int, start, index as int);
            let new_entries = staff_entries(*final(score), staff_index as int, start, next as int);
            let object = objects[index as int];
            &&& start <= next <= new_objects.len()
            &&& new_objects.subrange(0, start) == objects.subrange(0, start)
            &&& new_objects.subrange(next as int, new_objects.len() as int) == objects.subrange(index + 1, objects.len() as int)
            &&& if accidental_note_address(object) is Some {
                new_entries == entries
            } else {
                &&& new_entries.len() == entries.len() + 1
                &&& new_entries.drop_last() == entries
                &&& new_entries.last().object == display_entry(object).object
            }
            &&& displays_ok(entries, key_sig_accidentals@) ==> displays_ok(new_entries, key_sig_accidentals@)
            &&& final(pitches)@ == history(new_entries, key_sig_accidentals@)
        }),
        ({
            let old_staff = old(score).staves@[staff_index as int];
            let staff = final(score).staves@[staff_index as int];
            (staff.objects@, staff.object_address_free_list@, staff.object_indices@.len(), final(slice_addresses_to_respace)@, next as int)
                == display_step_effect(
                old_staff.objects@,
                old_staff.object_address_free_list@,
                old_staff.object_indices@.len(),
                old(slice_addresses_to_respace)@,
                start,
                index as int,
                key_sig_accidentals@,
            )
        }),
{
    let ghost old_score = *score;
    let ghost s = staff_index as int;
    let ghost key = key_sig_accidentals@;
    let ghost objects = score.staves@[s].objects@;
    let ghost entries = display_entries(objects.subrange(start, index as int));
    let ghost object = objects[index as int];
    let ghost entry = display_entry(object);
    proof {
        assert(objects.subrange(start, index + 1) =~= objects.subrange(start, index as int).push(object));
        lemma_entries_push(objects.subrange(start, index as int), object);
        assert(object_addresses(objects)[index as int] == object.address);
        assert(entry.object == with_note_link(object, None, true));
        assert(old_score.staves@[s].wf());
    }
    let address = score.staves[staff_index].objects[index].address;
    let note = match &score.staves[staff_index].objects[index].object_type {
        ObjectType::Duration { pitch: Some(note_pitch), .. } => Some((note_pitch.pitch, note_pitch.accidental_address)),
        _ => None,
    };
    if let Some((pitch, accidental_address)) = note {
        proof {
            assert(note_pitch_of(object) == Some(pitch));
            assert(note_pitch_of(entry.object) == Some(pitch));
            lemma_history_push(entries, entry, key);
        }
        let letter = letter_name(pitch.steps_above_c4);
        let shown = accidental_shown(pitches, pitch, key_sig_accidentals[letter as usize]);
        if let Some(accidental_address) = accidental_address {
            proof {
                assert(note_accidental_address(object) is Some);
                assert(index > 0);
                assert(accidental_note_address(objects[index - 1]) is Some);
                assert(index - 1 >= start);
                assert(object_addresses(objects)[index - 1] == objects[index - 1].address);
            }
            let accidental_index = score.staves[staff_index].object_indices[accidental_address];
            if !shown {
                remove_accidental_object(slice_addresses_to_respace, score, staff_index, accidental_index);
                let ghost new_objects = score.staves@[s].objects@;
                let ghost note_object = crate::staff::unlinked_note(object);
                proof {
                    assert(new_objects[index - 1] == note_object);
                    assert(object_addresses(new_objects)[index - 1] == address);
                }
                let next = score.staves[staff_index].object_indices[address] + 1;
                proof {
                    assert(next == index);
                    assert(new_objects.subrange(0, start) =~= objects.subrange(0, start));
                    assert(new_objects.subrange(index as int, new_objects.len() as int)
                        =~= objects.subrange(index + 1, objects.len() as int));
                    assert(objects.subrange(start, index as int) =~= objects.subrange(start, index - 1).push(objects[index - 1]));
                    lemma_entries_push(objects.subrange(start, index - 1), objects[index - 1]);
                    assert(new_objects.subrange(start, index as int) =~= objects.subrange(start, index - 1).push(note_object));
                    lemma_entries_push(objects.subrange(start, index - 1), note_object);
                    assert(display_entry(note_object).object == entry.object);
                    lemma_history_push(entries, display_entry(note_object), key);
                    if displays_ok(entries, key) {
                        lemma_displays_ok_push(entries, display_entry(note_object), key);
                    }
                    assert(entries.push(display_entry(note_object)).drop_last() =~= entries);
                }
                return next;
            } else {
                let next_slice = next_slice_address(&score.staves[staff_index], index);
                push_if_not_present(slice_addresses_to_respace, next_slice);
                let next = score.staves[staff_index].object_indices[address] + 1;
                proof {
                    if displays_ok(entries, key) {
                        lemma_displays_ok_push(entries, entry, key);
                    }
                    assert(entries.push(entry).drop_last() =~= entries);
                    assert(objects.subrange(start, index + 1) =~= objects.subrange(start, index as int).push(object));
                }
                return next;
            }
        } else if shown {
            proof {
                assert(note_accidental_address(object) is None);
            }
            insert_accidental_object(slice_addresses_to_respace, score, staff_index, index);
            let ghost new_objects = score.staves@[s].objects@;
            let ghost note_object = new_objects[index + 1];
            proof {
                assert(object_addresses(new_objects)[index + 1] == address);
            }
            let next = score.staves[staff_index].object_indices[address] + 1;
            proof {
                assert(next == index + 2);
                assert(new_objects.subrange(0, start) =~= objects.subrange(0, start));
                assert(new_objects.subrange(index + 2, new_objects.len() as int)
                    =~= objects.subrange(index + 1, objects.len() as int));
                let with_accidental = objects.subrange(start, index as int).push(new_objects[index as int]);
                assert(new_objects.subrange(start, index + 2) =~= with_accidental.push(note_object));
                lemma_entries_push(objects.subrange(start, index as int), new_objects[index as int]);
                lemma_entries_push(with_accidental, note_object);
                assert(display_entry(note_object).object == entry.object);
                lemma_history_push(entries, display_entry(note_object), key);
                if displays_ok(entries, key) {
                    lemma_displays_ok_push(entries, display_entry(note_object), key);
                }
                assert(entries.push(display_entry(note_object)).drop_last() =~= entries);
            }
            return next;
        }
        let next = score.staves[staff_index].object_indices[address] + 1;
        proof {
            if displays_ok(entries, key) {
                lemma_displays_ok_push(entries, entry, key);
            }
            assert(entries.push(entry).drop_last() =~= entries);
        }
        return next;
    }
    let next = score.staves[staff_index].object_indices[address] + 1;
    proof {
        assert(note_pitch_of(object) is None);
        assert(note_pitch_of(entry.object) is None);
        if accidental_note_address(object) is None {
            lemma_history_push(entries, entry, key);
            if displays_ok(entries, key) {
                lemma_displays_ok_push(entries, entry, key);
            }
            assert(entries.push(entry).drop_last() =~= entries);
        }
    }
    next
}

/// From position `object_index` of staff `staff_index` up to the next key
/// signature (or the end), show or hide each note's accidental so that it
/// shows exactly when it must: after the pitches shown since the start,
/// with `key_sig_accidentals` giving each letter's accidental. Notes gain an
/// accidental before them or lose theirs; no other object changes but for
/// the notes' accidental links. A new accidental takes the last freed
/// address (else the end of the address table), a removed one frees its
/// address, and the slice of each note whose accidental shows, goes or
/// comes is queued for respacing, step by step as `display_run` tells.
/// Returns whether a key signature ends the run, leaving `object_index` on
/// it (otherwise at the end of the staff).
///
/// The run is meant to start at the head of the staff or just after a key
/// signature; it may not start between a note and its accidental, the
/// accidental of a note at the start lying before it.
#[verifier::rlimit(60)]
pub fn reset_accidental_displays(
    slice_addresses_to_respace: &mut Vec<usize>,
    score: &mut Score,
    staff_index: usize,
    object_index: &mut usize,
    key_sig_accidentals: &[Accidental; 7],
) -> (found_key_sig: bool)
    requires
        old(score).wf(),
        staff_index < old(score).staves.len(),
        *old(object_index) <= old(score).staves@[staff_index as int].objects.len(),
        *old(object_index) == 0 || accidental_note_address(
            old(score).staves@[staff_index as int].objects@[*old(object_index) - 1],
        ) is None,
        old(score).staves@[staff_index as int].object_indices.len() + old(score).staves@[staff_index as int].objects.len()
            < usize::MAX,
    ensures
        final(score).wf(),
        final(score).slices@ == old(score).slices@,
        final(score).slice_indices@ == old(score).slice_indices@,
        final(score).slice_address_free_list@ == old(score).slice_address_free_list@,
        final(score).staves.len() == old(score).staves.len(),
        forall|t: int| 0 <= t < old(score).staves.len() && t != staff_index ==> #[trigger] final(score).staves@[t]
            == old(score).staves@[t],
        same_staff_settings(&final(score).staves@[staff_index as int], &old(score).staves@[staff_index as int]),
        final(score).ghost_cursor == old(score).ghost_cursor || final(score).ghost_cursor is None,
        ({
            let old_objects = old(score).staves@[staff_index as int].objects@;
            let objects = final(score).staves@[staff_index as int].objects@;
            let start = *old(object_index) as int;
            let stop = *final(object_index) as int;
            let key_sig = first_key_sig_from(old_objects, start);
            &&& start <= stop <= objects.len()
            &&& found_key_sig == (key_sig < old_objects.len())
            &&& objects.subrange(0, start) == old_objects.subrange(0, start)
            &&& objects.subrange(stop, objects.len() as int) == old_objects.subrange(key_sig, old_objects.len() as int)
            &&& entry_objects(display_entries(objects.subrange(start, stop))) == entry_objects(
                display_entries(old_objects.subrange(start, key_sig)),
            )
            &&& displays_ok(display_entries(objects.subrange(start, stop)), key_sig_accidentals@)
        }),
        ({
            let old_staff = old(score).staves@[staff_index as int];
            let staff = final(score).staves@[staff_index as int];
            let start = *old(object_index) as int;
            (staff.objects@, staff.object_address_free_list@, staff.object_indices@.len(), final(slice_addresses_to_respace)@,
                *final(object_index) as int) == display_run(
                old_staff.objects@,
                old_staff.object_address_free_list@,
                old_staff.object_indices@.len(),
                old(slice_addresses_to_respace)@,
                start,
                key_sig_accidentals@,
                (first_key_sig_from(old_staff.objects@, start) - start) as nat,
            )
        }),
{
    let ghost old_score = *score;
    let ghost s = staff_index as int;
    let ghost old_staff = old_score.staves@[s];
    let ghost old_objects = old_staff.objects@;
    let ghost start = *object_index as int;
    let ghost key = key_sig_accidentals@;
    let ghost mut k: int = start;
    let ghost old_free = old_staff.object_address_free_list@;
    let ghost old_table_len = old_staff.object_indices@.len();
    let ghost old_respace = slice_addresses_to_respace@;
    let mut pitches: Vec<Pitch> = Vec::new();
    proof {
        assert(old_objects.subrange(start, start) =~= Seq::<Object>::empty());
        assert(display_entries(Seq::<Object>::empty()) =~= Seq::<DisplayEntry>::empty());
        assert(old_objects.subrange(start, old_objects.len() as int) =~= old_objects.subrange(start, old_objects.len() as int));
    }
    while *object_index < score.staves[staff_index].objects.len()
        invariant
            score.wf(),
            old_score == *old(score),
            start == *old(object_index) as int,
            s == staff_index,
            s < score.staves.len(),
            score.staves.len() == old_score.staves.len(),
            forall|t: int| 0 <= t < old_score.staves.len() && t != s ==> #[trigger] score.staves@[t] == old_score.staves@[t],
            score.slices@ == old_score.slices@,
            score.slice_indices@ == old_score.slice_indices@,
            score.slice_address_free_list@ == old_score.slice_address_free_list@,
            score.ghost_cursor == old_score.ghost_cursor || score.ghost_cursor is None,
            same_staff_settings(&score.staves@[s], &old_staff),
            old_staff == old_score.staves@[s],
            old_objects == old_staff.objects@,
            key == key_sig_accidentals@,
            start <= *object_index <= score.staves@[s].objects.len(),
            start <= k <= old_objects.len(),
            start == 0 || accidental_note_address(old_objects[start - 1]) is None,
            score.staves@[s].object_indices.len() + (old_objects.len() - k) < usize::MAX,
            score.staves@[s].objects@.subrange(0, start) == old_objects.subrange(0, start),
            score.staves@[s].objects@.subrange(*object_index as int, score.staves@[s].objects.len() as int)
                == old_objects.subrange(k, old_objects.len() as int),
            forall|m: int| start <= m < k ==> !((#[trigger] old_objects[m]).object_type is KeySig),
            entry_objects(staff_entries(*score, s, start, *object_index as int))
                == entry_objects(display_entries(old_objects.subrange(start, k))),
            displays_ok(staff_entries(*score, s, start, *object_index as int), key),
            pitches@ == history(staff_entries(*score, s, start, *object_index as int), key),
            old_respace == old(slice_addresses_to_respace)@,
            old_free == old_staff.object_address_free_list@,
            old_table_len == old_staff.object_indices@.len(),
            (score.staves@[s].objects@, score.staves@[s].object_address_free_list@, score.staves@[s].object_indices@.len(),
                slice_addresses_to_respace@, *object_index as int) == display_run(
                old_objects,
                old_free,
                old_table_len,
                old_respace,
                start,
                key,
                (k - start) as nat,
            ),
        decreases old_objects.len() - k,
    {
        let index = *object_index;
        let ghost objects = score.staves@[s].objects@;
        let ghost before = *score;
        proof {
            let tail = objects.subrange(index as int, objects.len() as int);
            assert(tail.len() == objects.len() - index);
            assert(k < old_objects.len());
            assert(tail[0] == objects[index as int]);
            assert(old_objects.subrange(k, old_objects.len() as int)[0] == old_objects[k]);
            if start > 0 {
                assert(objects.subrange(0, start)[start - 1] == objects[start - 1]);
                assert(old_objects.subrange(0, start)[start - 1] == old_objects[start - 1]);
            }
        }
        if let ObjectType::KeySig(_) = &score.staves[staff_index].objects[index].object_type {
            proof {
                lemma_first_key_sig(old_objects, start, k);
                assert((first_key_sig_from(old_objects, start) - start) as nat == (k - start) as nat);
                assert((score.staves@[s].objects@, score.staves@[s].object_address_free_list@, score.staves@[s].object_indices@.len(),
                    slice_addresses_to_respace@, *object_index as int) == display_run(
                    old_objects,
                    old_free,
                    old_table_len,
                    old_respace,
                    start,
                    key,
                    (first_key_sig_from(old_objects, start) - start) as nat,
                ));
            }
            return true;
        }
        let ghost previous = (
            score.staves@[s].objects@,
            score.staves@[s].object_address_free_list@,
            score.staves@[s].object_indices@.len(),
            slice_addresses_to_respace@,
            index as int,
        );
        let next = display_step(
            slice_addresses_to_respace,
            score,
            staff_index,
            index,
            &mut pitches,
            key_sig_accidentals,
            Ghost(start),
        );
        *object_index = next;
        proof {
            assert((score.staves@[s].objects@, score.staves@[s].object_address_free_list@, score.staves@[s].object_indices@.len(),
                slice_addresses_to_respace@, next as int) == display_step_effect(
                previous.0,
                previous.1,
                previous.2,
                previous.3,
                start,
                previous.4,
                key,
            ));
            assert(display_run(old_objects, old_free, old_table_len, old_respace, start, key, (k + 1 - start) as nat)
                == display_step_effect(previous.0, previous.1, previous.2, previous.3, start, previous.4, key));
        }
        proof {
            let new_objects = score.staves@[s].objects@;
            let old_entries = display_entries(old_objects.subrange(start, k));
            let entries = staff_entries(before, s, start, index as int);
            let new_entries = staff_entries(*score, s, start, next as int);
            let object = old_objects[k];
            assert(objects[index as int] == object);
            assert(old_objects.subrange(start, k + 1) =~= old_objects.subrange(start, k).push(object));
            lemma_entries_push(old_objects.subrange(start, k), object);
            if accidental_note_address(object) is None {
                assert(new_entries =~= entries.push(new_entries.last()));
                lemma_entry_objects_push(entries, old_entries, new_entries.last(), display_entry(object));
            }
            let tail = objects.subrange(index as int, objects.len() as int);
            assert(objects.subrange(index + 1, objects.len() as int) =~= old_objects.subrange(k + 1, old_objects.len() as int)) by {
                assert forall|j: int| 0 <= j < objects.len() - index - 1 implies
                    #[trigger] objects.subrange(index + 1, objects.len() as int)[j] == old_objects.subrange(k + 1, old_objects.len() as int)[j] by {
                    assert(tail[j + 1] == old_objects.subrange(k, old_objects.len() as int)[j + 1]);
                }
            }
            k = k + 1;
        }
    }
    proof {
        let objects = score.staves@[s].objects@;
        assert(objects.subrange(*object_index as int, objects.len() as int).len() == 0);
        lemma_first_key_sig(old_objects, start, k);
        assert((first_key_sig_from(old_objects, start) - start) as nat == (k - start) as nat);
    }
    false
}

/// What resetting the accidental displays of a staff's objects from `start`
/// did: they changed only in their notes and accidentals from `start` up to
/// the first key signature at or after it (`stop` in the new objects), whose
/// notes now show their accidentals exactly when they must, given
/// `key_accidentals`; `found_key_sig` tells whether that key signature exists.
pub open spec fn staff_displays_reset(
    old_objects: Seq<Object>,
    objects: Seq<Object>,
    start: int,
    stop: int,
    found_key_sig: bool,
    key_accidentals: Seq<Accidental>,
) -> bool {
    let key_sig = first_key_sig_from(old_objects, start);
    &&& start <= stop <= objects.len()
    &&& found_key_sig == (key_sig < old_objects.len())
    &&& objects.subrange(0, start) == old_objects.subrange(0, start)
    &&& objects.subrange(stop, objects.len() as int) == old_objects.subrange(key_sig, old_objects.len() as int)
    &&& entry_objects(display_entries(objects.subrange(start, stop))) == entry_objects(
        display_entries(old_objects.subrange(start, key_sig)),
    )
    &&& displays_ok(display_entries(objects.subrange(start, stop)), key_accidentals)
}

/// What resetting the accidental displays of staff `staff_index` from
/// `start` did to the score: it is sound and changed only in that staff, as
/// `staff_displays_reset` tells.
pub open spec fn displays_reset(
    old_score: Score,
    new_score: Score,
    staff_index: int,
    start: int,
    stop: int,
    found_key_sig: bool,
    key_accidentals: Seq<Accidental>,
) -> bool {
    &&& new_score.wf()
    &&& new_score.slices@ == old_score.slices@
    &&& new_score.slice_indices@ == old_score.slice_indices@
    &&& new_score.slice_address_free_list@ == old_score.slice_address_free_list@
    &&& new_score.staves.len() == old_score.staves.len()
    &&& forall|t: int| 0 <= t < old_score.staves.len() && t != staff_index ==> #[trigger] new_score.staves@[t]
        == old_score.staves@[t]
    &&& same_staff_settings(&new_score.staves@[staff_index], &old_score.staves@[staff_index])
    &&& (new_score.ghost_cursor == old_score.ghost_cursor || new_score.ghost_cursor is None)
    &&& staff_displays_reset(
        old_score.staves@[staff_index].objects@,
        new_score.staves@[staff_index].objects@,
        start,
        stop,
        found_key_sig,
        key_accidentals,
    )
}

/// The accidentals that the last key signature before `end` gives the seven
/// letters, or naturals when there is none.
pub open spec fn previous_key_accidentals(objects: Seq<Object>, end: int) -> Seq<Accidental> {
    let p = last_key_sig_before(objects, end);
    if p < 0 {
        Seq::new(7, |letter: int| Accidental::Natural)
    } else {
        Seq::new(7, |letter: int| letter_accidental(objects[p].object_type->KeySig_0.accidentals@, letter))
    }
}

/// The objects went from `old_objects` to `objects` by resetting the
/// accidental displays from the last key signature before `index` (or the
/// start) with the accidentals that key signature gives each letter.
pub open spec fn displays_reset_from_previous_key_sig(old_objects: Seq<Object>, objects: Seq<Object>, index: int) -> bool {
    exists|stop: int, found: bool| #[trigger] staff_displays_reset(
        old_objects,
        objects,
        last_key_sig_before(old_objects, index) + 1,
        stop,
        found,
        previous_key_accidentals(old_objects, index),
    )
}

/// The last key signature before `end` lies before it.
pub proof fn lemma_last_key_sig_before(objects: Seq<Object>, end: int)
    requires
        end <= objects.len(),
    ensures
        -1 <= last_key_sig_before(objects, end) < end || end <= 0,
        last_key_sig_before(objects, end) >= 0 ==> objects[last_key_sig_before(objects, end)].object_type is KeySig,
    decreases end,
{
    if end > 0 && !(objects[end - 1].object_type is KeySig) {
        lemma_last_key_sig_before(objects, end - 1);
    }
}

/// Reset the accidental displays of staff `staff_index` from the last key
/// signature before `object_index` (or the start of the staff) up to the
/// next one, with the accidentals that key signature gives each letter.
pub fn reset_accidental_displays_from_previous_key_sig(
    slice_addresses_to_respace: &mut Vec<usize>,
    score: &mut Score,
    staff_index: usize,
    object_index: usize,
)
    requires
        old(score).wf(),
        staff_index < old(score).staves.len(),
        object_index <= old(score).staves@[staff_index as int].objects.len(),
        old(score).staves@[staff_index as int].object_indices.len() + old(score).staves@[staff_index as int].objects.len()
            < usize::MAX,
    ensures
        final(score).wf(),
        final(score).slices@ == old(score).slices@,
        final(score).slice_indices@ == old(score).slice_indices@,
        final(score).slice_address_free_list@ == old(score).slice_address_free_list@,
        final(score).staves.len() == old(score).staves.len(),
        forall|t: int| 0 <= t < old(score).staves.len() && t != staff_index ==> #[trigger] final(score).staves@[t]
            == old(score).staves@[t],
        same_staff_settings(&final(score).staves@[staff_index as int], &old(score).staves@[staff_index as int]),
        final(score).ghost_cursor == old(score).ghost_cursor || final(score).ghost_cursor is None,
        displays_reset_from_previous_key_sig(
            old(score).staves@[staff_index as int].objects@,
            final(score).staves@[staff_index as int].objects@,
            object_index as int,
        ),
{
    let ghost objects = score.staves@[staff_index as int].objects@;
    let mut index = object_index;
    let mut key_sig_accidentals = [Accidental::Natural; 7];
    loop
        invariant_except_break
            key_sig_accidentals@ == Seq::new(7, |letter: int| Accidental::Natural),
        invariant
            index <= object_index <= objects.len(),
            objects == score.staves@[staff_index as int].objects@,
            score.wf(),
            staff_index < score.staves.len(),
            last_key_sig_before(objects, object_index as int) == last_key_sig_before(objects, index as int),
        ensures
            index <= object_index,
            last_key_sig_before(objects, object_index as int) + 1 == index,
            key_sig_accidentals@ =~= previous_key_accidentals(objects, object_index as int),
        decreases index,
    {
        if index == 0 {
            proof {
                assert(key_sig_accidentals@ =~= Seq::new(7, |letter: int| Accidental::Natural));
            }
            break;
        }
        if let ObjectType::KeySig(key_sig) = &score.staves[staff_index].objects[index - 1].object_type {
            proof {
                assert(score.staves@[staff_index as int].contents_wf());
                assert(object_content_wf(objects[index - 1], score.staves@[staff_index as int].line_count));
            }
            key_sig_accidentals = letter_name_accidentals_from_key_sig(key_sig);
            break;
        }
        index = index - 1;
    }
    proof {
        lemma_last_key_sig_before(objects, object_index as int);
    }
    let ghost old_score = *score;
    let found = reset_accidental_displays(slice_addresses_to_respace, score, staff_index, &mut index, &key_sig_accidentals);
    proof {
        assert(displays_reset(old_score, *score, staff_index as int, last_key_sig_before(objects, object_index as int) + 1, index as int, found, key_sig_accidentals@));
        assert(staff_displays_reset(objects, score.staves@[staff_index as int].objects@, last_key_sig_before(objects, object_index as int) + 1, index as int, found, key_sig_accidentals@));
    }
}

/// The display entries of two runs of objects one after the other are the
/// entries of the first followed by those of the second.
pub proof fn lemma_entries_add(a: Seq<Object>, b: Seq<Object>)
    ensures
        display_entries(a + b) == display_entries(a) + display_entries(b),
    decreases b.len(),
{
    if b.len() == 0 {
        assert(a + b =~= a);
        assert(display_entries(a) + display_entries(b) =~= display_entries(a));
    } else {
        lemma_entries_add(a, b.drop_last());
        assert((a + b).drop_last() =~= a + b.drop_last());
        assert((a + b).last() == b.last());
        assert(display_entries(a + b.drop_last()).push(display_entry(b.last())) =~= display_entries(a) + display_entries(
            b.drop_last(),
        ).push(display_entry(b.last())));
    }
}

/// The number of display entries of a run of objects split at `m` is the sum
/// of those of the two parts.
pub proof fn lemma_entries_split(objects: Seq<Object>, m: int)
    requires
        0 <= m <= objects.len(),
    ensures
        display_entries(objects).len() == display_entries(objects.subrange(0, m)).len() + display_entries(
            objects.subrange(m, objects.len() as int),
        ).len(),
{
    assert(objects =~= objects.subrange(0, m) + objects.subrange(m, objects.len() as int));
    lemma_entries_add(objects.subrange(0, m), objects.subrange(m, objects.len() as int));
}

/// Resetting accidental displays keeps the number of display entries.
pub proof fn lemma_reset_keeps_entry_count(
    old_objects: Seq<Object>,
    objects: Seq<Object>,
    start: int,
    stop: int,
    found: bool,
    key_accidentals: Seq<Accidental>,
)
    requires
        staff_displays_reset(old_objects, objects, start, stop, found, key_accidentals),
        0 <= start <= old_objects.len(),
    ensures
        display_entries(objects).len() == display_entries(old_objects).len(),
{
    let key_sig = first_key_sig_from(old_objects, start);
    lemma_first_key_sig_bounds(old_objects, start);
    lemma_entries_split(objects, start);
    lemma_entries_split(objects.subrange(start, objects.len() as int), stop - start);
    assert(objects.subrange(start, objects.len() as int).subrange(0, stop - start) =~= objects.subrange(start, stop));
    assert(objects.subrange(start, objects.len() as int).subrange(stop - start, objects.len() - start) =~= objects.subrange(
        stop,
        objects.len() as int,
    ));
    lemma_entries_split(old_objects, start);
    lemma_entries_split(old_objects.subrange(start, old_objects.len() as int), key_sig - start);
    assert(old_objects.subrange(start, old_objects.len() as int).subrange(0, key_sig - start) =~= old_objects.subrange(
        start,
        key_sig,
    ));
    assert(old_objects.subrange(start, old_objects.len() as int).subrange(key_sig - start, old_objects.len() - start)
        =~= old_objects.subrange(key_sig, old_objects.len() as int));
    assert(entry_objects(display_entries(objects.subrange(start, stop))).len() == display_entries(
        objects.subrange(start, stop),
    ).len());
    assert(entry_objects(display_entries(old_objects.subrange(start, key_sig))).len() == display_entries(
        old_objects.subrange(start, key_sig),
    ).len());
}

/// The first key signature from `start` lies between `start` and the end.
pub proof fn lemma_first_key_sig_bounds(objects: Seq<Object>, start: int)
    requires
        0 <= start <= objects.len(),
    ensures
        start <= first_key_sig_from(objects, start) <= objects.len(),
    decreases objects.len() - start,
{
    if start < objects.len() && !(objects[start].object_type is KeySig) {
        lemma_first_key_sig_bounds(objects, start + 1);
    }
}

} // verus!
