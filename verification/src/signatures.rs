use vstd::prelude::*;
use crate::editor::{
    address_live, cancel_selection, cursor_after, cursor_after_object, cursor_insertion_index, editor_wf, entered_object,
    insert_unaligned_object, insertion_index, object_index_of, selection_wf, staff_tables_have_room, validate_selection,
    Selection,
};
use crate::durations::tables_have_room;
use crate::headers::insert_header_object;
use crate::notation::{letter_name_accidentals_from_key_sig, Accidental, KeySig, KeySigAccidental};
use crate::staff::{chosen_key_sig, new_key_sig, range_floor_at_index, replace_object_type, with_type, Object, ObjectType};
use crate::system::{lemma_staff_change_keeps_score_wf, Score};
use crate::accidentals::{first_key_sig_from, reset_accidental_displays};
use crate::content::{lemma_content_add, lemma_content_of_tails, lemma_first_key_sig_shift, staff_content};
use crate::removal::remove_object;

verus! {

/// Whether the object at `index` of staff `staff_index` is a clef aligned
/// to a slice.
fn is_aligned_clef(score: &Score, staff_index: usize, index: usize) -> (is_clef: bool)
    requires
        staff_index < score.staves.len(),
        index < score.staves@[staff_index as int].objects.len(),
    ensures
        is_clef == (score.staves@[staff_index as int].objects@[index as int].object_type is Clef
            && score.staves@[staff_index as int].objects@[index as int].slice_address is Some),
{
    let object = &score.staves[staff_index].objects[index];
    if let ObjectType::Clef(_) = &object.object_type {
        object.slice_address.is_some()
    } else {
        false
    }
}

/// The object at `index` of the staff is a clef aligned to a slice.
pub open spec fn is_aligned_clef_at(objects: Seq<Object>, index: int) -> bool {
    0 <= index < objects.len() && objects[index].object_type is Clef && objects[index].slice_address is Some
}

/// A key signature of `accidental_count` sharps or flats can be made at
/// `index`: the count is not zero, or (for naturals) a key signature with
/// accidentals comes before.
pub open spec fn key_sig_available(objects: Seq<Object>, index: int, accidental_count: u8) -> bool {
    let previous = crate::staff::last_key_sig_before(objects, index);
    accidental_count > 0 || (previous >= 0 && objects[previous].object_type->KeySig_0.accidentals.len() > 0)
}

/// A key signature can go at the selected object at `index`: it is a clef
/// aligned to a slice, a key signature, or a time signature after a key
/// signature or after a clef aligned to a slice.
pub open spec fn key_sig_fits_at(objects: Seq<Object>, index: int) -> bool {
    ||| is_aligned_clef_at(objects, index)
    ||| objects[index].object_type is KeySig
    ||| (objects[index].object_type is TimeSig && index > 0 && (objects[index - 1].object_type is KeySig
        || is_aligned_clef_at(objects, index - 1)))
}

/// Where a key signature goes for the selected object at `index`: after a
/// selected clef; in place of a selected key signature, or of the key
/// signature before a selected time signature; otherwise before the
/// selected time signature.
pub open spec fn key_sig_place(objects: Seq<Object>, index: int) -> int {
    if is_aligned_clef_at(objects, index) {
        index + 1
    } else if objects[index].object_type is TimeSig && objects[index - 1].object_type is KeySig {
        index - 1
    } else {
        index
    }
}

/// Whether the key signature placed for the selected object at `index`
/// takes the place of one already there (rather than going before the
/// object at its place).
pub open spec fn key_sig_replaces(objects: Seq<Object>, index: int, key_sig: KeySig) -> bool {
    if is_aligned_clef_at(objects, index) {
        crate::headers::header_place(objects, index, 0, 1, ObjectType::KeySig(key_sig)).1
    } else {
        objects[key_sig_place(objects, index)].object_type is KeySig
    }
}

/// The objects that follow a key signature placed for the selected object
/// at `index`, once that object is no longer selected.
pub open spec fn selected_key_sig_rest(objects: Seq<Object>, index: int, key_sig: KeySig) -> Seq<Object> {
    let place = key_sig_place(objects, index);
    let start = if key_sig_replaces(objects, index, key_sig) { place + 1 } else { place };
    let rest = objects.subrange(start, objects.len() as int);
    if start <= index {
        rest.update(index - start, crate::staff::with_selected(objects[index], false))
    } else {
        rest
    }
}

/// Where the selected object at `index` stands once a key signature was
/// placed for it.
pub open spec fn selected_position(objects: Seq<Object>, index: int, key_sig: KeySig) -> int {
    let place = key_sig_place(objects, index);
    let start = if key_sig_replaces(objects, index, key_sig) { place + 1 } else { place };
    if start <= index {
        place + 1 + (index - start)
    } else if index < place {
        index
    } else {
        place
    }
}

/// After a key signature was placed for the selected object at `sel`, that
/// object stands at `selected_position`, and deselecting it leaves after the
/// key signature the objects `selected_key_sig_rest` names.
proof fn lemma_selected_tail(objects: Seq<Object>, placed: Seq<Object>, sel: int, k: int, key_sig: KeySig)
    requires
        0 <= sel < objects.len(),
        key_sig_fits_at(objects, sel),
        k == key_sig_place(objects, sel),
        k < placed.len(),
        forall|j: int| 0 <= j < k ==> #[trigger] placed[j] == objects[j],
        key_sig_replaces(objects, sel, key_sig) ==> placed[k] == with_type(objects[k], ObjectType::KeySig(key_sig)),
        placed.subrange(k + 1, placed.len() as int) == if key_sig_replaces(objects, sel, key_sig) {
            objects.subrange(k + 1, objects.len() as int)
        } else {
            objects.subrange(k, objects.len() as int)
        },
    ensures
        ({
            let j = selected_position(objects, sel, key_sig);
            &&& 0 <= j < placed.len()
            &&& placed[j].address == objects[sel].address
            &&& placed.update(j, crate::staff::with_selected(placed[j], false)).subrange(k + 1, placed.len() as int)
                == selected_key_sig_rest(objects, sel, key_sig)
        }),
{
    let j = selected_position(objects, sel, key_sig);
    let replaces = key_sig_replaces(objects, sel, key_sig);
    let start = if replaces { k + 1 } else { k };
    let tail = placed.subrange(k + 1, placed.len() as int);
    assert(tail.len() == objects.len() - start);
    if start <= sel {
        assert(tail[sel - start] == placed[j]);
        assert(objects.subrange(start, objects.len() as int)[sel - start] == objects[sel]);
    }
    assert(placed.update(j, crate::staff::with_selected(placed[j], false)).subrange(k + 1, placed.len() as int)
        =~= selected_key_sig_rest(objects, sel, key_sig));
}

/// A time signature can go at the selected object at `index`: it is a clef
/// aligned to a slice, a key signature right after one, or a time signature.
pub open spec fn time_sig_fits_at(objects: Seq<Object>, index: int) -> bool {
    ||| is_aligned_clef_at(objects, index)
    ||| (objects[index].object_type is KeySig && is_aligned_clef_at(objects, index - 1))
    ||| objects[index].object_type is TimeSig
}

/// Where a time signature goes for the selected object at `index`: in the
/// header after a selected clef, or after the clef before a selected key
/// signature (see `header_place`); in place of a selected time signature.
pub open spec fn time_sig_place(objects: Seq<Object>, index: int, header_object: ObjectType) -> int {
    if is_aligned_clef_at(objects, index) {
        crate::headers::header_place(objects, index, 0, 2, header_object).0
    } else if objects[index].object_type is KeySig {
        crate::headers::header_place(objects, index - 1, 0, 2, header_object).0
    } else {
        index
    }
}

/// Add a time signature of `numerator` over `denominator` at the selection:
/// with the cursor, before the cursor's object (before its accidental, if it
/// has one); with a header object selected, in the staff's header (after
/// the clef and key signature), replacing a selected header time signature;
/// the selection goes. The cursor then goes to the position after the time
/// signature. Returns whether a time signature was placed.
pub fn insert_time_sig(
    slice_addresses_to_respace: &mut Vec<usize>,
    score: &mut Score,
    selection: &mut Selection,
    numerator: u16,
    denominator: u16,
) -> (inserted: bool)
    requires
        editor_wf(*old(score), *old(selection)),
        !(*old(selection) is Nothing),
    ensures
        editor_wf(*final(score), *final(selection)),
        inserted ==> *final(selection) is ActiveCursor,
        !inserted ==> *final(score) == *old(score) && *final(selection) == *old(selection),
        *old(selection) matches Selection::ActiveCursor { address, range_floor } ==> ({
            let s = address.staff_index as int;
            let index = insertion_index(*old(score), address);
            &&& inserted <==> staff_tables_have_room(*old(score), s)
            &&& inserted ==> {
                &&& exists|a: usize| #[trigger] final(score).staves@[s].objects@ == old(score).staves@[s].objects@.insert(
                    index,
                    crate::staff::with_address(
                        entered_object(ObjectType::TimeSig { numerator, denominator, is_header: false }),
                        a,
                    ),
                )
                &&& forall|t: int| 0 <= t < old(score).staves.len() && t != s ==> #[trigger] final(score).staves@[t]
                    == old(score).staves@[t]
                &&& *final(selection) == cursor_after(*final(score), s, index, range_floor)
            }
        }),
        *old(selection) matches Selection::Object(address) ==> ({
            let s = address.staff_index as int;
            let objects = old(score).staves@[s].objects@;
            let selected = old(score).staves@[s].object_indices@[address.object_address as int] as int;
            let place = time_sig_place(objects, selected, ObjectType::TimeSig { numerator, denominator, is_header: true });
            &&& inserted <==> (staff_tables_have_room(*old(score), s) && time_sig_fits_at(objects, selected))
            &&& inserted ==> {
                &&& forall|t: int| 0 <= t < old(score).staves.len() && t != s ==> #[trigger] final(score).staves@[t]
                    == old(score).staves@[t]
                &&& place < final(score).staves@[s].objects.len()
                &&& forall|j: int| 0 <= j < place ==> (#[trigger] final(score).staves@[s].objects@[j]).object_type
                    == objects[j].object_type
                &&& final(score).staves@[s].objects@[place].object_type matches ObjectType::TimeSig {
                    numerator: n,
                    denominator: d,
                    ..
                }
                &&& n == numerator && d == denominator
                &&& *final(selection) == cursor_after(
                    *final(score),
                    s,
                    place,
                    crate::staff::last_implied_range_floor(objects, 0, selected, 3) as i8,
                )
            }
        }),
{
    let staff_index;
    let time_sig_index;
    let range_floor;
    match *selection {
        Selection::ActiveCursor { address, range_floor: floor } => {
            staff_index = address.staff_index;
            range_floor = floor;
            let index = cursor_insertion_index(score, address);
            if !tables_have_room(score, staff_index) {
                return false;
            }
            insert_unaligned_object(
                slice_addresses_to_respace,
                score,
                staff_index,
                index,
                Object {
                    object_type: ObjectType::TimeSig { numerator, denominator, is_header: false },
                    address: 0,
                    slice_address: None,
                    distance_to_next_slice: 0,
                    is_selected: false,
                    is_valid_cursor_position: true,
                },
            );
            time_sig_index = index;
        },
        Selection::Object(address) => {
            staff_index = address.staff_index;
            let ghost s = staff_index as int;
            let selection_index = object_index_of(score, address);
            proof {
                assert(score.staves@[s].wf());
            }
            range_floor = range_floor_at_index(&score.staves[staff_index], selection_index);
            if !tables_have_room(score, staff_index) {
                return false;
            }
            let mut is_clef = false;
            let mut is_key_sig = false;
            let mut is_time_sig = false;
            let mut selected_is_header = false;
            match &score.staves[staff_index].objects[selection_index].object_type {
                ObjectType::Clef(_) => {
                    is_clef = true;
                },
                ObjectType::KeySig(_) => {
                    is_key_sig = true;
                },
                ObjectType::TimeSig { is_header, .. } => {
                    is_time_sig = true;
                    selected_is_header = *is_header;
                },
                _ => {},
            }
            if is_clef {
                if !is_aligned_clef(score, staff_index, selection_index) {
                    return false;
                }
                time_sig_index = insert_header_object(
                    slice_addresses_to_respace,
                    score,
                    staff_index,
                    selection_index,
                    2,
                    ObjectType::TimeSig { numerator, denominator, is_header: true },
                );
            } else if is_key_sig {
                if selection_index == 0 || !is_aligned_clef(score, staff_index, selection_index - 1) {
                    return false;
                }
                time_sig_index = insert_header_object(
                    slice_addresses_to_respace,
                    score,
                    staff_index,
                    selection_index - 1,
                    2,
                    ObjectType::TimeSig { numerator, denominator, is_header: true },
                );
            } else if is_time_sig {
                let ghost before = *score;
                replace_object_type(
                    &mut score.staves[staff_index],
                    selection_index,
                    ObjectType::TimeSig { numerator, denominator, is_header: selected_is_header },
                );
                proof {
                    lemma_staff_change_keeps_score_wf(before, *score, s);
                }
                time_sig_index = selection_index;
            } else {
                return false;
            }
            let ghost placed_objects = score.staves@[s].objects@;
            validate_selection(score, selection);
            cancel_selection(score, selection);
            proof {
                let objects = score.staves@[s].objects@;
                assert forall|j: int| 0 <= j <= time_sig_index implies (#[trigger] objects[j]).object_type
                    == placed_objects[j].object_type by {}
            }
        },
        Selection::Nothing => {
            return false;
        },
    }
    *selection = cursor_after_object(score, staff_index, time_sig_index, range_floor);
    true
}

/// The key signature of naturals that cancels `key_sig`'s letters.
fn cancelling_key_sig_accidentals(accidentals: &Vec<KeySigAccidental>) -> (naturals: Vec<KeySigAccidental>)
    ensures
        naturals@ == crate::staff::cancelling_accidentals(accidentals@),
{
    let mut naturals: Vec<KeySigAccidental> = Vec::new();
    let mut i: usize = 0;
    while i < accidentals.len()
        invariant
            i <= accidentals.len(),
            naturals@ == crate::staff::cancelling_accidentals(accidentals@.take(i as int)),
        decreases accidentals.len() - i,
    {
        naturals.push(KeySigAccidental { accidental: Accidental::Natural, letter_name: accidentals[i].letter_name });
        proof {
            assert(naturals@ =~= crate::staff::cancelling_accidentals(accidentals@.take(i + 1)));
        }
        i = i + 1;
    }
    proof {
        assert(accidentals@.take(i as int) =~= accidentals@);
    }
    naturals
}

/// The object is a key signature whose first accidental is a natural.
pub open spec fn cancels(object: Object) -> bool {
    object.object_type matches ObjectType::KeySig(k) && k.accidentals.len() > 0 && k.accidentals@[0].accidental
        == Accidental::Natural
}

/// Whether the object is a key signature whose first accidental is a
/// natural.
fn is_cancelling_key_sig(object: &Object) -> (cancelling: bool)
    ensures
        cancelling == cancels(*object),
{
    if let ObjectType::KeySig(key_sig) = &object.object_type {
        if key_sig.accidentals.len() > 0 {
            return key_sig.accidentals[0].accidental == Accidental::Natural;
        }
    }
    false
}

/// `content` is the content of `rest`, the objects after a new key
/// signature, once the first key signature among them is settled: when it
/// cancels, it goes if the new key signature cancels too (unless it is the
/// last object), and otherwise its accidentals become `naturals`, its
/// drawing floors and header place kept.
pub open spec fn settled_tail(
    rest: Seq<Object>,
    content: Seq<Object>,
    new_cancels: bool,
    naturals: Seq<KeySigAccidental>,
) -> bool {
    let next = first_key_sig_from(rest, 0);
    if next < rest.len() && cancels(rest[next]) {
        if new_cancels {
            if next + 1 < rest.len() {
                content == staff_content(rest.remove(next))
            } else {
                content == staff_content(rest)
            }
        } else {
            exists|key_sig: KeySig|
                {
                    &&& key_sig.accidentals@ == naturals
                    &&& key_sig.floors == rest[next].object_type->KeySig_0.floors
                    &&& key_sig.is_header == rest[next].object_type->KeySig_0.is_header
                    &&& content == #[trigger] staff_content(
                        rest.update(next, with_type(rest[next], ObjectType::KeySig(key_sig))),
                    )
                }
        }
    } else {
        content == staff_content(rest)
    }
}

/// After the displays were reset from `k + 1` up to the next key signature,
/// the content from `k + 1` on is the same, and so is everything from that
/// key signature on.
proof fn lemma_reset_tail(
    old_objects: Seq<Object>,
    objects: Seq<Object>,
    k: int,
    stop: int,
    found_key_sig: bool,
    key_accidentals: Seq<Accidental>,
)
    requires
        0 <= k < old_objects.len(),
        crate::accidentals::staff_displays_reset(old_objects, objects, k + 1, stop, found_key_sig, key_accidentals),
    ensures
        ({
            let next = first_key_sig_from(old_objects, k + 1);
            let rest = old_objects.subrange(k + 1, old_objects.len() as int);
            &&& k + 1 <= next <= old_objects.len()
            &&& first_key_sig_from(rest, 0) == next - (k + 1)
            &&& objects.len() - stop == old_objects.len() - next
            &&& next < old_objects.len() ==> objects[stop] == old_objects[next] && rest[next - (k + 1)] == old_objects[next]
            &&& staff_content(objects.subrange(k + 1, objects.len() as int)) == staff_content(rest)
            &&& staff_content(objects.subrange(k + 1, stop)) == staff_content(old_objects.subrange(k + 1, next))
            &&& objects.subrange(stop, objects.len() as int) == old_objects.subrange(next, old_objects.len() as int)
        }),
{
    let next = first_key_sig_from(old_objects, k + 1);
    let rest = old_objects.subrange(k + 1, old_objects.len() as int);
    let head = objects.subrange(k + 1, stop);
    let old_head = old_objects.subrange(k + 1, next);
    let shared = objects.subrange(stop, objects.len() as int);
    crate::accidentals::lemma_first_key_sig_bounds(old_objects, k + 1);
    lemma_first_key_sig_shift(old_objects, k + 1, 0);
    assert(shared == old_objects.subrange(next, old_objects.len() as int));
    assert(objects.subrange(k + 1, objects.len() as int) =~= head + shared);
    assert(rest =~= old_head + shared);
    lemma_content_add(head, shared);
    lemma_content_add(old_head, shared);
    if next < old_objects.len() {
        assert(shared[0] == objects[stop]);
        assert(old_objects.subrange(next, old_objects.len() as int)[0] == old_objects[next]);
        assert(rest[next - (k + 1)] == old_objects[next]);
    }
}

/// Removing the object at `idx` after the displays were reset from `k + 1`
/// (as removing a key signature does, resetting from the key signature at
/// `k`) leaves from `k + 1` on the content of what came before, without
/// that object.
proof fn lemma_removal_tail(reset_objects: Seq<Object>, objects: Seq<Object>, k: int, idx: int)
    requires
        0 <= k < idx,
        idx + 1 < reset_objects.len(),
        reset_objects[k].object_type is KeySig,
        crate::accidentals::displays_reset_from_previous_key_sig(
            crate::removal::without_run(reset_objects, idx, idx),
            objects,
            idx,
        ),
    ensures
        k < objects.len(),
        objects.subrange(0, k + 1) == reset_objects.subrange(0, k + 1),
        staff_content(objects.subrange(k + 1, objects.len() as int)) == staff_content(
            reset_objects.subrange(k + 1, idx),
        ) + staff_content(reset_objects.subrange(idx + 1, reset_objects.len() as int)),
{
    let without = crate::removal::without_run(reset_objects, idx, idx);
    assert(without[k] == reset_objects[k]);
    crate::staff::lemma_last_key_sig_at_least(without, k, idx);
    let start = crate::staff::last_key_sig_before(without, idx) + 1;
    let key = crate::accidentals::previous_key_accidentals(without, idx);
    let (stop, found_key_sig) = choose|stop: int, found_key_sig: bool| #[trigger] crate::accidentals::staff_displays_reset(
        without,
        objects,
        start,
        stop,
        found_key_sig,
        key,
    );
    assert(objects.subrange(0, start) == without.subrange(0, start));
    assert(objects.subrange(0, k + 1) =~= objects.subrange(0, start).subrange(0, k + 1));
    assert(without.subrange(0, k + 1) =~= without.subrange(0, start).subrange(0, k + 1));
    assert(without.subrange(0, k + 1) =~= reset_objects.subrange(0, k + 1));
    crate::laws::law_display_reset_keeps_content(without, objects, start, stop, found_key_sig, key);
    lemma_content_of_tails(objects, without, k + 1);
    assert(without.subrange(k + 1, without.len() as int) =~= reset_objects.subrange(k + 1, idx) + reset_objects.subrange(
        idx + 1,
        reset_objects.len() as int,
    ));
    lemma_content_add(reset_objects.subrange(k + 1, idx), reset_objects.subrange(idx + 1, reset_objects.len() as int));
}

/// After a key signature was placed at `key_sig_index`, reset the accidental
/// displays up to the next key signature; when there is one and it cancels
/// (its first accidental is a natural): it goes too when the new one also
/// cancels, otherwise it becomes naturals on the new one's letters. The
/// content after the key signature is as `settled_tail` tells, unless the
/// tables are full.
#[verifier::rlimit(40)]
fn settle_next_key_sig(
    slice_addresses_to_respace: &mut Vec<usize>,
    score: &mut Score,
    staff_index: usize,
    key_sig_index: usize,
    key_sig_accidentals: &[Accidental; 7],
    new_cancels: bool,
    next_naturals: Vec<KeySigAccidental>,
)
    requires
        old(score).wf(),
        staff_index < old(score).staves.len(),
        key_sig_index < old(score).staves@[staff_index as int].objects.len(),
        old(score).staves@[staff_index as int].objects@[key_sig_index as int].object_type is KeySig,
        forall|j: int| 0 <= j < next_naturals.len() ==> #[trigger] next_naturals@[j].letter_name < 7,
    ensures
        final(score).wf(),
        final(score).staves.len() == old(score).staves.len(),
        forall|t: int| 0 <= t < old(score).staves.len() && t != staff_index ==> #[trigger] final(score).staves@[t]
            == old(score).staves@[t],
        key_sig_index < final(score).staves@[staff_index as int].objects.len(),
        final(score).staves@[staff_index as int].objects@.subrange(0, key_sig_index + 1)
            == old(score).staves@[staff_index as int].objects@.subrange(0, key_sig_index + 1),
        ({
            let s = staff_index as int;
            let k = key_sig_index as int;
            let old_objects = old(score).staves@[s].objects@;
            let objects = final(score).staves@[s].objects@;
            let tail = staff_content(objects.subrange(k + 1, objects.len() as int));
            let rest = old_objects.subrange(k + 1, old_objects.len() as int);
            ||| settled_tail(rest, tail, new_cancels, next_naturals@)
            ||| (!staff_tables_have_room(*final(score), s) && tail == staff_content(rest))
        }),
{
    let ghost s = staff_index as int;
    let ghost k = key_sig_index as int;
    let ghost old_objects = score.staves@[s].objects@;
    let ghost rest = old_objects.subrange(k + 1, old_objects.len() as int);
    let ghost naturals = next_naturals@;
    if !tables_have_room(score, staff_index) {
        return;
    }
    let mut next_key_sig_index = key_sig_index + 1;
    proof {
        assert(crate::staff::accidental_note_address(score.staves@[s].objects@[key_sig_index as int]) is None);
    }
    let found = reset_accidental_displays(slice_addresses_to_respace, score, staff_index, &mut next_key_sig_index, key_sig_accidentals);
    let ghost reset_objects = score.staves@[s].objects@;
    let ghost stop = next_key_sig_index as int;
    let ghost next = first_key_sig_from(old_objects, k + 1);
    proof {
        assert(reset_objects.subrange(0, k + 1)[k] == reset_objects[k]);
        assert(old_objects.subrange(0, k + 1)[k] == old_objects[k]);
        lemma_reset_tail(old_objects, reset_objects, k, stop, found, key_sig_accidentals@);
    }
    if !found || next_key_sig_index >= score.staves[staff_index].objects.len() {
        return;
    }
    if !is_cancelling_key_sig(&score.staves[staff_index].objects[next_key_sig_index]) {
        return;
    }
    if new_cancels {
        if next_key_sig_index + 1 < score.staves[staff_index].objects.len() && tables_have_room(score, staff_index) {
            let idx = next_key_sig_index;
            remove_object(slice_addresses_to_respace, score, staff_index, next_key_sig_index);
            proof {
                let objects = score.staves@[s].objects@;
                lemma_removal_tail(reset_objects, objects, k, idx as int);
                let shared = reset_objects.subrange(idx + 1, reset_objects.len() as int);
                let old_head = old_objects.subrange(k + 1, next);
                let reset_shared = reset_objects.subrange(stop, reset_objects.len() as int);
                let old_shared = old_objects.subrange(next, old_objects.len() as int);
                assert(shared =~= reset_shared.subrange(1, reset_shared.len() as int));
                assert(old_objects.subrange(next + 1, old_objects.len() as int) =~= old_shared.subrange(1, old_shared.len() as int));
                assert(rest.remove(next - (k + 1)) =~= old_head + old_objects.subrange(next + 1, old_objects.len() as int));
                lemma_content_add(old_head, old_objects.subrange(next + 1, old_objects.len() as int));
            }
        }
    } else {
        let object = &score.staves[staff_index].objects[next_key_sig_index];
        let (floors, is_header) = match &object.object_type {
            ObjectType::KeySig(key_sig) => (key_sig.floors, key_sig.is_header),
            _ => {
                return;
            },
        };
        proof {
            assert(score.staves@[s].wf());
            assert(crate::staff::unlinked(score.staves@[s].objects@[next_key_sig_index as int]));
        }
        let ghost before = *score;
        let new_key_sig = KeySig { accidentals: next_naturals, floors, is_header };
        let ghost settled = new_key_sig;
        replace_object_type(&mut score.staves[staff_index], next_key_sig_index, ObjectType::KeySig(new_key_sig));
        proof {
            lemma_staff_change_keeps_score_wf(before, *score, s);
            let objects = score.staves@[s].objects@;
            let head = reset_objects.subrange(k + 1, stop);
            let old_head = old_objects.subrange(k + 1, next);
            let changed_shared = reset_objects.subrange(stop, reset_objects.len() as int).update(
                0,
                with_type(old_objects[next], ObjectType::KeySig(settled)),
            );
            assert(objects.subrange(0, k + 1) =~= reset_objects.subrange(0, k + 1));
            assert(objects.subrange(k + 1, objects.len() as int) =~= head + changed_shared);
            assert(rest.update(next - (k + 1), with_type(rest[next - (k + 1)], ObjectType::KeySig(settled)))
                =~= old_head + changed_shared);
            lemma_content_add(head, changed_shared);
            lemma_content_add(old_head, changed_shared);
            assert(settled.accidentals@ == naturals);
        }
    }
}

/// Place `key_sig` for the selected object at `selection_index` of staff
/// `staff_index`: in the header after a selected clef aligned to a slice; in
/// place of a selected key signature; in place of the key signature before
/// a selected time signature, or else before the time signature when a clef
/// aligned to a slice comes before it. Returns where it went; nothing, with
/// the score unchanged, when a key signature cannot go there.
fn place_selected_key_sig(
    slice_addresses_to_respace: &mut Vec<usize>,
    score: &mut Score,
    staff_index: usize,
    selection_index: usize,
    key_sig: KeySig,
) -> (key_sig_index: Option<usize>)
    requires
        old(score).wf(),
        staff_index < old(score).staves.len(),
        selection_index < old(score).staves@[staff_index as int].objects.len(),
        staff_tables_have_room(*old(score), staff_index as int),
        crate::notation::key_sig_letters_wf(key_sig.accidentals@),
    ensures
        key_sig_index is Some <==> key_sig_fits_at(old(score).staves@[staff_index as int].objects@, selection_index as int),
        key_sig_index is None ==> *final(score) == *old(score),
        key_sig_index matches Some(index) ==> {
            let s = staff_index as int;
            let objects = old(score).staves@[s].objects@;
            &&& final(score).wf()
            &&& final(score).staves.len() == old(score).staves.len()
            &&& forall|t: int| 0 <= t < old(score).staves.len() && t != s ==> #[trigger] final(score).staves@[t]
                == old(score).staves@[t]
            &&& index == key_sig_place(objects, selection_index as int)
            &&& index < final(score).staves@[s].objects.len()
            &&& forall|j: int| 0 <= j < index ==> (#[trigger] final(score).staves@[s].objects@[j]).object_type
                == objects[j].object_type
            &&& final(score).staves@[s].objects@[index as int].object_type == ObjectType::KeySig(key_sig)
            &&& forall|j: int| 0 <= j < index ==> #[trigger] final(score).staves@[s].objects@[j] == objects[j]
            &&& key_sig_replaces(objects, selection_index as int, key_sig) ==> final(score).staves@[s].objects@[index as int]
                == with_type(objects[index as int], ObjectType::KeySig(key_sig))
            &&& final(score).staves@[s].objects@.subrange(index + 1, final(score).staves@[s].objects.len() as int)
                == if key_sig_replaces(objects, selection_index as int, key_sig) {
                objects.subrange(index + 1, objects.len() as int)
            } else {
                objects.subrange(index as int, objects.len() as int)
            }
        },
{
    let ghost s = staff_index as int;
    let key_sig_index;
    proof {
        assert(score.staves@[s].wf());
    }
    let mut is_clef = false;
    let mut is_key_sig = false;
    let mut is_time_sig = false;
    match &score.staves[staff_index].objects[selection_index].object_type {
        ObjectType::Clef(_) => {
            is_clef = true;
        },
        ObjectType::KeySig(_) => {
            is_key_sig = true;
        },
        ObjectType::TimeSig { .. } => {
            is_time_sig = true;
        },
        _ => {},
    }
    if is_clef {
        if !is_aligned_clef(score, staff_index, selection_index) {
            return None;
        }
        key_sig_index = insert_header_object(
            slice_addresses_to_respace,
            score,
            staff_index,
            selection_index,
            1,
            ObjectType::KeySig(key_sig),
        );
    } else if is_key_sig {
        let ghost before = *score;
        replace_object_type(&mut score.staves[staff_index], selection_index, ObjectType::KeySig(key_sig));
        proof {
            lemma_staff_change_keeps_score_wf(before, *score, s);
        }
        key_sig_index = selection_index;
    } else if is_time_sig {
        if selection_index == 0 {
            return None;
        }
        let previous_is_key_sig = match &score.staves[staff_index].objects[selection_index - 1].object_type {
            ObjectType::KeySig(_) => true,
            _ => false,
        };
        if previous_is_key_sig {
            let ghost before = *score;
            replace_object_type(&mut score.staves[staff_index], selection_index - 1, ObjectType::KeySig(key_sig));
            proof {
                lemma_staff_change_keeps_score_wf(before, *score, s);
            }
            key_sig_index = selection_index - 1;
        } else {
            if !is_aligned_clef(score, staff_index, selection_index - 1) {
                return None;
            }
            key_sig_index = insert_header_object(
                slice_addresses_to_respace,
                score,
                staff_index,
                selection_index - 1,
                1,
                ObjectType::KeySig(key_sig),
            );
        }
    } else {
        return None;
    }
    Some(key_sig_index)
}

/// Add a key signature of `accidental_count` sharps or flats (with none,
/// naturals cancelling the key signature before it) at the selection: with
/// the cursor, before the cursor's object (before its accidental, if it has
/// one); with a header object selected, in the staff's header (after the
/// clef), replacing a header key signature there; the selection goes. The
/// accidental displays are then reset up to the next key signature, which
/// is settled (see `settle_next_key_sig`), and the cursor goes to the
/// position after the new key signature. Returns whether one was placed: not
/// when there is nothing to cancel.
pub fn insert_key_sig(
    slice_addresses_to_respace: &mut Vec<usize>,
    score: &mut Score,
    selection: &mut Selection,
    accidental_count: u8,
    is_flats: bool,
) -> (inserted: bool)
    requires
        editor_wf(*old(score), *old(selection)),
        !(*old(selection) is Nothing),
    ensures
        editor_wf(*final(score), *final(selection)),
        !inserted ==> *final(score) == *old(score) && *final(selection) == *old(selection),
        *old(selection) matches Selection::ActiveCursor { address, .. } ==> ({
            let s = address.staff_index as int;
            let objects = old(score).staves@[s].objects@;
            let index = insertion_index(*old(score), address);
            &&& inserted <==> (key_sig_available(objects, index, accidental_count) && staff_tables_have_room(*old(score), s))
            &&& inserted ==> {
                &&& forall|t: int| 0 <= t < old(score).staves.len() && t != s ==> #[trigger] final(score).staves@[t]
                    == old(score).staves@[t]
                &&& index < final(score).staves@[s].objects.len()
                &&& final(score).staves@[s].objects@.subrange(0, index) == objects.subrange(0, index)
                &&& final(score).staves@[s].objects@[index].object_type matches ObjectType::KeySig(k)
                    && chosen_key_sig(objects, index, accidental_count, is_flats, false, Some(k)) && ({
                    let new_objects = final(score).staves@[s].objects@;
                    let tail = staff_content(new_objects.subrange(index + 1, new_objects.len() as int));
                    let rest = objects.subrange(index, objects.len() as int);
                    let new_cancels = k.accidentals@[0].accidental == Accidental::Natural;
                    ||| settled_tail(rest, tail, new_cancels, crate::staff::cancelling_accidentals(k.accidentals@))
                    ||| (!staff_tables_have_room(*final(score), s) && tail == staff_content(rest))
                })
                &&& *final(selection) == cursor_after(*final(score), s, index, 0)
            }
        }),
        *old(selection) matches Selection::Object(address) ==> ({
            let s = address.staff_index as int;
            let objects = old(score).staves@[s].objects@;
            let selected = old(score).staves@[s].object_indices@[address.object_address as int] as int;
            let place = key_sig_place(objects, selected);
            &&& inserted <==> (key_sig_available(objects, selected, accidental_count) && staff_tables_have_room(
                *old(score),
                s,
            ) && key_sig_fits_at(objects, selected))
            &&& inserted ==> {
                &&& forall|t: int| 0 <= t < old(score).staves.len() && t != s ==> #[trigger] final(score).staves@[t]
                    == old(score).staves@[t]
                &&& place < final(score).staves@[s].objects.len()
                &&& forall|j: int| 0 <= j < place ==> (#[trigger] final(score).staves@[s].objects@[j]).object_type
                    == objects[j].object_type
                &&& final(score).staves@[s].objects@[place].object_type matches ObjectType::KeySig(k)
                    && chosen_key_sig(objects, selected, accidental_count, is_flats, true, Some(k)) && ({
                    let new_objects = final(score).staves@[s].objects@;
                    let tail = staff_content(new_objects.subrange(place + 1, new_objects.len() as int));
                    let rest = selected_key_sig_rest(objects, selected, k);
                    let new_cancels = k.accidentals@[0].accidental == Accidental::Natural;
                    ||| settled_tail(rest, tail, new_cancels, crate::staff::cancelling_accidentals(k.accidentals@))
                    ||| (!staff_tables_have_room(*final(score), s) && tail == staff_content(rest))
                })
                &&& *final(selection) == cursor_after(*final(score), s, place, 0)
            }
        }),
        inserted ==> *final(selection) is ActiveCursor || *final(selection) is Nothing,
{
    let staff_index;
    let key_sig_index;
    let key_sig_accidentals;
    let new_cancels;
    let next_naturals;
    match *selection {
        Selection::ActiveCursor { address, .. } => {
            staff_index = address.staff_index;
            let ghost s = staff_index as int;
            proof {
                assert(score.staves@[s].wf());
            }
            let index = cursor_insertion_index(score, address);
            let key_sig = match new_key_sig(&score.staves[staff_index], index, accidental_count, is_flats, false) {
                Some(key_sig) => key_sig,
                None => {
                    return false;
                },
            };
            if !tables_have_room(score, staff_index) {
                return false;
            }
            key_sig_accidentals = letter_name_accidentals_from_key_sig(&key_sig);
            new_cancels = key_sig.accidentals[0].accidental == Accidental::Natural;
            next_naturals = cancelling_key_sig_accidentals(&key_sig.accidentals);
            insert_unaligned_object(
                slice_addresses_to_respace,
                score,
                staff_index,
                index,
                Object {
                    object_type: ObjectType::KeySig(key_sig),
                    address: 0,
                    slice_address: None,
                    distance_to_next_slice: 0,
                    is_selected: false,
                    is_valid_cursor_position: true,
                },
            );
            proof {
                let objects = score.staves@[s].objects@;
                let old_objects = old(score).staves@[s].objects@;
                assert(objects.subrange(0, index as int) =~= old_objects.subrange(0, index as int));
                assert(objects[index as int].object_type == ObjectType::KeySig(key_sig));
                assert(objects.subrange(index + 1, objects.len() as int) =~= old_objects.subrange(
                    index as int,
                    old_objects.len() as int,
                ));
            }
            key_sig_index = index;
        },
        Selection::Object(address) => {
            staff_index = address.staff_index;
            let ghost s = staff_index as int;
            proof {
                assert(score.staves@[s].wf());
            }
            let selection_index = object_index_of(score, address);
            let key_sig = match new_key_sig(&score.staves[staff_index], selection_index, accidental_count, is_flats, true) {
                Some(key_sig) => key_sig,
                None => {
                    return false;
                },
            };
            if !tables_have_room(score, staff_index) {
                return false;
            }
            key_sig_accidentals = letter_name_accidentals_from_key_sig(&key_sig);
            new_cancels = key_sig.accidentals[0].accidental == Accidental::Natural;
            next_naturals = cancelling_key_sig_accidentals(&key_sig.accidentals);
            let ghost chosen = key_sig;
            key_sig_index = match place_selected_key_sig(slice_addresses_to_respace, score, staff_index, selection_index, key_sig) {
                Some(index) => index,
                None => {
                    return false;
                },
            };
            let ghost placed_objects = score.staves@[s].objects@;
            let ghost j = selected_position(old(score).staves@[s].objects@, selection_index as int, chosen);
            proof {
                let objects = old(score).staves@[s].objects@;
                let sel = selection_index as int;
                lemma_selected_tail(objects, placed_objects, sel, key_sig_index as int, chosen);
                assert(score.staves@[s].wf());
                assert(crate::staff::object_addresses(objects)[sel] == objects[sel].address);
                assert(crate::staff::object_addresses(placed_objects)[j] == placed_objects[j].address);
                assert(address_live(*score, address));
            }
            validate_selection(score, selection);
            cancel_selection(score, selection);
            proof {
                assert(score.staves@[s].objects@ == placed_objects.update(j, crate::staff::with_selected(placed_objects[j], false)));
            }
            proof {
                let objects = score.staves@[s].objects@;
                assert forall|j: int| 0 <= j <= key_sig_index implies (#[trigger] objects[j]).object_type
                    == placed_objects[j].object_type by {}
                assert(objects[key_sig_index as int].object_type == ObjectType::KeySig(chosen));
            }
        },
        Selection::Nothing => {
            return false;
        },
    }
    let ghost placed = *score;
    settle_next_key_sig(
        slice_addresses_to_respace,
        score,
        staff_index,
        key_sig_index,
        &key_sig_accidentals,
        new_cancels,
        next_naturals,
    );
    proof {
        let k = key_sig_index as int;
        let settled_objects = score.staves@[staff_index as int].objects@;
        let placed_objects = placed.staves@[staff_index as int].objects@;
        assert(settled_objects[k] == settled_objects.subrange(0, k + 1)[k]);
        assert(placed_objects[k] == placed_objects.subrange(0, k + 1)[k]);
        assert(settled_objects.subrange(0, k) =~= settled_objects.subrange(0, k + 1).subrange(0, k));
        assert(placed_objects.subrange(0, k) =~= placed_objects.subrange(0, k + 1).subrange(0, k));
        assert forall|j: int| 0 <= j < k implies #[trigger] settled_objects[j] == placed_objects[j] by {
            assert(settled_objects[j] == settled_objects.subrange(0, k + 1)[j]);
            assert(placed_objects[j] == placed_objects.subrange(0, k + 1)[j]);
        }
    }
    if key_sig_index < score.staves[staff_index].objects.len() {
        *selection = cursor_after_object(score, staff_index, key_sig_index, 0);
    } else {
        *selection = Selection::Nothing;
    }
    true
}

} // verus!
