use vstd::prelude::*;
use crate::accidentals::{
    display_entries, display_entry, entry_objects, first_key_sig_from, lemma_entries_add, lemma_first_key_sig_bounds,
    staff_displays_reset,
};
use crate::staff::{accidental_note_address, object_addresses, object_at, object_live, with_note_link, Object, Staff};

verus! {

/// The musical content of a staff: its objects other than accidentals,
/// without their links to accidentals.
pub open spec fn staff_content(objects: Seq<Object>) -> Seq<Object> {
    entry_objects(display_entries(objects))
}

/// The content of two runs of objects one after the other is the content of
/// the first followed by that of the second.
pub proof fn lemma_content_add(a: Seq<Object>, b: Seq<Object>)
    ensures
        staff_content(a + b) == staff_content(a) + staff_content(b),
{
    lemma_entries_add(a, b);
    assert(staff_content(a + b) =~= staff_content(a) + staff_content(b));
}

/// Looking for the first key signature from `start` is looking in the
/// objects from `start` on.
pub proof fn lemma_first_key_sig_shift(objects: Seq<Object>, start: int, j: int)
    requires
        0 <= start <= objects.len(),
        0 <= j <= objects.len() - start,
    ensures
        first_key_sig_from(objects, start + j) == start + first_key_sig_from(
            objects.subrange(start, objects.len() as int),
            j,
        ),
    decreases objects.len() - start - j,
{
    let rest = objects.subrange(start, objects.len() as int);
    if j < rest.len() {
        assert(rest[j] == objects[start + j]);
        if !(objects[start + j].object_type is KeySig) {
            lemma_first_key_sig_shift(objects, start, j + 1);
        }
    }
}

/// The content of a run of objects is that of its part before `m` followed
/// by that of its part from `m` on.
pub proof fn lemma_content_split(objects: Seq<Object>, m: int)
    requires
        0 <= m <= objects.len(),
    ensures
        staff_content(objects) == staff_content(objects.subrange(0, m)) + staff_content(
            objects.subrange(m, objects.len() as int),
        ),
{
    assert(objects =~= objects.subrange(0, m) + objects.subrange(m, objects.len() as int));
    lemma_content_add(objects.subrange(0, m), objects.subrange(m, objects.len() as int));
}

/// Runs of objects with the same beginning and the same content have tails
/// of the same content.
pub proof fn lemma_content_of_tails(a: Seq<Object>, b: Seq<Object>, m: int)
    requires
        0 <= m <= a.len(),
        m <= b.len(),
        a.subrange(0, m) == b.subrange(0, m),
        staff_content(a) == staff_content(b),
    ensures
        staff_content(a.subrange(m, a.len() as int)) == staff_content(b.subrange(m, b.len() as int)),
{
    lemma_content_split(a, m);
    lemma_content_split(b, m);
    let p = staff_content(a.subrange(0, m));
    let x = staff_content(a.subrange(m, a.len() as int));
    let y = staff_content(b.subrange(m, b.len() as int));
    assert(x =~= (p + x).subrange(p.len() as int, (p + x).len() as int));
    assert(y =~= (p + y).subrange(p.len() as int, (p + y).len() as int));
}

/// Each display entry of a run of objects is that of one of its objects
/// that is not an accidental.
pub proof fn lemma_entry_source(objects: Seq<Object>, e: int)
    requires
        0 <= e < display_entries(objects).len(),
    ensures
        exists|j: int|
            0 <= j < objects.len() && accidental_note_address(objects[j]) is None && #[trigger] display_entry(objects[j])
                == display_entries(objects)[e],
    decreases objects.len(),
{
    let previous = display_entries(objects.drop_last());
    if e < previous.len() {
        lemma_entry_source(objects.drop_last(), e);
        let j = choose|j: int|
            0 <= j < objects.drop_last().len() && accidental_note_address(objects.drop_last()[j]) is None
                && #[trigger] display_entry(objects.drop_last()[j]) == previous[e];
        assert(objects[j] == objects.drop_last()[j]);
    } else {
        assert(display_entry(objects[objects.len() - 1]) == display_entries(objects)[e]);
    }
}

/// Each object of a run that is not an accidental has its display entry
/// among the run's entries.
pub proof fn lemma_object_entry(objects: Seq<Object>, j: int)
    requires
        0 <= j < objects.len(),
        accidental_note_address(objects[j]) is None,
    ensures
        exists|e: int| 0 <= e < display_entries(objects).len() && #[trigger] display_entries(objects)[e] == display_entry(objects[j]),
    decreases objects.len(),
{
    if j < objects.len() - 1 {
        lemma_object_entry(objects.drop_last(), j);
        let e = choose|e: int|
            0 <= e < display_entries(objects.drop_last()).len() && #[trigger] display_entries(objects.drop_last())[e]
                == display_entry(objects.drop_last()[j]);
        assert(display_entries(objects)[e] == display_entries(objects.drop_last())[e]);
    } else {
        let e = display_entries(objects).len() - 1;
        assert(display_entries(objects)[e] == display_entry(objects[j]));
    }
}

/// Resetting the accidental displays of a run of objects keeps each object
/// that is not an accidental, changed at most in its link to an accidental
/// and in whether it is a cursor position.
pub proof fn lemma_reset_keeps_object(
    old_objects: Seq<Object>,
    objects: Seq<Object>,
    start: int,
    stop: int,
    found_key_sig: bool,
    key_accidentals: Seq<crate::notation::Accidental>,
    i: int,
)
    requires
        0 <= start <= old_objects.len(),
        staff_displays_reset(old_objects, objects, start, stop, found_key_sig, key_accidentals),
        0 <= i < old_objects.len(),
        accidental_note_address(old_objects[i]) is None,
    ensures
        exists|j: int|
            0 <= j < objects.len() && #[trigger] with_note_link(objects[j], None, true) == with_note_link(
                old_objects[i],
                None,
                true,
            ),
{
    let key_sig = first_key_sig_from(old_objects, start);
    lemma_first_key_sig_bounds(old_objects, start);
    if i < start {
        assert(objects[i] == objects.subrange(0, start)[i]);
        assert(old_objects[i] == old_objects.subrange(0, start)[i]);
        assert(with_note_link(objects[i], None, true) == with_note_link(old_objects[i], None, true));
    } else if i >= key_sig {
        let k = stop + (i - key_sig);
        let tail = objects.subrange(stop, objects.len() as int);
        let old_tail = old_objects.subrange(key_sig, old_objects.len() as int);
        assert(tail == old_tail);
        assert(tail.len() == objects.len() - stop);
        assert(old_tail.len() == old_objects.len() - key_sig);
        assert(objects[k] == tail[i - key_sig]);
        assert(old_objects[i] == old_tail[i - key_sig]);
        assert(with_note_link(objects[k], None, true) == with_note_link(old_objects[i], None, true));
    } else {
        let old_run = old_objects.subrange(start, key_sig);
        let run = objects.subrange(start, stop);
        assert(old_run[i - start] == old_objects[i]);
        lemma_object_entry(old_run, i - start);
        let e = choose|e: int| 0 <= e < display_entries(old_run).len() && #[trigger] display_entries(old_run)[e]
            == display_entry(old_run[i - start]);
        assert(entry_objects(display_entries(old_run))[e] == display_entries(old_run)[e].object);
        assert(entry_objects(display_entries(run)).len() == display_entries(run).len());
        assert(entry_objects(display_entries(run))[e] == display_entries(run)[e].object);
        lemma_entry_source(run, e);
        let m = choose|m: int|
            0 <= m < run.len() && accidental_note_address(run[m]) is None && #[trigger] display_entry(run[m])
                == display_entries(run)[e];
        assert(run[m] == objects[start + m]);
        assert(with_note_link(objects[start + m], None, true) == with_note_link(old_objects[i], None, true));
    }
}

/// An object of a staff found, up to its link to an accidental and whether
/// it is a cursor position, at some position of another staff whose table is
/// sound is an object of that staff at the same address.
pub proof fn lemma_found_object_live(old_object: Object, staff: Staff, j: int)
    requires
        staff.table_wf(),
        0 <= j < staff.objects.len(),
        with_note_link(staff.objects@[j], None, true) == with_note_link(old_object, None, true),
    ensures
        object_live(staff, old_object.address as int),
        object_at(staff, old_object.address as int) == staff.objects@[j],
        with_note_link(object_at(staff, old_object.address as int), None, true) == with_note_link(old_object, None, true),
{
    assert(staff.objects@[j].address == with_note_link(staff.objects@[j], None, true).address);
    assert(old_object.address == with_note_link(old_object, None, true).address);
    assert(object_addresses(staff.objects@)[j] == old_object.address);
}

/// Resetting the accidental displays of a staff keeps each object that is
/// not an accidental at its address, changed at most in its link to an
/// accidental and in whether it is a cursor position.
pub proof fn lemma_reset_keeps_live(
    old_staff: Staff,
    new_staff: Staff,
    start: int,
    stop: int,
    found_key_sig: bool,
    key_accidentals: Seq<crate::notation::Accidental>,
    address: int,
)
    requires
        old_staff.table_wf(),
        new_staff.table_wf(),
        0 <= start <= old_staff.objects.len(),
        staff_displays_reset(old_staff.objects@, new_staff.objects@, start, stop, found_key_sig, key_accidentals),
        object_live(old_staff, address),
        accidental_note_address(object_at(old_staff, address)) is None,
    ensures
        object_live(new_staff, address),
        with_note_link(object_at(new_staff, address), None, true) == with_note_link(object_at(old_staff, address), None, true),
{
    let i = old_staff.object_indices@[address] as int;
    assert(object_addresses(old_staff.objects@)[i] == address);
    lemma_reset_keeps_object(old_staff.objects@, new_staff.objects@, start, stop, found_key_sig, key_accidentals, i);
    let j = choose|j: int|
        0 <= j < new_staff.objects.len() && #[trigger] with_note_link(new_staff.objects@[j], None, true) == with_note_link(
            old_staff.objects@[i],
            None,
            true,
        );
    lemma_found_object_live(old_staff.objects@[i], new_staff, j);
}

} // verus!
