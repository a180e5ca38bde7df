use vstd::prelude::*;
use crate::durations::{at_position, find_rhythmic_slice};
use crate::notation::{clef_wf, Clef};
use crate::rhythm::WholeNotes;
use crate::staff::{new_key_sig, push_if_not_present, same_staff_settings, Object, ObjectType, Staff, SystemAddress};
use crate::system::{insert_slice, insert_slice_object, lemma_slice_addresses, position_wf, slice_addresses, slice_has_entry, Score};

verus! {

/// The staff's only object is the end object at address 0, aligned to the
/// slice at `slice_address`.
pub open spec fn is_new_staff(staff: Staff, slice_address: usize) -> bool {
    &&& staff.objects@ == seq![Object {
        object_type: ObjectType::Blank,
        address: 0,
        slice_address: Some(slice_address),
        distance_to_next_slice: 0,
        is_selected: false,
        is_valid_cursor_position: true,
    }]
    &&& staff.object_indices@ == seq![0usize]
    &&& staff.object_address_free_list@ == Seq::<usize>::empty()
}

/// Add a staff whose only object is an end object on the slice at
/// `slice_index`, listing it there.
fn push_staff_with_end_object(score: &mut Score, slice_index: usize, scale_index: usize, vertical_center: i32, line_count: u8)
    requires
        old(score).wf(),
        slice_index < old(score).slices.len(),
        1 <= line_count <= 16,
        old(score).staves.len() < usize::MAX,
    ensures
        final(score).wf(),
        final(score).staves.len() == old(score).staves.len() + 1,
        forall|t: int| 0 <= t < old(score).staves.len() ==> #[trigger] final(score).staves@[t] == old(score).staves@[t],
        is_new_staff(final(score).staves@[old(score).staves.len() as int], old(score).slices@[slice_index as int].address),
        final(score).staves@[old(score).staves.len() as int].scale_index == scale_index,
        final(score).staves@[old(score).staves.len() as int].vertical_center == vertical_center,
        final(score).staves@[old(score).staves.len() as int].line_count == line_count,
        final(score).slices.len() == old(score).slices.len(),
        final(score).slice_indices@ == old(score).slice_indices@,
        final(score).ghost_cursor == old(score).ghost_cursor,
        forall|k: int| 0 <= k < old(score).slices.len() ==> (#[trigger] final(score).slices@[k]).address
            == old(score).slices@[k].address && final(score).slices@[k].rhythmic_position == old(score).slices@[k].rhythmic_position,
{
    let ghost old_score = *score;
    let staff_index = score.staves.len();
    let slice_address = score.slices[slice_index].address;
    let mut objects: Vec<Object> = Vec::new();
    objects.push(Object {
        object_type: ObjectType::Blank,
        address: 0,
        slice_address: Some(slice_address),
        distance_to_next_slice: 0,
        is_selected: false,
        is_valid_cursor_position: true,
    });
    let mut object_indices: Vec<usize> = Vec::new();
    object_indices.push(0);
    score.staves.push(Staff {
        scale_index,
        objects,
        object_indices,
        object_address_free_list: Vec::new(),
        vertical_center,
        line_count,
    });
    score.slices[slice_index].object_addresses.push(SystemAddress { staff_index, object_address: 0 });
    proof {
        let t = staff_index as int;
        let k = slice_index as int;
        let new_staff = score.staves@[t];
        assert(crate::staff::object_addresses(new_staff.objects@) =~= seq![0usize]);
        assert(new_staff.wf());
        assert(crate::staff::object_live(new_staff, 0));
        assert(slice_addresses(score.slices@) =~= slice_addresses(old_score.slices@)) by {
            assert forall|m: int| 0 <= m < score.slices.len() implies score.slices@[m].address == old_score.slices@[m].address by {
                if m != k {
                    assert(score.slices@[m] == old_score.slices@[m]);
                }
            }
        }
        assert forall|a: int| old_score.slice_live(a) implies score.slice_live(a) && (forall|u: int, o: int|
            slice_has_entry(old_score.slice_of(a), u, o) ==> slice_has_entry(score.slice_of(a), u, o)) by {
            let m = old_score.slice_indices@[a] as int;
            if m == k {
                assert forall|u: int, o: int| slice_has_entry(old_score.slice_of(a), u, o) implies slice_has_entry(score.slice_of(a), u, o) by {
                    let e = choose|e: int| 0 <= e < old_score.slice_of(a).object_addresses.len() && #[trigger] old_score.slice_of(a).object_addresses@[e]
                        == (SystemAddress { staff_index: u as usize, object_address: o as usize });
                    assert(score.slice_of(a).object_addresses@[e] == old_score.slice_of(a).object_addresses@[e]);
                }
            } else {
                assert(score.slices@[m] == old_score.slices@[m]);
            }
        }
        assert forall|u: int| 0 <= u < score.staves.len() implies (#[trigger] score.staves@[u]).wf() by {
            if u < t {
                assert(score.staves@[u] == old_score.staves@[u]);
            }
        }
        assert forall|u: int, i: int|
            0 <= u < score.staves.len() && 0 <= i < score.staves@[u].objects.len()
                && (#[trigger] score.staves@[u].objects@[i]).slice_address is Some implies {
                let a = score.staves@[u].objects@[i].slice_address->0 as int;
                &&& score.slice_live(a)
                &&& slice_has_entry(score.slice_of(a), u, score.staves@[u].objects@[i].address as int)
            } by {
            if u < t {
                assert(score.staves@[u] == old_score.staves@[u]);
                let a = old_score.staves@[u].objects@[i].slice_address->0 as int;
                assert(old_score.slice_live(a));
            } else {
                let a = slice_address as int;
                assert(slice_addresses(old_score.slices@)[k] == a);
                assert(old_score.slice_indices@[a] == k);
                let n = old_score.slices@[k].object_addresses.len() as int;
                assert(score.slices@[k].object_addresses@[n] == SystemAddress { staff_index, object_address: 0 });
            }
        }
        assert forall|m: int, e: int|
            0 <= m < score.slices.len() && 0 <= e < score.slices@[m].object_addresses.len() implies score.entry_wf(
                m,
                #[trigger] score.slices@[m].object_addresses@[e],
            ) by {
            let entry = score.slices@[m].object_addresses@[e];
            if m == k && e == old_score.slices@[k].object_addresses.len() {
                assert(entry == SystemAddress { staff_index, object_address: 0 });
            } else {
                if m == k {
                    assert(entry == old_score.slices@[k].object_addresses@[e]);
                } else {
                    assert(score.slices@[m] == old_score.slices@[m]);
                }
                assert(old_score.entry_wf(m, entry));
                assert(score.staves@[entry.staff_index as int] == old_score.staves@[entry.staff_index as int]);
            }
        }
        assert forall|m: int, e: int, f: int|
            0 <= m < score.slices.len() && 0 <= e < f < score.slices@[m].object_addresses.len() implies
            #[trigger] score.slices@[m].object_addresses@[e] != #[trigger] score.slices@[m].object_addresses@[f] by {
            if m == k {
                let entry = old_score.slices@[k].object_addresses@[e];
                assert(score.slices@[k].object_addresses@[e] == entry);
                if f < old_score.slices@[k].object_addresses.len() {
                    assert(score.slices@[k].object_addresses@[f] == old_score.slices@[k].object_addresses@[f]);
                } else {
                    assert(old_score.entry_wf(k, entry));
                }
            } else {
                assert(score.slices@[m] == old_score.slices@[m]);
            }
        }
        assert forall|m: int|
            0 <= m < score.slices.len() && (#[trigger] score.slices@[m]).rhythmic_position is Some
                implies position_wf(score.slices@[m].rhythmic_position->0) by {
            if m != k {
                assert(score.slices@[m] == old_score.slices@[m]);
            }
        }
    }
}

/// Whether the first object of the slice at `slice_index` is a header key
/// signature (`key_sig`) or a header time signature.
fn slice_starts_with_header(score: &Score, slice_index: usize, key_sig: bool) -> (starts: bool)
    requires
        score.wf(),
        slice_index < score.slices.len(),
    ensures
        starts == (score.slices@[slice_index as int].object_addresses.len() > 0 && ({
            let first = crate::headers::first_slice_object(*score, slice_index as int);
            if key_sig {
                first.object_type matches ObjectType::KeySig(k) && k.is_header
            } else {
                first.object_type matches ObjectType::TimeSig { is_header: h, .. } && h
            }
        })),
{
    if score.slices[slice_index].object_addresses.len() == 0 {
        return false;
    }
    let entry = score.slices[slice_index].object_addresses[0];
    proof {
        assert(score.entry_wf(slice_index as int, score.slices@[slice_index as int].object_addresses@[0]));
    }
    let staff = &score.staves[entry.staff_index];
    let object = &staff.objects[staff.object_indices[entry.object_address]];
    if key_sig {
        crate::staff::is_header_key_sig(object)
    } else {
        crate::staff::is_header_time_sig(object)
    }
}

/// Place a header key signature or time signature first in staff
/// `staff_index`, on the second slice when its first object is a header
/// object of that kind, else on a new second slice.
fn place_header_signature(
    slice_addresses_to_respace: &mut Vec<usize>,
    score: &mut Score,
    staff_index: usize,
    object_type: ObjectType,
)
    requires
        old(score).wf(),
        staff_index < old(score).staves.len(),
        object_type is KeySig || object_type is TimeSig,
        crate::staff::object_content_wf(
            crate::headers::header_object_at(object_type, 0),
            old(score).staves@[staff_index as int].line_count,
        ),
    ensures
        final(score).wf(),
        final(score).staves.len() == old(score).staves.len(),
        forall|t: int| 0 <= t < old(score).staves.len() && t != staff_index ==> #[trigger] final(score).staves@[t]
            == old(score).staves@[t],
        final(score).staves@[staff_index as int].line_count == old(score).staves@[staff_index as int].line_count,
        same_staff_settings(&final(score).staves@[staff_index as int], &old(score).staves@[staff_index as int]),
        final(score).slice_indices.len() <= old(score).slice_indices.len() + 1,
        final(score).slices.len() >= old(score).slices.len(),
        final(score).staves@[staff_index as int].object_indices.len() <= old(score).staves@[staff_index as int].object_indices.len() + 1,
        forall|b: int| old(score).slice_live(b) ==> #[trigger] final(score).slice_live(b)
            && final(score).slice_of(b).rhythmic_position == old(score).slice_of(b).rhythmic_position,
        if old(score).slices.len() > 1 && crate::editor::staff_tables_have_room(*old(score), staff_index as int) {
            exists|address: usize, slice_address: usize| #[trigger] final(score).staves@[staff_index as int].objects@
                == old(score).staves@[staff_index as int].objects@.insert(
                0,
                crate::staff::with_address(crate::headers::header_object_at(object_type, slice_address), address),
            )
        } else {
            *final(score) == *old(score)
        },
{
    if score.slices.len() <= 1 || !crate::durations::tables_have_room(score, staff_index) {
        return;
    }
    let is_key_sig = match &object_type {
        ObjectType::KeySig(_) => true,
        _ => false,
    };
    if !slice_starts_with_header(score, 1, is_key_sig) {
        insert_slice(score, 1, None);
    }
    let slice_address = score.slices[1].address;
    let address = insert_slice_object(
        slice_addresses_to_respace,
        score,
        staff_index,
        Object {
            object_type: object_type,
            address: 0,
            slice_address: Some(slice_address),
            distance_to_next_slice: 0,
            is_selected: false,
            is_valid_cursor_position: false,
        },
        0,
        1,
    );
    proof {
        assert(score.staves@[staff_index as int].objects@ == old(score).staves@[staff_index as int].objects@.insert(
            0,
            crate::staff::with_address(crate::headers::header_object_at(object_type, slice_address), address),
        ));
    }
}

/// The objects of a new staff: its clef, then a header key signature of
/// `key_sig`'s count of sharps or flats in circle-of-fifths order when that
/// count is not zero, then a header time signature when there is one, then
/// the end object.
pub open spec fn new_staff_objects_ok(
    objects: Seq<Object>,
    clef: Clef,
    key_sig: Option<(u8, bool)>,
    time_sig: Option<(u16, u16)>,
) -> bool {
    let has_key = key_sig matches Some((count, _)) && count > 0;
    let key_count: int = if has_key { 1 } else { 0 };
    let time_count: int = if time_sig is Some { 1 } else { 0 };
    &&& objects.len() == 2 + key_count + time_count
    &&& objects[0].object_type == ObjectType::Clef(clef)
    &&& key_sig matches Some((count, is_flats)) ==> (count > 0 ==> (objects[1].object_type matches ObjectType::KeySig(k)
        && k.is_header && k.accidentals.len() == count && forall|i: int|
        0 <= i < k.accidentals.len() ==> #[trigger] k.accidentals@[i] == crate::notation::circle_of_fifths_accidental(
            is_flats,
            i,
        )))
    &&& time_sig matches Some((numerator, denominator)) ==> objects[1 + key_count].object_type == (ObjectType::TimeSig {
        numerator,
        denominator,
        is_header: true,
    })
    &&& objects.last().object_type is Blank
}

/// Add a staff of `line_count` lines at scale `scale_index`, 80 below the
/// last staff (the first at 135): an end object at rhythmic position zero,
/// then in its header the clef (on the first slice), a key signature of
/// `key_sig`'s count of sharps or flats if there is one, and a time
/// signature if there is one, each on the second slice when its first object
/// is of that kind in a header, else on a new second slice. The first staff
/// also gets the first slice, for header clefs. Returns whether the staff
/// was added: not when the tables are full or the vertical position would
/// not fit.
#[verifier::rlimit(80)]
pub fn add_staff(
    slice_addresses_to_respace: &mut Vec<usize>,
    score: &mut Score,
    scale_index: usize,
    line_count: u8,
    clef: Clef,
    key_sig: Option<(u8, bool)>,
    time_sig: Option<(u16, u16)>,
) -> (added: bool)
    requires
        old(score).wf(),
        1 <= line_count <= 16,
        clef_wf(clef),
        -16 <= clef.steps_of_baseline_above_staff_middle <= 16,
        (time_sig is Some || (key_sig matches Some((count, _)) && count > 0)) ==> old(score).staves.len() == 0
            || old(score).slices.len() >= 2,
    ensures
        final(score).wf(),
        added ==> final(score).staves.len() == old(score).staves.len() + 1,
        added ==> forall|t: int| 0 <= t < old(score).staves.len() ==> #[trigger] final(score).staves@[t]
            == old(score).staves@[t],
        !added ==> *final(score) == *old(score),
        added <==> ((old(score).staves.len() == 0 || old(score).staves@.last().vertical_center <= i32::MAX - 80)
            && old(score).staves.len() < usize::MAX - 1 && old(score).slice_indices.len() < usize::MAX - 8),
        added ==> ({
            let n = old(score).staves.len() as int;
            let staff = final(score).staves@[n];
            &&& staff.scale_index == scale_index
            &&& staff.line_count == line_count
            &&& staff.vertical_center == if n == 0 { 135 } else { old(score).staves@[n - 1].vertical_center + 80 }
            &&& new_staff_objects_ok(staff.objects@, clef, key_sig, time_sig)
            &&& staff.objects@.last().is_valid_cursor_position
            &&& (staff.objects@.last().slice_address matches Some(a) && final(score).slice_live(a as int)
                && (final(score).slice_of(a as int).rhythmic_position matches Some(p) && p.num() == 0))
        }),
{
    let vertical_center = if score.staves.len() == 0 {
        135
    } else {
        let last = score.staves[score.staves.len() - 1].vertical_center;
        if last > i32::MAX - 80 {
            return false;
        }
        last + 80
    };
    if score.staves.len() >= usize::MAX - 1 || score.slice_indices.len() >= usize::MAX - 8 {
        return false;
    }
    let staff_index = score.staves.len();
    let zero = WholeNotes { numer: Vec::new(), denom: vec![1] };
    proof {
        assert(zero.numer@ =~= Seq::<u32>::empty());
        assert(zero.denom@ =~= seq![1u32]);
        assert(crate::rhythm::digits_value(zero.denom@) == 1) by {
            reveal_with_fuel(crate::rhythm::digits_value, 2);
            assert(zero.denom@.drop_first() =~= Seq::<u32>::empty());
        }
        crate::rhythm::lemma_divides_self(1);
        crate::rhythm::lemma_two_to_adds(30, 0);
        crate::rhythm::lemma_divides_multiple(1, 1, crate::rhythm::two_to(30) as int);
        assert(position_wf(zero));
    }
    let ghost n = staff_index as int;
    let ghost header_case = n == 0 || old(score).slices.len() >= 2;
    let (slice_index, existing) = find_rhythmic_slice(score, 0, &zero);
    if !existing {
        insert_slice(score, slice_index, Some(zero));
    }
    if slice_index + 1 < score.slices.len() {
        push_if_not_present(slice_addresses_to_respace, score.slices[slice_index + 1].address);
    }
    let end_slice_address = score.slices[slice_index].address;
    proof {
        lemma_slice_addresses(score);
        assert(at_position(score.slices@[slice_index as int], zero));
        assert(score.slice_live(end_slice_address as int));
        assert(zero_slice(*score, end_slice_address as int));
    }
    push_staff_with_end_object(score, slice_index, scale_index, vertical_center, line_count);
    proof {
        lemma_slice_addresses(score);
        assert(slice_addresses(score.slices@)[slice_index as int] == end_slice_address);
        assert(zero_slice(*score, end_slice_address as int));
    }
    push_if_not_present(slice_addresses_to_respace, end_slice_address);
    if staff_index == 0 {
        insert_slice(score, 0, None);
    }
    let ghost with_staff = *score;
    let ghost end_object = with_staff.staves@[n].objects@.last();
    proof {
        assert(zero_slice(*score, end_slice_address as int));
        assert(end_object.is_valid_cursor_position && end_object.slice_address == Some(end_slice_address));
        assert(with_staff.staves@[n].objects@.len() == 1);
        assert(with_staff.staves@[n].objects@[0].object_type is Blank);
        assert(with_staff.staves@[n].object_indices@.len() == 1);
        assert(with_staff.slice_indices.len() <= old(score).slice_indices.len() + 2);
        assert(header_case ==> with_staff.slices.len() >= 2);
    }
    if let Some((numerator, denominator)) = time_sig {
        place_header_signature(
            slice_addresses_to_respace,
            score,
            staff_index,
            ObjectType::TimeSig { numerator, denominator, is_header: true },
        );
    }
    let ghost with_time = *score;
    proof {
        assert(zero_slice(*score, end_slice_address as int));
        assert(score.staves@[n].objects@.last() == end_object);
        let objects = with_time.staves@[n].objects@;
        if let Some((numerator, denominator)) = time_sig {
            assert(crate::editor::staff_tables_have_room(with_staff, n));
            if header_case {
                assert(objects.len() == 2);
                assert(objects[1].object_type is Blank);
                assert(objects[0].object_type == ObjectType::TimeSig { numerator, denominator, is_header: true });
            }
        } else {
            assert(with_time == with_staff);
        }
        assert(with_time.staves@[n].object_indices@.len() <= 2);
        assert(with_time.slice_indices.len() <= old(score).slice_indices.len() + 3);
        assert(header_case ==> with_time.slices.len() >= 2);
    }
    if let Some((accidental_count, is_flats)) = key_sig {
        proof {
            assert(score.staves@[staff_index as int].wf());
            assert(crate::staff::last_key_sig_before(score.staves@[staff_index as int].objects@, 0) == -1);
        }
        if let Some(new_key_sig) = new_key_sig(&score.staves[staff_index], 0, accidental_count, is_flats, true) {
            place_header_signature(slice_addresses_to_respace, score, staff_index, ObjectType::KeySig(new_key_sig));
        }
    }
    let ghost with_key = *score;
    proof {
        assert(zero_slice(*score, end_slice_address as int));
        assert(score.staves@[n].objects@.last() == end_object);
        let before = with_time.staves@[n].objects@;
        let objects = with_key.staves@[n].objects@;
        assert(with_key.staves@[n].object_indices@.len() <= 3);
        assert(with_key.slice_indices.len() <= old(score).slice_indices.len() + 4);
        assert(header_case ==> with_key.slices.len() >= 2);
        if key_sig matches Some((count, _)) && count > 0 {
            assert(crate::editor::staff_tables_have_room(with_time, n));
        } else {
            assert(with_key == with_time);
        }
    }
    if crate::durations::tables_have_room(score, staff_index) {
        let clef_slice_address = score.slices[0].address;
        insert_slice_object(
            slice_addresses_to_respace,
            score,
            staff_index,
            Object {
                object_type: ObjectType::Clef(clef),
                address: 0,
                slice_address: Some(clef_slice_address),
                distance_to_next_slice: 0,
                is_selected: false,
                is_valid_cursor_position: false,
            },
            0,
            0,
        );
    } else {
        proof {
            assert(false);
        }
    }
    proof {
        lemma_slice_addresses(score);
        assert(slice_addresses(score.slices@) =~= slice_addresses(with_key.slices@)) by {
            assert forall|k: int| 0 <= k < score.slices.len() implies #[trigger] slice_addresses(score.slices@)[k]
                == slice_addresses(with_key.slices@)[k] by {}
        }
        assert(zero_slice(*score, end_slice_address as int)) by {
            let k = with_key.slice_indices@[end_slice_address as int] as int;
            if k != 0 {
                assert(score.slices@[k] == with_key.slices@[k]);
            }
        }
        assert(score.staves@[n].objects@.last() == end_object);
    }
    true
}

/// Whether the slice at address `a` is live and at rhythmic position zero.
pub open spec fn zero_slice(score: Score, a: int) -> bool {
    score.slice_live(a) && (score.slice_of(a).rhythmic_position matches Some(p) && p.num() == 0)
}

/// The staves are those of `old_staves` with the scale indices that
/// `scale_index` gives them, all else kept.
pub open spec fn rescaled(old_staves: Seq<Staff>, staves: Seq<Staff>, scale_index: spec_fn(int) -> int) -> bool {
    &&& staves.len() == old_staves.len()
    &&& forall|t: int|
        0 <= t < staves.len() ==> {
            &&& (#[trigger] staves[t]).scale_index == scale_index(old_staves[t].scale_index as int)
            &&& staves[t].objects@ == old_staves[t].objects@
            &&& staves[t].object_indices@ == old_staves[t].object_indices@
            &&& staves[t].object_address_free_list@ == old_staves[t].object_address_free_list@
            &&& staves[t].vertical_center == old_staves[t].vertical_center
            &&& staves[t].line_count == old_staves[t].line_count
        }
}

/// Give every staff the scale index it has after the scale at `removed`
/// leaves the list of scales, the staves that used it taking `replacement`
/// (see `scale_index_after_removal`).
pub fn remap_staff_scales(score: &mut Score, removed: usize, replacement: usize)
    requires
        old(score).wf(),
    ensures
        final(score).wf(),
        rescaled(
            old(score).staves@,
            final(score).staves@,
            |index: int| crate::notation::remapped_scale_index(index, removed as int, replacement as int),
        ),
        final(score).slices@ == old(score).slices@,
        final(score).slice_indices@ == old(score).slice_indices@,
        final(score).slice_address_free_list@ == old(score).slice_address_free_list@,
        final(score).ghost_cursor == old(score).ghost_cursor,
{
    let ghost old_score = *score;
    let mut t: usize = 0;
    while t < score.staves.len()
        invariant
            score.wf(),
            t <= score.staves.len(),
            score.staves.len() == old_score.staves.len(),
            score.slices@ == old_score.slices@,
            score.slice_indices@ == old_score.slice_indices@,
            score.slice_address_free_list@ == old_score.slice_address_free_list@,
            score.ghost_cursor == old_score.ghost_cursor,
            forall|u: int| t <= u < score.staves.len() ==> #[trigger] score.staves@[u] == old_score.staves@[u],
            forall|u: int|
                0 <= u < t ==> {
                    &&& (#[trigger] score.staves@[u]).scale_index == crate::notation::remapped_scale_index(
                        old_score.staves@[u].scale_index as int,
                        removed as int,
                        replacement as int,
                    )
                    &&& score.staves@[u].objects@ == old_score.staves@[u].objects@
                    &&& score.staves@[u].object_indices@ == old_score.staves@[u].object_indices@
                    &&& score.staves@[u].object_address_free_list@ == old_score.staves@[u].object_address_free_list@
                    &&& score.staves@[u].vertical_center == old_score.staves@[u].vertical_center
                    &&& score.staves@[u].line_count == old_score.staves@[u].line_count
                },
        decreases score.staves.len() - t,
    {
        let index = crate::notation::scale_index_after_removal(score.staves[t].scale_index, removed, replacement);
        let ghost before = *score;
        crate::staff::set_scale_index(&mut score.staves[t], index);
        proof {
            assert(before.staves@[t as int].wf());
            assert(score.staves@[t as int].objects@ == before.staves@[t as int].objects@);
            assert(score.staves@[t as int].wf());
            crate::system::lemma_staff_change_keeps_score_wf(before, *score, t as int);
        }
        t = t + 1;
    }
}

/// Give every staff the scale index it has after the scale at `from` moves
/// to `to` in the list of scales (see `scale_index_after_move`).
pub fn move_staff_scales(score: &mut Score, from: usize, to: usize)
    requires
        old(score).wf(),
    ensures
        final(score).wf(),
        rescaled(
            old(score).staves@,
            final(score).staves@,
            |index: int| crate::notation::moved_scale_index(index, from as int, to as int),
        ),
        final(score).slices@ == old(score).slices@,
        final(score).slice_indices@ == old(score).slice_indices@,
        final(score).slice_address_free_list@ == old(score).slice_address_free_list@,
        final(score).ghost_cursor == old(score).ghost_cursor,
{
    let ghost old_score = *score;
    let mut t: usize = 0;
    while t < score.staves.len()
        invariant
            score.wf(),
            t <= score.staves.len(),
            score.staves.len() == old_score.staves.len(),
            score.slices@ == old_score.slices@,
            score.slice_indices@ == old_score.slice_indices@,
            score.slice_address_free_list@ == old_score.slice_address_free_list@,
            score.ghost_cursor == old_score.ghost_cursor,
            forall|u: int| t <= u < score.staves.len() ==> #[trigger] score.staves@[u] == old_score.staves@[u],
            forall|u: int|
                0 <= u < t ==> {
                    &&& (#[trigger] score.staves@[u]).scale_index == crate::notation::moved_scale_index(
                        old_score.staves@[u].scale_index as int,
                        from as int,
                        to as int,
                    )
                    &&& score.staves@[u].objects@ == old_score.staves@[u].objects@
                    &&& score.staves@[u].object_indices@ == old_score.staves@[u].object_indices@
                    &&& score.staves@[u].object_address_free_list@ == old_score.staves@[u].object_address_free_list@
                    &&& score.staves@[u].vertical_center == old_score.staves@[u].vertical_center
                    &&& score.staves@[u].line_count == old_score.staves@[u].line_count
                },
        decreases score.staves.len() - t,
    {
        let index = crate::notation::scale_index_after_move(score.staves[t].scale_index, from, to);
        let ghost before = *score;
        crate::staff::set_scale_index(&mut score.staves[t], index);
        proof {
            assert(before.staves@[t as int].wf());
            assert(score.staves@[t as int].wf());
            crate::system::lemma_staff_change_keeps_score_wf(before, *score, t as int);
        }
        t = t + 1;
    }
}

} // verus!
