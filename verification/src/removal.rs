use vstd::prelude::*;
use crate::staff::{
    as_rest, make_rest, last_key_sig_before, accidental_note_address, basic_remove_object, lemma_remove_keeps_live, lemma_remove_unlinked_keeps_staff_wf,
    note_accidental_address, note_pitch_of, object_addresses, object_at, object_live, same_staff_settings, unlinked,
    with_note_link, Object, ObjectType, SystemAddress,
};
use crate::accidentals::{
    display_entries, lemma_entries_add, lemma_entries_push, lemma_entries_split, lemma_last_key_sig_before,
    lemma_reset_keeps_entry_count, staff_displays_reset, previous_key_accidentals,
    displays_reset_from_previous_key_sig, remove_accidental_object, reset_accidental_displays_from_previous_key_sig,
};
use crate::system::{
    lemma_slice_addresses, lemma_entry_position, remove_object_from_slice, slice_addresses,
    slice_has_entry, entry_position, Score,
};

verus! {

/// How the slices change when an object of staff `staff_index` leaves its
/// slice: a slice that held only that object goes (the slices after it move
/// down one place in the table); otherwise the slice loses the object's entry.
pub open spec fn slice_removal(old_score: Score, new_score: Score, staff_index: int, object: Object) -> bool {
    match object.slice_address {
        None => new_score.slices@ == old_score.slices@ && new_score.slice_indices@ == old_score.slice_indices@,
        Some(a) => {
            let k = old_score.slice_indices@[a as int] as int;
            let entries = old_score.slices@[k].object_addresses@;
            if entries.len() == 1 {
                &&& new_score.slices@ == old_score.slices@.remove(k)
                &&& new_score.slice_indices.len() == old_score.slice_indices.len()
                &&& forall|m: int| 0 <= m < old_score.slices.len() ==> #[trigger] new_score.slice_indices@[old_score.slices@[m].address as int]
                    == if m > k { m - 1 } else { m }
            } else {
                let e = entry_position(entries, SystemAddress { staff_index: staff_index as usize, object_address: object.address });
                &&& new_score.slices.len() == old_score.slices.len()
                &&& forall|m: int| 0 <= m < old_score.slices.len() && m != k ==> #[trigger] new_score.slices@[m] == old_score.slices@[m]
                &&& new_score.slices@[k].address == old_score.slices@[k].address
                &&& new_score.slices@[k].rhythmic_position == old_score.slices@[k].rhythmic_position
                &&& new_score.slices@[k].object_addresses@ == if e < 0 { entries } else { entries.remove(e) }
                &&& new_score.slice_indices@ == old_score.slice_indices@
            }
        },
    }
}

/// The situation of removing the object at `idx` of staff `s`, neither an
/// accidental nor a note with one and not the last of its staff, from its
/// slice and its staff.
pub open spec fn removal_setup(old_score: Score, new_score: Score, s: int, idx: int) -> bool {
    &&& old_score.wf()
    &&& 0 <= s < old_score.staves.len()
    &&& 0 <= idx < old_score.staves@[s].objects.len() - 1
    &&& unlinked(old_score.staves@[s].objects@[idx])
    &&& new_score.staves.len() == old_score.staves.len()
    &&& forall|t: int| 0 <= t < old_score.staves.len() && t != s ==> #[trigger] new_score.staves@[t] == old_score.staves@[t]
    &&& new_score.staves@[s].table_wf()
    &&& new_score.staves@[s].objects@ == old_score.staves@[s].objects@.remove(idx)
    &&& same_staff_settings(&new_score.staves@[s], &old_score.staves@[s])
    &&& new_score.staves@[s].object_indices.len() == old_score.staves@[s].object_indices.len()
    &&& new_score.slice_address_free_list@ == old_score.slice_address_free_list@
    &&& slice_removal(old_score, new_score, s, old_score.staves@[s].objects@[idx])
}

/// The removed object's slice `k` lists it at `e0`, and no other entry of
/// that slice belongs to its staff.
proof fn lemma_removal_entry(old_score: Score, new_score: Score, s: int, idx: int) -> (ke: (int, int))
    requires
        removal_setup(old_score, new_score, s, idx),
        old_score.staves@[s].objects@[idx].slice_address is Some,
    ensures
        ({
            let o = old_score.staves@[s].objects@[idx];
            let a = o.slice_address->0 as int;
            let k = ke.0;
            let e0 = ke.1;
            let entries = old_score.slices@[k].object_addresses@;
            &&& old_score.slice_live(a)
            &&& k == old_score.slice_indices@[a] as int
            &&& 0 <= k < old_score.slices.len()
            &&& old_score.slices@[k].address == a
            &&& 0 <= e0 < entries.len()
            &&& entries[e0] == (SystemAddress { staff_index: s as usize, object_address: o.address })
            &&& entry_position(entries, entries[e0]) == e0
            &&& forall|f: int| 0 <= f < entries.len() && f != e0 ==> #[trigger] entries[f] != entries[e0]
        }),
{
    let old_staff = old_score.staves@[s];
    let o = old_staff.objects@[idx];
    let r = o.address as int;
    let a = o.slice_address->0 as int;
    assert(old_score.staves@[s].objects@[idx].slice_address is Some);
    assert(old_score.slice_live(a));
    let k = old_score.slice_indices@[a] as int;
    assert(slice_addresses(old_score.slices@)[k] == a);
    let entries = old_score.slices@[k].object_addresses@;
    assert(slice_has_entry(old_score.slice_of(a), s, r));
    let e0 = choose|e: int| 0 <= e < entries.len() && #[trigger] entries[e]
        == (SystemAddress { staff_index: s as usize, object_address: r as usize });
    let entry = entries[e0];
    lemma_entry_position(entries, entry);
    let e = entry_position(entries, entry);
    assert(e == e0) by {
        if e < e0 {
            assert(entries[e] == entry);
        }
    }
    assert forall|f: int| 0 <= f < entries.len() && f != e0 implies #[trigger] entries[f] != entries[e0] by {
        if f < e0 {
            assert(old_score.slices@[k].object_addresses@[f] != old_score.slices@[k].object_addresses@[e0]);
        } else {
            assert(old_score.slices@[k].object_addresses@[e0] != old_score.slices@[k].object_addresses@[f]);
        }
    }
    (k, e0)
}

/// The slice table stays sound, and slices other than the removed object's
/// keep their places.
proof fn lemma_removal_slice_table(old_score: Score, new_score: Score, s: int, idx: int)
    requires
        removal_setup(old_score, new_score, s, idx),
    ensures
        crate::address::table_wf(
            new_score.slice_indices@,
            new_score.slice_address_free_list@,
            slice_addresses(new_score.slices@),
        ),
        forall|b: int|
            old_score.slice_live(b) && old_score.staves@[s].objects@[idx].slice_address != Some(b as usize)
                ==> new_score.slice_live(b) && new_score.slice_of(b) == old_score.slice_of(b),
{
    lemma_slice_addresses(&old_score);
    let o = old_score.staves@[s].objects@[idx];
    if o.slice_address is None {
        assert(slice_addresses(new_score.slices@) =~= slice_addresses(old_score.slices@));
    } else {
        let (k, e0) = lemma_removal_entry(old_score, new_score, s, idx);
        let a = o.slice_address->0 as int;
        let removed_slice = old_score.slices@[k].object_addresses.len() == 1;
        let addrs = slice_addresses(new_score.slices@);
        let old_addrs = slice_addresses(old_score.slices@);
        let free = new_score.slice_address_free_list@;
        if removed_slice {
            assert forall|m: int| 0 <= m < addrs.len() implies #[trigger] addrs[m] < new_score.slice_indices.len()
                && new_score.slice_indices@[addrs[m] as int] == m by {
                let om = if m < k { m } else { m + 1 };
                assert(new_score.slices@[m] == old_score.slices@[om]);
                assert(new_score.slice_indices@[old_score.slices@[om].address as int] == if om > k { om - 1 } else { om });
            }
            assert forall|m: int, j: int| 0 <= m < addrs.len() && 0 <= j < free.len() implies
                #[trigger] addrs[m] != #[trigger] free[j] by {
                let om = if m < k { m } else { m + 1 };
                assert(new_score.slices@[m] == old_score.slices@[om]);
                assert(old_addrs[om] == addrs[m]);
            }
        } else {
            assert(addrs =~= old_addrs) by {
                assert forall|m: int| 0 <= m < addrs.len() implies addrs[m] == old_addrs[m] by {
                    if m != k {
                        assert(new_score.slices@[m] == old_score.slices@[m]);
                    }
                }
            }
        }
        assert forall|b: int| old_score.slice_live(b) && b != a implies new_score.slice_live(b)
            && new_score.slice_of(b) == old_score.slice_of(b) by {
            let kb = old_score.slice_indices@[b] as int;
            assert(slice_addresses(old_score.slices@)[kb] == b);
            assert(kb != k);
            if removed_slice {
                let nk = if kb > k { kb - 1 } else { kb };
                assert(new_score.slice_indices@[old_score.slices@[kb].address as int] == nk);
                assert(new_score.slices@[nk] == old_score.slices@[kb]);
                assert(slice_addresses(new_score.slices@)[nk] == b);
            } else {
                assert(new_score.slices@[kb] == old_score.slices@[kb]);
                assert(slice_addresses(new_score.slices@)[kb] == b);
            }
        }
    }
}

/// Every aligned object left is listed by its live slice.
proof fn lemma_removal_aligned(old_score: Score, new_score: Score, s: int, idx: int)
    requires
        removal_setup(old_score, new_score, s, idx),
        old_score.staves@[s].objects@[idx].slice_address is Some,
        forall|b: int|
            old_score.slice_live(b) && old_score.staves@[s].objects@[idx].slice_address != Some(b as usize)
                ==> new_score.slice_live(b) && new_score.slice_of(b) == old_score.slice_of(b),
    ensures
        forall|t: int, i: int|
            0 <= t < new_score.staves.len() && 0 <= i < new_score.staves@[t].objects.len()
                && (#[trigger] new_score.staves@[t].objects@[i]).slice_address is Some ==> {
                let b = new_score.staves@[t].objects@[i].slice_address->0 as int;
                &&& new_score.slice_live(b)
                &&& slice_has_entry(new_score.slice_of(b), t, new_score.staves@[t].objects@[i].address as int)
            },
{
    let old_staff = old_score.staves@[s];
    let new_staff = new_score.staves@[s];
    let o = old_staff.objects@[idx];
    let r = o.address as int;
    let a = o.slice_address->0 as int;
    let (k, e0) = lemma_removal_entry(old_score, new_score, s, idx);
    let entries = old_score.slices@[k].object_addresses@;
    let removed_slice = entries.len() == 1;
    lemma_slice_addresses(&old_score);
    assert forall|t: int, i: int|
        0 <= t < new_score.staves.len() && 0 <= i < new_score.staves@[t].objects.len()
            && (#[trigger] new_score.staves@[t].objects@[i]).slice_address is Some implies {
            let b = new_score.staves@[t].objects@[i].slice_address->0 as int;
            &&& new_score.slice_live(b)
            &&& slice_has_entry(new_score.slice_of(b), t, new_score.staves@[t].objects@[i].address as int)
        } by {
        let oi = if t != s || i < idx { i } else { i + 1 };
        let object = new_score.staves@[t].objects@[i];
        if t != s {
            assert(new_score.staves@[t] == old_score.staves@[t]);
        } else {
            assert(new_staff.objects@[i] == old_staff.objects@[oi]);
            assert(object_addresses(old_staff.objects@)[oi] == object.address);
            assert(object_addresses(old_staff.objects@)[idx] == r);
            crate::address::lemma_addresses_distinct(
                old_staff.object_indices@,
                old_staff.object_address_free_list@,
                object_addresses(old_staff.objects@),
                oi,
                idx,
            );
        }
        assert(old_score.staves@[t].objects@[oi] == object);
        let b = object.slice_address->0 as int;
        assert(old_score.slice_live(b));
        assert(slice_has_entry(old_score.slice_of(b), t, object.address as int));
        if b == a {
            let eb = choose|f: int| 0 <= f < old_score.slice_of(b).object_addresses.len()
                && #[trigger] old_score.slice_of(b).object_addresses@[f]
                == (SystemAddress { staff_index: t as usize, object_address: object.address });
            assert(eb != e0) by {
                if t == s {
                    assert(object.address != r);
                }
            }
            if removed_slice {
                assert(false);
            } else {
                let pos = if eb < e0 { eb } else { eb - 1 };
                assert(new_score.slices@[k].object_addresses@[pos] == entries[eb]);
                assert(slice_addresses(new_score.slices@)[k] == a);
            }
        }
    }
}

/// Every slice entry left names an object aligned to its slice, no slice
/// lists an object twice, and rhythmic positions stay sound.
proof fn lemma_removal_entries(old_score: Score, new_score: Score, s: int, idx: int)
    requires
        removal_setup(old_score, new_score, s, idx),
        old_score.staves@[s].objects@[idx].slice_address is Some,
    ensures
        forall|m: int, f: int|
            0 <= m < new_score.slices.len() && 0 <= f < new_score.slices@[m].object_addresses.len() ==> new_score.entry_wf(
                m,
                #[trigger] new_score.slices@[m].object_addresses@[f],
            ),
        forall|m: int, f: int, g: int|
            0 <= m < new_score.slices.len() && 0 <= f < g < new_score.slices@[m].object_addresses.len()
                ==> #[trigger] new_score.slices@[m].object_addresses@[f] != #[trigger] new_score.slices@[m].object_addresses@[g],
        forall|m: int|
            0 <= m < new_score.slices.len() && (#[trigger] new_score.slices@[m]).rhythmic_position is Some
                ==> crate::system::position_wf(new_score.slices@[m].rhythmic_position->0),
{
    let old_staff = old_score.staves@[s];
    let new_staff = new_score.staves@[s];
    let o = old_staff.objects@[idx];
    let r = o.address as int;
    let a = o.slice_address->0 as int;
    let (k, e0) = lemma_removal_entry(old_score, new_score, s, idx);
    let entries = old_score.slices@[k].object_addresses@;
    let removed_slice = entries.len() == 1;
    lemma_slice_addresses(&old_score);
    lemma_remove_keeps_live(old_staff, new_staff, idx);
    assert(object_addresses(old_staff.objects@)[idx] == r);
    assert forall|m: int, f: int|
        0 <= m < new_score.slices.len() && 0 <= f < new_score.slices@[m].object_addresses.len() implies new_score.entry_wf(
            m,
            #[trigger] new_score.slices@[m].object_addresses@[f],
        ) by {
        let entry = new_score.slices@[m].object_addresses@[f];
        let om = if removed_slice && m >= k { m + 1 } else { m };
        if !removed_slice && m == k {
            let of = if f < e0 { f } else { f + 1 };
            assert(entry == entries[of]);
            assert(old_score.entry_wf(k, entry));
            assert(entry != entries[e0]);
            if entry.staff_index as int != s {
                assert(new_score.staves@[entry.staff_index as int] == old_score.staves@[entry.staff_index as int]);
            }
        } else {
            assert(new_score.slices@[m] == old_score.slices@[om]);
            assert(om != k);
            assert(old_score.entry_wf(om, entry));
            if entry.staff_index as int != s {
                assert(new_score.staves@[entry.staff_index as int] == old_score.staves@[entry.staff_index as int]);
            } else {
                if entry.object_address as int == r {
                    assert(object_at(old_staff, r) == o);
                    assert(old_score.slices@[om].address == a);
                }
            }
        }
    }
    assert forall|m: int, f: int, g: int|
        0 <= m < new_score.slices.len() && 0 <= f < g < new_score.slices@[m].object_addresses.len() implies
        #[trigger] new_score.slices@[m].object_addresses@[f] != #[trigger] new_score.slices@[m].object_addresses@[g] by {
        let om = if removed_slice && m >= k { m + 1 } else { m };
        if !removed_slice && m == k {
            let of = if f < e0 { f } else { f + 1 };
            let og = if g < e0 { g } else { g + 1 };
            assert(new_score.slices@[k].object_addresses@[f] == entries[of]);
            assert(new_score.slices@[k].object_addresses@[g] == entries[og]);
        } else {
            assert(new_score.slices@[m] == old_score.slices@[om]);
        }
    }
    assert forall|m: int|
        0 <= m < new_score.slices.len() && (#[trigger] new_score.slices@[m]).rhythmic_position is Some
            implies crate::system::position_wf(new_score.slices@[m].rhythmic_position->0) by {
        let om = if removed_slice && m >= k { m + 1 } else { m };
        if !(!removed_slice && m == k) {
            assert(new_score.slices@[m] == old_score.slices@[om]);
        }
    }
}

/// Removing an object that is neither an accidental nor a note with one, and
/// not the last of its staff, from its slice and its staff leaves the score
/// sound, and every other slice in its place.
pub proof fn lemma_remove_unlinked_keeps_score_wf(old_score: Score, new_score: Score, s: int, idx: int)
    requires
        removal_setup(old_score, new_score, s, idx),
    ensures
        new_score.wf(),
        forall|b: int|
            old_score.slice_live(b) && old_score.staves@[s].objects@[idx].slice_address != Some(b as usize)
                ==> new_score.slice_live(b) && new_score.slice_of(b) == old_score.slice_of(b),
{
    let old_staff = old_score.staves@[s];
    let new_staff = new_score.staves@[s];
    let o = old_staff.objects@[idx];
    lemma_remove_keeps_live(old_staff, new_staff, idx);
    lemma_remove_unlinked_keeps_staff_wf(old_staff, new_staff, idx);
    lemma_removal_slice_table(old_score, new_score, s, idx);
    if o.slice_address is None {
        assert(object_addresses(old_staff.objects@)[idx] == o.address);
        assert(object_at(old_staff, o.address as int) == o);
        crate::system::lemma_staff_change_keeps_score_wf(old_score, new_score, s);
    } else {
        lemma_removal_aligned(old_score, new_score, s, idx);
        lemma_removal_entries(old_score, new_score, s, idx);
        assert forall|t: int| 0 <= t < new_score.staves.len() implies (#[trigger] new_score.staves@[t]).wf() by {
            if t != s {
                assert(new_score.staves@[t] == old_score.staves@[t]);
            }
        }
    }
}

/// Remove the object at `object_index` of staff `staff_index` (neither an
/// accidental nor a note with one, and not the last of its staff) from its
/// slice, if it has one, and from the staff.
pub fn remove_unlinked_object(
    slice_addresses_to_respace: &mut Vec<usize>,
    score: &mut Score,
    staff_index: usize,
    object_index: usize,
)
    requires
        old(score).wf(),
        staff_index < old(score).staves.len(),
        object_index + 1 < old(score).staves@[staff_index as int].objects.len(),
        unlinked(old(score).staves@[staff_index as int].objects@[object_index as int]),
    ensures
        final(score).wf(),
        removal_setup(*old(score), *final(score), staff_index as int, object_index as int),
        final(score).ghost_cursor == old(score).ghost_cursor,
        forall|b: int|
            old(score).slice_live(b) && old(score).staves@[staff_index as int].objects@[object_index as int].slice_address
                != Some(b as usize) ==> final(score).slice_live(b) && final(score).slice_of(b) == old(score).slice_of(b),
{
    let ghost old_score = *score;
    proof {
        lemma_slice_addresses(score);
        let o = score.staves@[staff_index as int].objects@[object_index as int];
        assert(score.staves@[staff_index as int].objects@[object_index as int].slice_address is Some ==> score.slice_live(
            o.slice_address->0 as int,
        ));
        assert(score.staves@[staff_index as int].wf());
        let objects = score.staves@[staff_index as int].objects@;
        assert(objects[objects.len() - 1].slice_address is Some);
    }
    remove_object_from_slice(
        slice_addresses_to_respace,
        &mut score.slices,
        &mut score.slice_indices,
        staff_index,
        &score.staves[staff_index].objects[object_index],
    );
    basic_remove_object(slice_addresses_to_respace, &mut score.staves[staff_index], object_index);
    proof {
        lemma_remove_unlinked_keeps_score_wf(old_score, *score, staff_index as int, object_index as int);
    }
}

/// The objects left when those from `first` through `last` go.
pub open spec fn without_run(objects: Seq<Object>, first: int, last: int) -> Seq<Object> {
    objects.subrange(0, first) + objects.subrange(last + 1, objects.len() as int)
}

/// Whether the object is a clef at the head of its staff.
pub open spec fn is_header_clef(object: Object) -> bool {
    object.object_type is Clef && object.object_type->Clef_0.is_header
}

/// What removing objects of staff `staff_index` did to the rest of the
/// score: it is sound, the other staves are unchanged, and so are the slices
/// other than `slice_address`; the ghost cursor stayed or went.
pub open spec fn removal_kept(old_score: Score, new_score: Score, staff_index: int, slice_address: Option<usize>) -> bool {
    &&& new_score.wf()
    &&& new_score.staves.len() == old_score.staves.len()
    &&& forall|t: int| 0 <= t < old_score.staves.len() && t != staff_index ==> #[trigger] new_score.staves@[t]
        == old_score.staves@[t]
    &&& same_staff_settings(&new_score.staves@[staff_index], &old_score.staves@[staff_index])
    &&& (new_score.ghost_cursor == old_score.ghost_cursor || new_score.ghost_cursor is None)
    &&& forall|b: int|
        old_score.slice_live(b) && slice_address != Some(b as usize) ==> new_score.slice_live(b) && new_score.slice_of(b)
            == old_score.slice_of(b)
}

/// Remove the note at `object_index` of staff `staff_index` with its
/// accidental, if it has one, and reset the accidental displays from the
/// key signature before it. Returns how many objects went.
#[verifier::rlimit(40)]
fn remove_note(
    slice_addresses_to_respace: &mut Vec<usize>,
    score: &mut Score,
    staff_index: usize,
    object_index: usize,
) -> (removal_count: usize)
    requires
        old(score).wf(),
        staff_index < old(score).staves.len(),
        object_index + 1 < old(score).staves@[staff_index as int].objects.len(),
        note_pitch_of(old(score).staves@[staff_index as int].objects@[object_index as int]) is Some,
        old(score).staves@[staff_index as int].object_indices.len() + old(score).staves@[staff_index as int].objects.len()
            < usize::MAX,
    ensures
        removal_kept(
            *old(score),
            *final(score),
            staff_index as int,
            old(score).staves@[staff_index as int].objects@[object_index as int].slice_address,
        ),
        ({
            let objects = old(score).staves@[staff_index as int].objects@;
            let idx = object_index as int;
            let first = idx + 1 - removal_count;
            &&& removal_count == if note_accidental_address(objects[idx]) is Some { 2int } else { 1int }
            &&& removal_count <= idx + 1
            &&& displays_reset_from_previous_key_sig(
                without_run(objects, first, idx),
                final(score).staves@[staff_index as int].objects@,
                first,
            )
        }),
{
    let ghost s = staff_index as int;
    let ghost objects = score.staves@[s].objects@;
    let ghost idx = object_index as int;
    proof {
        assert(score.staves@[s].wf());
    }
    let accidental_address = match &score.staves[staff_index].objects[object_index].object_type {
        ObjectType::Duration { pitch: Some(note_pitch), .. } => note_pitch.accidental_address,
        _ => None,
    };
    let mut index = object_index;
    let mut removal_count: usize = 1;
    if let Some(accidental_address) = accidental_address {
        proof {
            assert(note_accidental_address(objects[idx]) is Some);
            assert(objects[idx - 1].address == accidental_address);
            assert(object_addresses(objects)[idx - 1] == accidental_address);
        }
        let accidental_index = score.staves[staff_index].object_indices[accidental_address];
        remove_accidental_object(slice_addresses_to_respace, score, staff_index, accidental_index);
        removal_count = 2;
        index = object_index - 1;
        proof {
            assert(score.staves@[s].objects@[index as int] == crate::staff::unlinked_note(objects[idx]));
        }
    }
    remove_unlinked_object(slice_addresses_to_respace, score, staff_index, index);
    proof {
        let first = idx + 1 - removal_count;
        assert(score.staves@[s].objects@ =~= without_run(objects, first, idx));
    }
    reset_accidental_displays_from_previous_key_sig(slice_addresses_to_respace, score, staff_index, index);
    removal_count
}

/// What removing the object at `idx` left of a staff's objects, with
/// `removal_count` objects gone: nothing changes for a header clef; an
/// accidental goes, its note no longer linked to it; a note goes with its
/// accidental, and after it or a key signature goes, the accidental displays
/// are reset from the key signature before it; any other object just goes.
pub open spec fn object_removal_result(objects: Seq<Object>, new_objects: Seq<Object>, idx: int, removal_count: int) -> bool {
    let object = objects[idx];
    if is_header_clef(object) {
        removal_count == 0 && new_objects == objects
    } else if object.object_type is Accidental {
        &&& removal_count == 1
        &&& new_objects == objects.update(idx + 1, crate::staff::unlinked_note(objects[idx + 1])).remove(idx)
    } else if note_pitch_of(object) is Some || object.object_type is KeySig {
        let first = idx + 1 - removal_count;
        &&& removal_count == if note_accidental_address(object) is Some { 2int } else { 1int }
        &&& displays_reset_from_previous_key_sig(without_run(objects, first, idx), new_objects, first)
    } else {
        removal_count == 1 && new_objects == objects.remove(idx)
    }
}

/// Remove the object at `object_index` of staff `staff_index`, unless it is
/// the staff's header clef, and return how many objects went. An accidental
/// goes alone, its note no longer linked to it; a note goes with its
/// accidental; after a note or a key signature goes, the accidental
/// displays are reset from the key signature before it. The ghost cursor
/// goes when it stood on the object.
pub fn remove_object(
    slice_addresses_to_respace: &mut Vec<usize>,
    score: &mut Score,
    staff_index: usize,
    object_index: usize,
) -> (removal_count: usize)
    requires
        old(score).wf(),
        staff_index < old(score).staves.len(),
        object_index + 1 < old(score).staves@[staff_index as int].objects.len(),
        old(score).staves@[staff_index as int].object_indices.len() + old(score).staves@[staff_index as int].objects.len()
            < usize::MAX,
    ensures
        removal_kept(
            *old(score),
            *final(score),
            staff_index as int,
            old(score).staves@[staff_index as int].objects@[object_index as int].slice_address,
        ),
        old(score).ghost_cursor == Some(
            SystemAddress {
                staff_index: staff_index,
                object_address: old(score).staves@[staff_index as int].objects@[object_index as int].address,
            },
        ) ==> final(score).ghost_cursor is None,
        object_removal_result(
            old(score).staves@[staff_index as int].objects@,
            final(score).staves@[staff_index as int].objects@,
            object_index as int,
            removal_count as int,
        ),
        removal_count <= object_index + 1,
        is_header_clef(old(score).staves@[staff_index as int].objects@[object_index as int]) ==> {
            &&& final(slice_addresses_to_respace)@ == old(slice_addresses_to_respace)@
            &&& final(score).staves@ == old(score).staves@
            &&& final(score).slices@ == old(score).slices@
            &&& final(score).slice_indices@ == old(score).slice_indices@
            &&& final(score).slice_address_free_list@ == old(score).slice_address_free_list@
            &&& final(score).ghost_cursor == if old(score).ghost_cursor == Some(
                SystemAddress {
                    staff_index: staff_index,
                    object_address: old(score).staves@[staff_index as int].objects@[object_index as int].address,
                },
            ) {
                None
            } else {
                old(score).ghost_cursor
            }
        },
{
    let ghost s = staff_index as int;
    let ghost objects = score.staves@[s].objects@;
    let ghost idx = object_index as int;
    let address = score.staves[staff_index].objects[object_index].address;
    if let Some(ghost_address) = &score.ghost_cursor {
        if ghost_address.staff_index == staff_index && ghost_address.object_address == address {
            score.ghost_cursor = None;
        }
    }
    let ghost cleared = *score;
    proof {
        assert(cleared.wf());
        assert(cleared.staves@[s].wf());
    }
    let mut is_accidental = false;
    let mut is_header_clef_object = false;
    let mut is_note = false;
    let mut is_key_sig = false;
    match &score.staves[staff_index].objects[object_index].object_type {
        ObjectType::Accidental { .. } => {
            is_accidental = true;
        },
        ObjectType::Clef(clef) => {
            is_header_clef_object = clef.is_header;
        },
        ObjectType::Duration { pitch: Some(_), .. } => {
            is_note = true;
        },
        ObjectType::KeySig(_) => {
            is_key_sig = true;
        },
        _ => {},
    }
    if is_accidental {
        remove_accidental_object(slice_addresses_to_respace, score, staff_index, object_index);
        return 1;
    }
    if is_header_clef_object {
        return 0;
    }
    if is_note {
        return remove_note(slice_addresses_to_respace, score, staff_index, object_index);
    }
    remove_unlinked_object(slice_addresses_to_respace, score, staff_index, object_index);
    if is_key_sig {
        proof {
            assert(score.staves@[s].objects@ =~= without_run(objects, idx, idx));
        }
        reset_accidental_displays_from_previous_key_sig(slice_addresses_to_respace, score, staff_index, object_index);
    }
    1
}

/// A note turned into a rest, unlinked from the accidental it had.
pub open spec fn rest_of_note(object: Object) -> Object {
    if note_accidental_address(object) is Some {
        as_rest(crate::staff::unlinked_note(object))
    } else {
        as_rest(object)
    }
}

/// What deleting the object at `object_index` of staff `staff_index` did,
/// `removal_count` objects before it going with it: accidentals, barlines
/// and rests stay and nothing changes; a note becomes a rest without its
/// accidental and the accidental displays are reset from the key signature
/// before it; any other object is removed as `remove_object` removes it.
pub open spec fn object_deleted(old_score: Score, new_score: Score, staff_index: int, object_index: int, removal_count: int) -> bool {
    let objects = old_score.staves@[staff_index].objects@;
    let new_objects = new_score.staves@[staff_index].objects@;
    let idx = object_index;
    let object = objects[idx];
    if object.object_type is Accidental || object.object_type is Barline || (object.object_type is Duration
        && note_pitch_of(object) is None) {
        removal_count == 0 && new_score == old_score
    } else if note_pitch_of(object) is Some {
        let first = idx - removal_count;
        &&& removal_kept(old_score, new_score, staff_index, None)
        &&& removal_count == if note_accidental_address(object) is Some { 1int } else { 0int }
        &&& displays_reset_from_previous_key_sig(
            objects.subrange(0, first).push(rest_of_note(object)) + objects.subrange(idx + 1, objects.len() as int),
            new_objects,
            first,
        )
    } else {
        &&& removal_kept(old_score, new_score, staff_index, object.slice_address)
        &&& object_removal_result(objects, new_objects, idx, removal_count as int)
    }
}

/// Delete the object at `object_index` of staff `staff_index` and return how
/// many objects before it went. Accidentals, barlines and rests stay; a note
/// becomes a rest, loses its accidental, and the accidental displays are
/// reset from the key signature before it; any other object is removed.
pub fn delete_object(
    slice_addresses_to_respace: &mut Vec<usize>,
    score: &mut Score,
    staff_index: usize,
    object_index: usize,
) -> (removal_count: usize)
    requires
        old(score).wf(),
        staff_index < old(score).staves.len(),
        object_index + 1 < old(score).staves@[staff_index as int].objects.len(),
        old(score).staves@[staff_index as int].object_indices.len() + old(score).staves@[staff_index as int].objects.len()
            < usize::MAX,
    ensures
        object_deleted(*old(score), *final(score), staff_index as int, object_index as int, removal_count as int),
        ({
            let object = old(score).staves@[staff_index as int].objects@[object_index as int];
            object.object_type is Accidental || object.object_type is Barline || (object.object_type is Duration
                && note_pitch_of(object) is None)
        }) ==> final(slice_addresses_to_respace)@ == old(slice_addresses_to_respace)@,
{
    let ghost s = staff_index as int;
    let ghost old_score = *score;
    let ghost objects = score.staves@[s].objects@;
    let ghost idx = object_index as int;
    proof {
        assert(score.staves@[s].wf());
    }
    let mut keep = false;
    let mut is_note = false;
    let mut accidental_address: Option<usize> = None;
    match &score.staves[staff_index].objects[object_index].object_type {
        ObjectType::Accidental { .. } => {
            keep = true;
        },
        ObjectType::Barline { .. } => {
            keep = true;
        },
        ObjectType::Duration { pitch, .. } => {
            keep = true;
            if let Some(note_pitch) = pitch {
                is_note = true;
                accidental_address = note_pitch.accidental_address;
            }
        },
        _ => {},
    }
    if !keep {
        return remove_object(slice_addresses_to_respace, score, staff_index, object_index);
    }
    if !is_note {
        return 0;
    }
    if let Some(slice_address) = score.staves[staff_index].objects[object_index].slice_address {
        slice_addresses_to_respace.push(slice_address);
    }
    let mut removal_count: usize = 0;
    let mut index = object_index;
    if let Some(accidental_address) = accidental_address {
        proof {
            assert(note_accidental_address(objects[idx]) is Some);
            assert(objects[idx - 1].address == accidental_address);
            assert(object_addresses(objects)[idx - 1] == accidental_address);
        }
        let accidental_index = score.staves[staff_index].object_indices[accidental_address];
        remove_accidental_object(slice_addresses_to_respace, score, staff_index, accidental_index);
        removal_count = 1;
        index = object_index - 1;
        proof {
            assert(score.staves@[s].objects@[index as int] == crate::staff::unlinked_note(objects[idx]));
        }
    }
    let ghost before_rest = *score;
    proof {
        assert(before_rest.staves@[s].wf());
    }
    make_rest(&mut score.staves[staff_index], index);
    proof {
        crate::system::lemma_staff_change_keeps_score_wf(before_rest, *score, s);
        let first = idx - removal_count;
        assert(score.staves@[s].objects@ =~= objects.subrange(0, first).push(rest_of_note(objects[idx]))
            + objects.subrange(idx + 1, objects.len() as int));
        assert forall|b: int| old_score.slice_live(b) implies score.slice_live(b) && score.slice_of(b) == old_score.slice_of(b) by {}
    }
    reset_accidental_displays_from_previous_key_sig(slice_addresses_to_respace, score, staff_index, index);
    removal_count
}

/// Taking a run of objects that ends in one that is not an accidental out
/// of a staff's objects leaves fewer display entries.
pub proof fn lemma_without_run_entries(objects: Seq<Object>, first: int, idx: int)
    requires
        0 <= first <= idx < objects.len(),
        accidental_note_address(objects[idx]) is None,
    ensures
        display_entries(without_run(objects, first, idx)).len() < display_entries(objects).len(),
{
    let len = objects.len() as int;
    lemma_entries_split(objects, first);
    let rest = objects.subrange(first, len);
    lemma_entries_split(rest, idx + 1 - first);
    assert(rest.subrange(0, idx + 1 - first) =~= objects.subrange(first, idx).push(objects[idx]));
    lemma_entries_push(objects.subrange(first, idx), objects[idx]);
    assert(rest.subrange(idx + 1 - first, rest.len() as int) =~= objects.subrange(idx + 1, len));
    lemma_entries_add(objects.subrange(0, first), objects.subrange(idx + 1, len));
}

/// Removing an object other than an accidental, when anything goes, leaves
/// fewer display entries.
pub proof fn lemma_removal_reduces_entries(objects: Seq<Object>, new_objects: Seq<Object>, idx: int, removal_count: int)
    requires
        0 <= idx < objects.len(),
        object_removal_result(objects, new_objects, idx, removal_count),
        1 <= removal_count <= idx + 1,
        accidental_note_address(objects[idx]) is None,
    ensures
        display_entries(new_objects).len() < display_entries(objects).len(),
{
    let object = objects[idx];
    if note_pitch_of(object) is Some || object.object_type is KeySig {
        let first = idx + 1 - removal_count;
        let mid = without_run(objects, first, idx);
        lemma_without_run_entries(objects, first, idx);
        let (stop, found) = choose|stop: int, found: bool| #[trigger] staff_displays_reset(
            mid,
            new_objects,
            last_key_sig_before(mid, first) + 1,
            stop,
            found,
            previous_key_accidentals(mid, first),
        );
        assert(mid.len() == objects.len() - (idx + 1 - first));
        lemma_last_key_sig_before(mid, first);
        lemma_reset_keeps_entry_count(
            mid,
            new_objects,
            last_key_sig_before(mid, first) + 1,
            stop,
            found,
            previous_key_accidentals(mid, first),
        );
    } else {
        assert(new_objects =~= without_run(objects, idx, idx));
        lemma_without_run_entries(objects, idx, idx);
    }
}

} // verus!
