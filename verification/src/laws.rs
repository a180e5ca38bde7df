use vstd::prelude::*;
use crate::notation::{
    decimal_digits, moved_scale_index, one_step_flatter, one_step_sharper, remapped_scale_index, Accidental,
};
use crate::rhythm::{bits_value_num, divides, fraction_bits, two_to};
use crate::spacing::{
    first_cursor_position, ghost_cursor, hovered_staff, next_aligned, room_distance, scan_objects, scan_slices,
    slice_distances, slice_room, slices_keep_structure, staves_have_cursor_positions, staves_keep_structure,
    lemma_first_cursor_position, lemma_next_aligned, StaffSpacing, lemma_entry_object_bounds,
};
use crate::staff::Object;
use crate::accidentals::{
    display_entries, display_entry, entry_objects, first_key_sig_from, lemma_entries_add, lemma_first_key_sig_bounds,
    lemma_last_key_sig_before, previous_key_accidentals, staff_displays_reset,
};
use crate::content::staff_content;
use crate::removal::{object_deleted, rest_of_note};
use crate::staff::{accidental_note_address, last_key_sig_before, note_accidental_address, note_pitch_of};
use crate::system::Score;
use crate::accidentals::{history, letter_of, scan, shown_at, displays_ok, DisplayEntry};
use crate::notation::{
    clef_codepoint, letter_accidental, spec_staff_middle_pitch, Clef, ClefOctave, ClefShape, KeySig, KeySigAccidental, Pitch,
};
use crate::staff::{
    accidental_search_stop, first_letter_accidental, spec_default_accidental, stops_accidental_search, ObjectType,
};

verus! {

/// Raising an accidental and lowering the result gives it back, and so
/// does lowering and then raising.
pub proof fn law_raise_lower_inverse(accidental: Accidental)
    ensures
        one_step_sharper(accidental) matches Some(raised) ==> one_step_flatter(raised) == Some(accidental),
        one_step_flatter(accidental) matches Some(lowered) ==> one_step_sharper(lowered) == Some(accidental),
{
}

/// Moving a scale from `from` to `to` and back again leaves every scale
/// index where it was.
pub proof fn law_scale_move_round_trip(index: int, from: int, to: int)
    ensures
        moved_scale_index(moved_scale_index(index, from, to), to, from) == index,
{
}

/// Moving a scale within a list of `n` scales sends distinct indices of the
/// list to distinct indices of the list.
pub proof fn law_scale_move_permutes(i: int, j: int, from: int, to: int, n: int)
    requires
        0 <= i < n,
        0 <= j < n,
        0 <= from < n,
        0 <= to < n,
        i != j,
    ensures
        0 <= moved_scale_index(i, from, to) < n,
        moved_scale_index(i, from, to) != moved_scale_index(j, from, to),
{
}

/// Removing one of `n` scales sends every index of the list, with the users
/// of the removed scale sent to an index of the shorter list, to an index
/// of the shorter list; the other scales keep their order.
pub proof fn law_scale_removal_in_range(i: int, j: int, removed: int, replacement: int, n: int)
    requires
        0 <= i < n,
        0 <= j < n,
        0 <= removed < n,
        0 <= replacement < n - 1,
    ensures
        0 <= remapped_scale_index(i, removed, replacement) < n - 1,
        i != removed && j != removed && i < j ==> remapped_scale_index(i, removed, replacement)
            < remapped_scale_index(j, removed, replacement),
{
}

/// The value of decimal digits, most significant first.
pub open spec fn decimal_value(digits: Seq<nat>) -> nat
    decreases digits.len(),
{
    if digits.len() == 0 {
        0
    } else {
        decimal_value(digits.drop_last()) * 10 + digits.last()
    }
}

/// Reading back the decimal digits of a number gives the number, and every
/// digit is below ten.
pub proof fn law_decimal_digits_read_back(n: nat)
    ensures
        decimal_value(decimal_digits(n)) == n,
        forall|i: int| 0 <= i < decimal_digits(n).len() ==> #[trigger] decimal_digits(n)[i] < 10,
    decreases n,
{
    if n > 0 {
        law_decimal_digits_read_back(n / 10);
        let digits = decimal_digits(n);
        assert(digits.drop_last() == decimal_digits(n / 10));
        assert forall|i: int| 0 <= i < digits.len() implies #[trigger] digits[i] < 10 by {
            if i < digits.len() - 1 {
                assert(digits[i] == decimal_digits(n / 10)[i]);
            }
        }
    }
}

/// The binary digits after the point of a fraction whose denominator
/// divides 2^30 are exact: the fraction times 2 to the number of digits is
/// the digits read as a binary number.
pub proof fn law_fraction_bits_exact(remainder: int, denominator: int)
    requires
        0 <= remainder < denominator,
        divides(denominator, two_to(30) as int),
    ensures
        remainder * two_to(fraction_bits(remainder, denominator, 30).len()) == bits_value_num(
            fraction_bits(remainder, denominator, 30),
        ) * denominator,
{
    assert(two_to(0) == 1);
    vstd::arithmetic::div_mod::lemma_small_mod(remainder as nat, denominator as nat);
    assert((remainder * two_to(0)) % denominator == remainder);
    lemma_fraction_bits_steps(remainder, denominator, 30, 0);
}

/// After `done` steps with remainder `r` left, the bits still to come carry
/// the rest exactly, within the steps left, when 2^(done + steps) is a
/// multiple of the denominator and `r` is what `done` steps leave of a
/// fraction.
proof fn lemma_fraction_bits_steps(r: int, d: int, steps: nat, done: nat)
    requires
        0 <= r < d,
        divides(d, two_to(done + steps) as int),
        exists|r0: int| 0 <= r0 < d && #[trigger] ((r0 * two_to(done)) % d) == r,
    ensures
        r * two_to(fraction_bits(r, d, steps).len()) == bits_value_num(fraction_bits(r, d, steps)) * d,
    decreases steps,
{
    let bits = fraction_bits(r, d, steps);
    if steps == 0 {
        let r0 = choose|r0: int| 0 <= r0 < d && #[trigger] ((r0 * two_to(done)) % d) == r;
        assert(done + steps == done);
        lemma_multiple_mod(r0, d, done);
        assert(r == 0);
        assert(two_to(0) == 1);
        assert(bits =~= Seq::<u8>::empty());
        assert(bits_value_num(Seq::<u8>::empty()) == 0);
    } else {
        let bit = (2 * r) / d;
        let next = (2 * r) % d;
        vstd::arithmetic::div_mod::lemma_fundamental_div_mod(2 * r, d);
        assert(2 * r == d * bit + next);
        assert(0 <= next < d) by {
            vstd::arithmetic::div_mod::lemma_mod_bound(2 * r, d);
        }
        assert(0 <= bit <= 1) by (nonlinear_arith)
            requires
                2 * r == d * bit + next,
                0 <= next < d,
                0 <= r < d,
        ;
        if next == 0 {
            assert(bits == seq![bit as u8]);
            assert(bits.drop_last() =~= Seq::<u8>::empty());
            assert(bits_value_num(Seq::<u8>::empty()) == 0);
            assert(bits.last() == bit as u8);
            assert(bits_value_num(bits) == bits_value_num(bits.drop_last()) * 2 + bits.last());
            assert(bits_value_num(bits) == bit);
            assert(two_to(1) == 2) by {
                assert(two_to(0) == 1);
            }
            assert(r * 2 == bit * d) by (nonlinear_arith)
                requires
                    2 * r == d * bit + next,
                    next == 0,
            ;
        } else {
            let rest = fraction_bits(next, d, (steps - 1) as nat);
            assert(bits == seq![bit as u8] + rest);
            let r0 = choose|r0: int| 0 <= r0 < d && #[trigger] ((r0 * two_to(done)) % d) == r;
            assert(((r0 * two_to(done + 1)) % d) == next) by {
                vstd::arithmetic::div_mod::lemma_mul_mod_noop_right(2, r0 * two_to(done), d);
                assert(two_to(done + 1) == 2 * two_to(done));
                assert(2 * (r0 * two_to(done)) == r0 * two_to(done + 1)) by (nonlinear_arith)
                    requires
                        two_to(done + 1) == 2 * two_to(done),
                ;
            }
            assert((done + 1) + (steps - 1) as nat == done + steps);
            lemma_fraction_bits_steps(next, d, (steps - 1) as nat, done + 1);
            lemma_bits_prepend(bit as u8, rest);
            crate::rhythm::lemma_two_to_adds(1, rest.len());
            assert(two_to(1) == 2) by {
                assert(two_to(0) == 1);
            }
            assert(bits.len() == 1 + rest.len());
            let p = two_to(rest.len()) as int;
            assert(r * two_to(bits.len()) == bits_value_num(bits) * d) by (nonlinear_arith)
                requires
                    two_to(bits.len()) == 2 * p,
                    bits_value_num(bits) == bit * p + bits_value_num(rest),
                    next * p == bits_value_num(rest) * d,
                    2 * r == d * bit + next,
            ;
        }
    }
}

/// A multiple of 2^s leaves no remainder by a divisor of 2^s.
proof fn lemma_multiple_mod(r0: int, d: int, s: nat)
    requires
        divides(d, two_to(s) as int),
    ensures
        (r0 * two_to(s)) % d == 0,
{
    let k = two_to(s) as int / d;
    vstd::arithmetic::div_mod::lemma_fundamental_div_mod(two_to(s) as int, d);
    assert(two_to(s) as int == d * k);
    assert(r0 * two_to(s) == (r0 * k) * d) by (nonlinear_arith)
        requires
            two_to(s) as int == d * k,
    ;
    vstd::arithmetic::div_mod::lemma_mod_multiples_basic(r0 * k, d);
}

/// A leading binary digit adds its place value.
proof fn lemma_bits_prepend(bit: u8, rest: Seq<u8>)
    ensures
        bits_value_num(seq![bit] + rest) == bit * two_to(rest.len()) + bits_value_num(rest),
    decreases rest.len(),
{
    if rest.len() == 0 {
        assert(seq![bit] + rest =~= seq![bit]);
        assert(seq![bit].drop_last() =~= Seq::<u8>::empty());
        assert(bits_value_num(Seq::<u8>::empty()) == 0);
        assert(rest =~= Seq::<u8>::empty());
        assert(bits_value_num(seq![bit]) == bits_value_num(seq![bit].drop_last()) * 2 + seq![bit].last());
        assert(two_to(0) == 1);
    } else {
        lemma_bits_prepend(bit, rest.drop_last());
        assert((seq![bit] + rest).drop_last() =~= seq![bit] + rest.drop_last());
        assert(two_to(rest.len()) == 2 * two_to((rest.len() - 1) as nat));
        assert(bits_value_num(seq![bit] + rest) == bits_value_num(seq![bit] + rest.drop_last()) * 2 + rest.last());
        assert(bits_value_num(rest) == bits_value_num(rest.drop_last()) * 2 + rest.last());
        let p = two_to((rest.len() - 1) as nat) as int;
        assert(bits_value_num(seq![bit] + rest) == bit * two_to(rest.len()) + bits_value_num(rest)) by (nonlinear_arith)
            requires
                bits_value_num(seq![bit] + rest) == bits_value_num(seq![bit] + rest.drop_last()) * 2 + rest.last(),
                bits_value_num(seq![bit] + rest.drop_last()) == bit * p + bits_value_num(rest.drop_last()),
                bits_value_num(rest) == bits_value_num(rest.drop_last()) * 2 + rest.last(),
                two_to(rest.len()) == 2 * p,
        ;
    }
}

/// The staff the mouse hovers over spans the mouse's height.
pub proof fn law_hovered_staff_spans_mouse(bounds: Seq<(i32, i32)>, mouse_y: int, t: int)
    requires
        0 <= t,
        hovered_staff(bounds, mouse_y, t) is Some,
    ensures
        t <= hovered_staff(bounds, mouse_y, t)->0 < bounds.len(),
        bounds[hovered_staff(bounds, mouse_y, t)->0].0 <= mouse_y <= bounds[hovered_staff(bounds, mouse_y, t)->0].1,
    decreases bounds.len() - t,
{
    if mouse_y > bounds[t].1 {
        law_hovered_staff_spans_mouse(bounds, mouse_y, t + 1);
    }
}

/// The room distance of an object that is not aligned to a slice is that of
/// the object after it plus its own width: respaced objects stand in a
/// row, each its width left of the next, up to the aligned one.
pub proof fn law_room_distances_chain(objects: Seq<Object>, spacing: StaffSpacing, c: int)
    requires
        0 <= c < objects.len(),
        objects[c].slice_address is None,
    ensures
        room_distance(objects, spacing, c) == room_distance(objects, spacing, c + 1) + spacing.widths@[c],
{
    lemma_next_aligned(objects, c + 1, c + 1);
    assert(next_aligned(objects, c) == next_aligned(objects, c + 1));
}

/// The room that a slice needs depends only on which objects are aligned
/// where and on the distances of the slices before it: so resetting a slice
/// twice in a row gives the same distance both times.
pub proof fn law_slice_room_reads_earlier_slices(a: Score, b: Score, spacing: Seq<StaffSpacing>, slice_index: int, floor: int)
    requires
        a.wf(),
        0 <= slice_index < a.slices.len(),
        staves_keep_structure(b.staves@, a.staves@),
        slices_keep_structure(b.slices@, a.slices@),
        b.slice_indices@ == a.slice_indices@,
        forall|k: int| 0 <= k < slice_index ==> #[trigger] b.slices@[k].distance_from_previous_slice
            == a.slices@[k].distance_from_previous_slice,
    ensures
        slice_room(b, spacing, slice_index, floor) == slice_room(a, spacing, slice_index, floor),
{
    crate::spacing::lemma_slice_room_reads_alignment(a, b, spacing, slice_index, floor);
    assert forall|i: int| 0 <= i < slice_index implies #[trigger] slice_distances(a.slices@)[i]
        == slice_distances(b.slices@)[i] by {
        assert(b.slices@[i].distance_from_previous_slice == a.slices@[i].distance_from_previous_slice);
    }
    crate::spacing::lemma_widest_reads_earlier(
        a.staves@,
        spacing,
        slice_distances(a.slices@),
        slice_distances(b.slices@),
        a.slice_indices@,
        slice_index,
        a.slices@[slice_index].object_addresses@,
        floor,
    );
}

/// The ghost cursor, when it stands in a staff, stands at an object of that
/// staff that is a valid cursor position.
pub proof fn law_ghost_cursor_at_cursor_position(
    score: Score,
    system_left_edge: int,
    bounds: Seq<(i32, i32)>,
    limit: int,
    mouse_y: int,
)
    requires
        score.wf(),
        bounds.len() == score.staves.len(),
        staves_have_cursor_positions(score.staves@),
        ghost_cursor(score, system_left_edge, bounds, limit, mouse_y) matches Some(Some(_)),
    ensures
        ({
            let address = ghost_cursor(score, system_left_edge, bounds, limit, mouse_y)->0->0;
            let staff = score.staves@[address.staff_index as int];
            &&& address.staff_index < score.staves.len()
            &&& exists|c: int|
                0 <= c < staff.objects.len() && #[trigger] staff.objects@[c].address == address.object_address
                    && staff.objects@[c].is_valid_cursor_position
        }),
{
    let t = hovered_staff(bounds, mouse_y, 0)->0;
    law_hovered_staff_spans_mouse(bounds, mouse_y, 0);
    let objects = score.staves@[t].objects@;
    let j = choose|c: int| 0 <= c < objects.len() && objects[c].is_valid_cursor_position;
    lemma_first_cursor_position(objects, 0, j);
    let first = first_cursor_position(objects, 0);
    assert(scan_slices(score, t, limit, 0, first, first, system_left_edge) is Some);
    lemma_scan_slices_valid(score, t, limit, 0, first, first, system_left_edge);
    let c = scan_slices(score, t, limit, 0, first, first, system_left_edge)->0;
    let address = ghost_cursor(score, system_left_edge, bounds, limit, mouse_y)->0->0;
    assert(address == crate::staff::SystemAddress { staff_index: t as usize, object_address: objects[c].address });
    assert(score.staves@[address.staff_index as int].objects@[c].address == address.object_address);
}

/// Scanning the objects keeps the cursor at a valid cursor position.
proof fn lemma_scan_objects_valid(objects: Seq<Object>, limit: int, slice_x: int, pointer: int, bound: int, cursor: int)
    requires
        0 <= cursor < objects.len(),
        objects[cursor].is_valid_cursor_position,
        0 <= pointer,
        bound < objects.len(),
        scan_objects(objects, limit, slice_x, pointer, bound, cursor) is Some,
    ensures
        ({
            let (stopped, next, now) = scan_objects(objects, limit, slice_x, pointer, bound, cursor)->0;
            &&& 0 <= now < objects.len()
            &&& objects[now].is_valid_cursor_position
            &&& next >= pointer
        }),
    decreases bound + 1 - pointer,
{
    if pointer <= bound {
        let x = slice_x - objects[pointer].distance_to_next_slice;
        if x <= limit {
            lemma_scan_objects_valid(
                objects,
                limit,
                slice_x,
                pointer + 1,
                bound,
                if objects[pointer].is_valid_cursor_position { pointer } else { cursor },
            );
        }
    }
}

/// Scanning the slices keeps the cursor at a valid cursor position.
proof fn lemma_scan_slices_valid(score: Score, t: int, limit: int, slice_index: int, pointer: int, cursor: int, slice_x: int)
    requires
        score.wf(),
        0 <= t < score.staves.len(),
        0 <= cursor < score.staves@[t].objects.len(),
        score.staves@[t].objects@[cursor].is_valid_cursor_position,
        0 <= pointer,
        scan_slices(score, t, limit, slice_index, pointer, cursor, slice_x) is Some,
    ensures
        0 <= scan_slices(score, t, limit, slice_index, pointer, cursor, slice_x)->0 < score.staves@[t].objects.len(),
        score.staves@[t].objects@[scan_slices(score, t, limit, slice_index, pointer, cursor, slice_x)->0].is_valid_cursor_position,
    decreases score.slices.len() - slice_index,
{
    if 0 <= slice_index < score.slices.len() {
        let x = slice_x + score.slices@[slice_index].distance_from_previous_slice;
        let entries = score.slices@[slice_index].object_addresses@;
        let bound = crate::spacing::first_entry_index(entries, score.staves@[t], t);
        if crate::spacing::fits_i32(x) {
            if bound < 0 {
                lemma_scan_slices_valid(score, t, limit, slice_index + 1, pointer, cursor, x);
            } else {
                lemma_entry_object_bounds(score, slice_index, t);
                let objects = score.staves@[t].objects@;
                lemma_scan_objects_valid(objects, limit, x, pointer, bound, cursor);
                let (stopped, next, now) = scan_objects(objects, limit, x, pointer, bound, cursor)->0;
                if !stopped {
                    lemma_scan_slices_valid(score, t, limit, slice_index + 1, next, now, x);
                }
            }
        }
    }
}

/// Resetting the accidental displays of a staff from `start` changes only
/// which accidentals are drawn: the staff's content stays as it was.
pub proof fn law_display_reset_keeps_content(
    old_objects: Seq<Object>,
    objects: Seq<Object>,
    start: int,
    stop: int,
    found_key_sig: bool,
    key_accidentals: Seq<crate::notation::Accidental>,
)
    requires
        0 <= start <= old_objects.len(),
        staff_displays_reset(old_objects, objects, start, stop, found_key_sig, key_accidentals),
    ensures
        staff_content(objects) == staff_content(old_objects),
{
    let key_sig = first_key_sig_from(old_objects, start);
    lemma_first_key_sig_bounds(old_objects, start);
    let new_head = objects.subrange(0, start);
    let new_middle = objects.subrange(start, stop);
    let new_tail = objects.subrange(stop, objects.len() as int);
    let old_head = old_objects.subrange(0, start);
    let old_middle = old_objects.subrange(start, key_sig);
    let old_tail = old_objects.subrange(key_sig, old_objects.len() as int);
    assert(objects =~= new_head + new_middle + new_tail);
    assert(old_objects =~= old_head + old_middle + old_tail);
    lemma_entries_add(new_head + new_middle, new_tail);
    lemma_entries_add(new_head, new_middle);
    lemma_entries_add(old_head + old_middle, old_tail);
    lemma_entries_add(old_head, old_middle);
    let e_new = display_entries(new_head) + display_entries(new_middle) + display_entries(new_tail);
    let e_old = display_entries(old_head) + display_entries(old_middle) + display_entries(old_tail);
    assert(display_entries(objects) == e_new);
    assert(display_entries(old_objects) == e_old);
    assert(new_head == old_head);
    assert(new_tail == old_tail);
    assert(entry_objects(display_entries(new_middle)) == entry_objects(display_entries(old_middle)));
    assert(entry_objects(e_new) =~= entry_objects(display_entries(new_head)) + entry_objects(display_entries(new_middle))
        + entry_objects(display_entries(new_tail)));
    assert(entry_objects(e_old) =~= entry_objects(display_entries(old_head)) + entry_objects(display_entries(old_middle))
        + entry_objects(display_entries(old_tail)));
}

/// The display entries of a single object that is not an accidental.
proof fn lemma_single_entry(object: Object)
    requires
        accidental_note_address(object) is None,
    ensures
        display_entries(seq![object]) == seq![display_entry(object)],
{
    assert(seq![object].drop_last() =~= Seq::<Object>::empty());
    assert(display_entries(Seq::<Object>::empty()) =~= Seq::<crate::accidentals::DisplayEntry>::empty());
    assert(seq![display_entry(object)] =~= Seq::<crate::accidentals::DisplayEntry>::empty().push(display_entry(object)));
}

/// Deleting a note changes the staff's content at that note alone: the
/// note becomes a rest of the same length (its accidental, if it had one,
/// goes with the change of displays).
pub proof fn law_deleted_note_becomes_rest(old_score: Score, new_score: Score, s: int, i: int, count: int)
    requires
        old_score.wf(),
        0 <= s < old_score.staves.len(),
        0 <= i,
        i + 1 < old_score.staves@[s].objects.len(),
        note_pitch_of(old_score.staves@[s].objects@[i]) is Some,
        object_deleted(old_score, new_score, s, i, count),
    ensures
        ({
            let objects = old_score.staves@[s].objects@;
            staff_content(new_score.staves@[s].objects@) == staff_content(objects).update(
                display_entries(objects.subrange(0, i)).len() as int,
                display_entry(rest_of_note(objects[i])).object,
            )
        }),
{
    let objects = old_score.staves@[s].objects@;
    let new_objects = new_score.staves@[s].objects@;
    let note = objects[i];
    let first = i - count;
    assert(old_score.staves@[s].wf());
    assert(crate::staff::accidental_links_wf(objects));
    let rest = rest_of_note(note);
    let head = objects.subrange(0, first);
    let tail = objects.subrange(i + 1, objects.len() as int);
    let changed = head.push(rest) + tail;
    assert(accidental_note_address(note) is None);
    assert(accidental_note_address(rest) is None);
    if count == 1 {
        assert(note_accidental_address(note) is Some);
        assert(accidental_note_address(objects[i - 1]) is Some);
    }
    // the reset keeps the content of the changed staff
    let stop_found = choose|stop: int, found: bool| #[trigger] staff_displays_reset(
        changed,
        new_objects,
        last_key_sig_before(changed, first) + 1,
        stop,
        found,
        previous_key_accidentals(changed, first),
    );
    lemma_last_key_sig_before(changed, first);
    law_display_reset_keeps_content(
        changed,
        new_objects,
        last_key_sig_before(changed, first) + 1,
        stop_found.0,
        stop_found.1,
        previous_key_accidentals(changed, first),
    );
    // the content of the changed staff is the old content with the note replaced
    let between = objects.subrange(first, i);
    assert(display_entries(between) =~= Seq::<crate::accidentals::DisplayEntry>::empty()) by {
        assert(display_entries(Seq::<Object>::empty()) =~= Seq::<crate::accidentals::DisplayEntry>::empty());
        if count == 1 {
            assert(between =~= seq![objects[i - 1]]);
            assert(between.drop_last() =~= Seq::<Object>::empty());
            assert(between.last() == objects[i - 1]);
            assert(display_entries(between) == display_entries(between.drop_last()));
        } else {
            assert(count == 0);
            assert(between =~= Seq::<Object>::empty());
        }
    }
    assert(objects =~= head + between + seq![note] + tail);
    assert(changed =~= head + seq![rest] + tail);
    assert(objects.subrange(0, i) =~= head + between);
    lemma_entries_add(head, between);
    lemma_entries_add(head + between, seq![note]);
    lemma_entries_add(head + between + seq![note], tail);
    lemma_entries_add(head, seq![rest]);
    lemma_entries_add(head + seq![rest], tail);
    lemma_single_entry(note);
    lemma_single_entry(rest);
    let j = display_entries(head).len() as int;
    assert(display_entries(head + between) =~= display_entries(head));
    assert(display_entries(objects) =~= display_entries(head) + seq![display_entry(note)] + display_entries(tail));
    assert(display_entries(changed) =~= display_entries(head) + seq![display_entry(rest)] + display_entries(tail));
    assert(staff_content(changed) =~= staff_content(objects).update(j, display_entry(rest).object));
}


/// Keeping to pitches of other letters: a scan for a note of another letter
/// than `letter` leaves in the history only pitches of other letters.
proof fn lemma_scan_keeps_other_letters(
    history: Seq<Pitch>,
    pitch: Pitch,
    i: int,
    key_accidental: Accidental,
    letter: int,
)
    requires
        forall|m: int| 0 <= m < history.len() ==> letter_of((#[trigger] history[m]).steps_above_c4 as int) != letter,
        letter_of(pitch.steps_above_c4 as int) != letter,
    ensures
        forall|m: int|
            0 <= m < scan(history, pitch, i, key_accidental).1.len() ==> letter_of(
                (#[trigger] scan(history, pitch, i, key_accidental).1[m]).steps_above_c4 as int,
            ) != letter,
    decreases i,
{
    if i <= 0 || i > history.len() {
        assert forall|m: int| 0 <= m < history.push(pitch).len() implies letter_of(
            (#[trigger] history.push(pitch)[m]).steps_above_c4 as int,
        ) != letter by {
            if m < history.len() {
                assert(history.push(pitch)[m] == history[m]);
            }
        }
    } else if letter_of(history[i - 1].steps_above_c4 as int) != letter_of(pitch.steps_above_c4 as int) {
        lemma_scan_keeps_other_letters(history, pitch, i - 1, key_accidental, letter);
    } else if history[i - 1].steps_above_c4 == pitch.steps_above_c4 {
        assert forall|m: int| 0 <= m < history.update(i - 1, pitch).len() implies letter_of(
            (#[trigger] history.update(i - 1, pitch)[m]).steps_above_c4 as int,
        ) != letter by {
            if m != i - 1 {
                assert(history.update(i - 1, pitch)[m] == history[m]);
            }
        }
    } else if history[i - 1].accidental != pitch.accidental {
        assert forall|m: int| 0 <= m < history.push(pitch).len() implies letter_of(
            (#[trigger] history.push(pitch)[m]).steps_above_c4 as int,
        ) != letter by {
            if m < history.len() {
                assert(history.push(pitch)[m] == history[m]);
            }
        }
    } else {
        lemma_scan_keeps_other_letters(history, pitch, i - 1, key_accidental, letter);
    }
}

/// When no note of the entries has the letter `letter`, no pitch shown
/// after them has it either.
proof fn lemma_history_without_letter(entries: Seq<DisplayEntry>, key_accidentals: Seq<Accidental>, letter: int)
    requires
        forall|j: int|
            0 <= j < entries.len() && note_pitch_of((#[trigger] entries[j]).object) is Some ==> letter_of(
                note_pitch_of(entries[j].object)->0.steps_above_c4 as int,
            ) != letter,
    ensures
        forall|m: int|
            0 <= m < history(entries, key_accidentals).len() ==> letter_of(
                (#[trigger] history(entries, key_accidentals)[m]).steps_above_c4 as int,
            ) != letter,
    decreases entries.len(),
{
    if entries.len() > 0 {
        let previous = entries.drop_last();
        assert forall|j: int| 0 <= j < previous.len() && note_pitch_of((#[trigger] previous[j]).object) is Some implies letter_of(
            note_pitch_of(previous[j].object)->0.steps_above_c4 as int,
        ) != letter by {
            assert(previous[j] == entries[j]);
        }
        lemma_history_without_letter(previous, key_accidentals, letter);
        let last = entries[entries.len() - 1];
        if let Some(pitch) = note_pitch_of(last.object) {
            let h = history(previous, key_accidentals);
            lemma_scan_keeps_other_letters(
                h,
                pitch,
                h.len() as int,
                key_accidentals[letter_of(pitch.steps_above_c4 as int)],
                letter,
            );
        }
    }
}

/// A scan that meets no earlier pitch of the note's letter decides by the
/// key signature alone.
proof fn lemma_scan_first_of_letter(history: Seq<Pitch>, pitch: Pitch, i: int, key_accidental: Accidental)
    requires
        0 <= i <= history.len(),
        forall|m: int| 0 <= m < i ==> letter_of((#[trigger] history[m]).steps_above_c4 as int) != letter_of(
            pitch.steps_above_c4 as int,
        ),
    ensures
        scan(history, pitch, i, key_accidental).0 == (key_accidental != pitch.accidental),
    decreases i,
{
    if i > 0 {
        lemma_scan_first_of_letter(history, pitch, i - 1, key_accidental);
    }
}

/// The first note of a letter in a run shows its accidental exactly when
/// that accidental differs from the one the key signature gives the letter:
/// a note that agrees with the key signature needs no sign, one that does
/// not needs it.
pub proof fn law_first_note_of_letter_follows_key(entries: Seq<DisplayEntry>, j: int, key_accidentals: Seq<Accidental>)
    requires
        0 <= j < entries.len(),
        note_pitch_of(entries[j].object) is Some,
        forall|k: int|
            0 <= k < j && note_pitch_of((#[trigger] entries[k]).object) is Some ==> letter_of(
                note_pitch_of(entries[k].object)->0.steps_above_c4 as int,
            ) != letter_of(note_pitch_of(entries[j].object)->0.steps_above_c4 as int),
    ensures
        ({
            let pitch = note_pitch_of(entries[j].object)->0;
            shown_at(entries, j, key_accidentals) == (key_accidentals[letter_of(pitch.steps_above_c4 as int)]
                != pitch.accidental)
        }),
{
    let pitch = note_pitch_of(entries[j].object)->0;
    let letter = letter_of(pitch.steps_above_c4 as int);
    let before = entries.take(j);
    assert forall|k: int| 0 <= k < before.len() && note_pitch_of((#[trigger] before[k]).object) is Some implies letter_of(
        note_pitch_of(before[k].object)->0.steps_above_c4 as int,
    ) != letter by {
        assert(before[k] == entries[k]);
    }
    lemma_history_without_letter(before, key_accidentals, letter);
    let h = history(before, key_accidentals);
    lemma_scan_first_of_letter(h, pitch, h.len() as int, key_accidentals[letter]);
}

/// After a reset from a key signature, the first note of a letter shows an
/// accidental exactly when its accidental is not the one the key signature
/// gives its letter (natural when the key signature names the letter not).
pub proof fn law_reset_first_note_against_key_sig(
    entries: Seq<DisplayEntry>,
    j: int,
    key_sig_accidentals: Seq<KeySigAccidental>,
)
    requires
        displays_ok(entries, Seq::new(7, |letter: int| letter_accidental(key_sig_accidentals, letter))),
        0 <= j < entries.len(),
        note_pitch_of(entries[j].object) is Some,
        forall|k: int|
            0 <= k < j && note_pitch_of((#[trigger] entries[k]).object) is Some ==> letter_of(
                note_pitch_of(entries[k].object)->0.steps_above_c4 as int,
            ) != letter_of(note_pitch_of(entries[j].object)->0.steps_above_c4 as int),
    ensures
        ({
            let pitch = note_pitch_of(entries[j].object)->0;
            entries[j].has_accidental == (letter_accidental(
                key_sig_accidentals,
                letter_of(pitch.steps_above_c4 as int),
            ) != pitch.accidental)
        }),
{
    let key = Seq::new(7, |letter: int| letter_accidental(key_sig_accidentals, letter));
    law_first_note_of_letter_follows_key(entries, j, key);
    let pitch = note_pitch_of(entries[j].object)->0;
    assert(0 <= letter_of(pitch.steps_above_c4 as int) < 7);
}

/// `q` stands at `p` in the pitches shown, and every later pitch of its
/// letter has another step and the same accidental as `q`.
pub open spec fn last_of_letter_at(history: Seq<Pitch>, p: int, q: Pitch) -> bool {
    &&& 0 <= p < history.len()
    &&& history[p] == q
    &&& forall|m: int|
        p < m < history.len() && letter_of((#[trigger] history[m]).steps_above_c4 as int) == letter_of(
            q.steps_above_c4 as int,
        ) ==> history[m].steps_above_c4 != q.steps_above_c4 && history[m].accidental == q.accidental
}

/// A scan records the note's pitch so that only pitches of other steps with
/// its accidental follow it among those of its letter.
proof fn lemma_scan_records_pitch(history: Seq<Pitch>, pitch: Pitch, i: int, key_accidental: Accidental)
    requires
        i <= history.len(),
        forall|m: int|
            0 <= i <= m < history.len() && letter_of((#[trigger] history[m]).steps_above_c4 as int) == letter_of(
                pitch.steps_above_c4 as int,
            ) ==> history[m].steps_above_c4 != pitch.steps_above_c4 && history[m].accidental == pitch.accidental,
    ensures
        exists|p: int| #[trigger] last_of_letter_at(scan(history, pitch, i, key_accidental).1, p, pitch),
    decreases i,
{
    let l = letter_of(pitch.steps_above_c4 as int);
    if i <= 0 || i > history.len() {
        let h = history.push(pitch);
        assert(h[history.len() as int] == pitch);
        assert(last_of_letter_at(h, history.len() as int, pitch));
        assert(scan(history, pitch, i, key_accidental).1 == h);
        assert(last_of_letter_at(scan(history, pitch, i, key_accidental).1, history.len() as int, pitch));
    } else if letter_of(history[i - 1].steps_above_c4 as int) != l {
        lemma_scan_records_pitch(history, pitch, i - 1, key_accidental);
        let p = choose|p: int| #[trigger] last_of_letter_at(scan(history, pitch, i - 1, key_accidental).1, p, pitch);
        assert(last_of_letter_at(scan(history, pitch, i, key_accidental).1, p, pitch));
    } else if history[i - 1].steps_above_c4 == pitch.steps_above_c4 {
        let h = history.update(i - 1, pitch);
        assert forall|m: int|
            i - 1 < m < h.len() && letter_of((#[trigger] h[m]).steps_above_c4 as int) == l implies h[m].steps_above_c4
            != pitch.steps_above_c4 && h[m].accidental == pitch.accidental by {
            assert(h[m] == history[m]);
        }
        assert(last_of_letter_at(h, i - 1, pitch));
        assert(scan(history, pitch, i, key_accidental).1 == h);
        assert(last_of_letter_at(scan(history, pitch, i, key_accidental).1, i - 1, pitch));
    } else if history[i - 1].accidental != pitch.accidental {
        let h = history.push(pitch);
        assert(h[history.len() as int] == pitch);
        assert(last_of_letter_at(h, history.len() as int, pitch));
        assert(scan(history, pitch, i, key_accidental).1 == h);
        assert(last_of_letter_at(scan(history, pitch, i, key_accidental).1, history.len() as int, pitch));
    } else {
        lemma_scan_records_pitch(history, pitch, i - 1, key_accidental);
        let p = choose|p: int| #[trigger] last_of_letter_at(scan(history, pitch, i - 1, key_accidental).1, p, pitch);
        assert(last_of_letter_at(scan(history, pitch, i, key_accidental).1, p, pitch));
    }
}

/// A scan for a note of another letter leaves where a pitch stands as the
/// last of its letter.
proof fn lemma_scan_keeps_last_of_letter(
    history: Seq<Pitch>,
    pitch: Pitch,
    i: int,
    key_accidental: Accidental,
    p: int,
    q: Pitch,
)
    requires
        last_of_letter_at(history, p, q),
        letter_of(pitch.steps_above_c4 as int) != letter_of(q.steps_above_c4 as int),
    ensures
        last_of_letter_at(scan(history, pitch, i, key_accidental).1, p, q),
    decreases i,
{
    let l = letter_of(q.steps_above_c4 as int);
    if i <= 0 || i > history.len() {
        let h = history.push(pitch);
        assert forall|m: int| p < m < h.len() && letter_of((#[trigger] h[m]).steps_above_c4 as int) == l implies h[m].steps_above_c4
            != q.steps_above_c4 && h[m].accidental == q.accidental by {
            if m < history.len() {
                assert(h[m] == history[m]);
            }
        }
    } else if letter_of(history[i - 1].steps_above_c4 as int) != letter_of(pitch.steps_above_c4 as int) {
        lemma_scan_keeps_last_of_letter(history, pitch, i - 1, key_accidental, p, q);
    } else if history[i - 1].steps_above_c4 == pitch.steps_above_c4 {
        let h = history.update(i - 1, pitch);
        assert(i - 1 != p);
        assert forall|m: int| p < m < h.len() && letter_of((#[trigger] h[m]).steps_above_c4 as int) == l implies h[m].steps_above_c4
            != q.steps_above_c4 && h[m].accidental == q.accidental by {
            if m != i - 1 {
                assert(h[m] == history[m]);
            }
        }
    } else if history[i - 1].accidental != pitch.accidental {
        let h = history.push(pitch);
        assert forall|m: int| p < m < h.len() && letter_of((#[trigger] h[m]).steps_above_c4 as int) == l implies h[m].steps_above_c4
            != q.steps_above_c4 && h[m].accidental == q.accidental by {
            if m < history.len() {
                assert(h[m] == history[m]);
            }
        }
    } else {
        lemma_scan_keeps_last_of_letter(history, pitch, i - 1, key_accidental, p, q);
    }
}

/// A note of the step of the last pitch of its letter shows its accidental
/// exactly when the accidentals differ.
proof fn lemma_scan_same_step(history: Seq<Pitch>, pitch: Pitch, i: int, key_accidental: Accidental, p: int, q: Pitch)
    requires
        last_of_letter_at(history, p, q),
        pitch.steps_above_c4 == q.steps_above_c4,
        p < i <= history.len(),
    ensures
        scan(history, pitch, i, key_accidental).0 == (q.accidental != pitch.accidental),
    decreases i,
{
    if i - 1 > p {
        if letter_of(history[i - 1].steps_above_c4 as int) == letter_of(pitch.steps_above_c4 as int) {
            assert(history[i - 1].steps_above_c4 != q.steps_above_c4);
        }
        lemma_scan_same_step(history, pitch, i - 1, key_accidental, p, q);
    }
}

/// After the note at entry `k`, and up to entry `j` with no note of its
/// letter in between, its pitch stands last of its letter among those shown.
proof fn lemma_history_last_of_letter(entries: Seq<DisplayEntry>, key_accidentals: Seq<Accidental>, k: int, j: int)
    requires
        0 <= k < j <= entries.len(),
        note_pitch_of(entries[k].object) is Some,
        forall|m: int|
            k < m < j && note_pitch_of((#[trigger] entries[m]).object) is Some ==> letter_of(
                note_pitch_of(entries[m].object)->0.steps_above_c4 as int,
            ) != letter_of(note_pitch_of(entries[k].object)->0.steps_above_c4 as int),
    ensures
        exists|p: int| #[trigger] last_of_letter_at(history(entries.take(j), key_accidentals), p, note_pitch_of(entries[k].object)->0),
    decreases j,
{
    let q = note_pitch_of(entries[k].object)->0;
    let before = entries.take(j - 1);
    assert(entries.take(j).drop_last() =~= before);
    assert(entries.take(j).last() == entries[j - 1]);
    let h = history(before, key_accidentals);
    if j - 1 == k {
        let key = key_accidentals[letter_of(q.steps_above_c4 as int)];
        lemma_scan_records_pitch(h, q, h.len() as int, key);
        let p = choose|p: int| #[trigger] last_of_letter_at(scan(h, q, h.len() as int, key).1, p, q);
        assert(history(entries.take(j), key_accidentals) == scan(h, q, h.len() as int, key).1);
        assert(last_of_letter_at(history(entries.take(j), key_accidentals), p, q));
    } else {
        lemma_history_last_of_letter(entries, key_accidentals, k, j - 1);
        let p = choose|p: int| #[trigger] last_of_letter_at(h, p, q);
        if let Some(pitch) = note_pitch_of(entries[j - 1].object) {
            lemma_scan_keeps_last_of_letter(h, pitch, h.len() as int, key_accidentals[letter_of(pitch.steps_above_c4 as int)], p, q);
            assert(last_of_letter_at(history(entries.take(j), key_accidentals), p, q));
        } else {
            assert(last_of_letter_at(history(entries.take(j), key_accidentals), p, q));
        }
    }
}

/// A note that repeats the step of the last note of its letter before it
/// shows its accidental exactly when the two notes' accidentals differ,
/// whatever the key signature.
pub proof fn law_repeated_step_shows_change(entries: Seq<DisplayEntry>, k: int, j: int, key_accidentals: Seq<Accidental>)
    requires
        0 <= k < j < entries.len(),
        note_pitch_of(entries[k].object) is Some,
        note_pitch_of(entries[j].object) is Some,
        note_pitch_of(entries[j].object)->0.steps_above_c4 == note_pitch_of(entries[k].object)->0.steps_above_c4,
        forall|m: int|
            k < m < j && note_pitch_of((#[trigger] entries[m]).object) is Some ==> letter_of(
                note_pitch_of(entries[m].object)->0.steps_above_c4 as int,
            ) != letter_of(note_pitch_of(entries[k].object)->0.steps_above_c4 as int),
    ensures
        shown_at(entries, j, key_accidentals) == (note_pitch_of(entries[k].object)->0.accidental != note_pitch_of(
            entries[j].object,
        )->0.accidental),
{
    let q = note_pitch_of(entries[k].object)->0;
    let pitch = note_pitch_of(entries[j].object)->0;
    lemma_history_last_of_letter(entries, key_accidentals, k, j);
    let h = history(entries.take(j), key_accidentals);
    let p = choose|p: int| #[trigger] last_of_letter_at(h, p, q);
    lemma_scan_same_step(h, pitch, h.len() as int, key_accidentals[letter_of(pitch.steps_above_c4 as int)], p, q);
}

/// The search for a step's default accidental, ended by nothing between
/// the key signature at `k` and `end`, stops at that key signature.
proof fn lemma_search_stops_at_key_sig(objects: Seq<Object>, end: int, steps_above_c4: int, k: int)
    requires
        0 <= k < end <= objects.len(),
        objects[k].object_type is KeySig,
        forall|m: int| k < m < end ==> !stops_accidental_search(#[trigger] objects[m], steps_above_c4),
    ensures
        accidental_search_stop(objects, end, steps_above_c4) == k,
    decreases end,
{
    if end - 1 > k {
        lemma_search_stops_at_key_sig(objects, end - 1, steps_above_c4, k);
    }
}

/// The accidental that the first of `accidentals` naming `letter` gives it.
proof fn lemma_first_letter_accidental(accidentals: Seq<KeySigAccidental>, letter: int, i: int)
    requires
        0 <= i < accidentals.len(),
        accidentals[i].letter_name == letter,
        forall|j: int| 0 <= j < i ==> (#[trigger] accidentals[j]).letter_name != letter,
    ensures
        first_letter_accidental(accidentals, letter) == accidentals[i].accidental,
    decreases i,
{
    if i > 0 {
        let rest = accidentals.drop_first();
        assert forall|j: int| 0 <= j < i - 1 implies (#[trigger] rest[j]).letter_name != letter by {
            assert(rest[j] == accidentals[j + 1]);
        }
        assert(accidentals[0].letter_name != letter);
        lemma_first_letter_accidental(rest, letter, i - 1);
    }
}

/// With no accidental naming `letter`, the letter keeps its natural.
proof fn lemma_no_letter_accidental(accidentals: Seq<KeySigAccidental>, letter: int)
    requires
        forall|j: int| 0 <= j < accidentals.len() ==> (#[trigger] accidentals[j]).letter_name != letter,
    ensures
        first_letter_accidental(accidentals, letter) == Accidental::Natural,
    decreases accidentals.len(),
{
    if accidentals.len() > 0 {
        let rest = accidentals.drop_first();
        assert forall|j: int| 0 <= j < rest.len() implies (#[trigger] rest[j]).letter_name != letter by {
            assert(rest[j] == accidentals[j + 1]);
        }
        assert(accidentals[0].letter_name != letter);
        lemma_no_letter_accidental(rest, letter);
    }
}

/// A note entered after a key signature, with no note of its step in
/// between, takes the accidental the key signature gives its letter: that
/// of the first of its accidentals naming the letter, natural when none
/// does.
pub proof fn law_default_accidental_from_key_sig(
    objects: Seq<Object>,
    end: int,
    steps_above_c4: int,
    k: int,
    key_sig: KeySig,
)
    requires
        0 <= k < end <= objects.len(),
        objects[k].object_type == ObjectType::KeySig(key_sig),
        forall|m: int|
            k < m < end ==> !((#[trigger] objects[m]).object_type is KeySig) && !(note_pitch_of(objects[m]) is Some
                && note_pitch_of(objects[m])->0.steps_above_c4 == steps_above_c4),
        steps_above_c4 >= 0,
    ensures
        forall|i: int|
            0 <= i < key_sig.accidentals.len() && (#[trigger] key_sig.accidentals@[i]).letter_name == steps_above_c4 % 7
                && (forall|j: int| 0 <= j < i ==> (#[trigger] key_sig.accidentals@[j]).letter_name != steps_above_c4 % 7)
                ==> spec_default_accidental(objects, end, steps_above_c4) == key_sig.accidentals@[i].accidental,
        (forall|i: int| 0 <= i < key_sig.accidentals.len() ==> (#[trigger] key_sig.accidentals@[i]).letter_name
            != steps_above_c4 % 7) ==> spec_default_accidental(objects, end, steps_above_c4) == Accidental::Natural,
{
    assert forall|m: int| k < m < end implies !stops_accidental_search(#[trigger] objects[m], steps_above_c4) by {}
    lemma_search_stops_at_key_sig(objects, end, steps_above_c4, k);
    let letter = steps_above_c4 % 7;
    assert(crate::staff::truncated_rem7(steps_above_c4) == letter);
    assert forall|i: int|
        0 <= i < key_sig.accidentals.len() && (#[trigger] key_sig.accidentals@[i]).letter_name == letter && (forall|j: int|
            0 <= j < i ==> (#[trigger] key_sig.accidentals@[j]).letter_name != letter) implies spec_default_accidental(
        objects,
        end,
        steps_above_c4,
    ) == key_sig.accidentals@[i].accidental by {
        lemma_first_letter_accidental(key_sig.accidentals@, letter, i);
    }
    if forall|i: int| 0 <= i < key_sig.accidentals.len() ==> (#[trigger] key_sig.accidentals@[i]).letter_name != letter {
        lemma_no_letter_accidental(key_sig.accidentals@, letter);
    }
}

/// A note entered after a note of the same step, with no key signature or
/// note of that step in between, takes that note's accidental.
pub proof fn law_default_accidental_from_same_step(objects: Seq<Object>, end: int, k: int)
    requires
        0 <= k < end <= objects.len(),
        note_pitch_of(objects[k]) is Some,
        forall|m: int|
            k < m < end ==> !((#[trigger] objects[m]).object_type is KeySig) && !(note_pitch_of(objects[m]) is Some
                && note_pitch_of(objects[m])->0.steps_above_c4 == note_pitch_of(objects[k])->0.steps_above_c4),
    ensures
        spec_default_accidental(objects, end, note_pitch_of(objects[k])->0.steps_above_c4 as int)
            == note_pitch_of(objects[k])->0.accidental,
{
    let steps = note_pitch_of(objects[k])->0.steps_above_c4 as int;
    lemma_search_stops_at_note(objects, end, steps, k);
}

/// The search for a step's default accidental, ended by nothing between
/// the note at `k` and `end`, stops at that note.
proof fn lemma_search_stops_at_note(objects: Seq<Object>, end: int, steps_above_c4: int, k: int)
    requires
        0 <= k < end <= objects.len(),
        stops_accidental_search(objects[k], steps_above_c4),
        forall|m: int|
            k < m < end ==> !((#[trigger] objects[m]).object_type is KeySig) && !(note_pitch_of(objects[m]) is Some
                && note_pitch_of(objects[m])->0.steps_above_c4 == steps_above_c4),
    ensures
        accidental_search_stop(objects, end, steps_above_c4) == k,
    decreases end,
{
    if end - 1 > k {
        lemma_search_stops_at_note(objects, end - 1, steps_above_c4, k);
    }
}

/// A deleted note's rest keeps the note's length: the same note value and
/// the same number of dots, with the pitch gone; its address and slice stay.
pub proof fn law_rest_of_note_keeps_length(note: Object)
    requires
        note_pitch_of(note) is Some,
    ensures
        note.object_type matches ObjectType::Duration { log2_duration, augmentation_dot_count, .. } && rest_of_note(
            note,
        ).object_type == (ObjectType::Duration { pitch: None, log2_duration, augmentation_dot_count }),
        rest_of_note(note).address == note.address,
        rest_of_note(note).slice_address == note.slice_address,
{
}

/// Deleting a note leaves, in the staff's content at the note's place, a
/// rest with the note's note value and dots.
pub proof fn law_deleted_note_keeps_length(old_score: Score, new_score: Score, s: int, i: int, count: int)
    requires
        old_score.wf(),
        0 <= s < old_score.staves.len(),
        0 <= i,
        i + 1 < old_score.staves@[s].objects.len(),
        note_pitch_of(old_score.staves@[s].objects@[i]) is Some,
        object_deleted(old_score, new_score, s, i, count),
    ensures
        ({
            let objects = old_score.staves@[s].objects@;
            let p = display_entries(objects.subrange(0, i)).len() as int;
            let content = staff_content(new_score.staves@[s].objects@);
            &&& 0 <= p < content.len()
            &&& objects[i].object_type matches ObjectType::Duration { log2_duration, augmentation_dot_count, .. }
                && content[p].object_type == (ObjectType::Duration { pitch: None, log2_duration, augmentation_dot_count })
        }),
{
    let objects = old_score.staves@[s].objects@;
    law_deleted_note_becomes_rest(old_score, new_score, s, i, count);
    crate::content::lemma_content_split(objects, i);
    let tail = objects.subrange(i, objects.len() as int);
    assert(tail[0] == objects[i]);
    assert(tail =~= seq![objects[i]] + tail.subrange(1, tail.len() as int));
    crate::content::lemma_content_add(seq![objects[i]], tail.subrange(1, tail.len() as int));
    assert(seq![objects[i]].drop_last() =~= Seq::<Object>::empty());
    assert(display_entries(Seq::<Object>::empty()) =~= Seq::<DisplayEntry>::empty());
    assert(staff_content(objects.subrange(0, i)).len() == display_entries(objects.subrange(0, i)).len());
}

/// The pitch, in steps above middle C, of the line a clef of the shape
/// marks without octave transposition: G4 for a G clef, F3 for an F clef,
/// middle C for a C clef.
pub open spec fn clef_line_pitch(shape: ClefShape) -> int {
    match shape {
        ClefShape::G => 4,
        ClefShape::F => -4,
        _ => 0,
    }
}

/// The steps an octave transposition moves a clef's pitches: seven a
/// octave, up for the marks above, down for those below.
pub open spec fn octave_transposition_steps(octave: ClefOctave) -> int {
    match octave {
        ClefOctave::FifteenthAbove => 14,
        ClefOctave::EighthAbove => 7,
        ClefOctave::Untransposed => 0,
        ClefOctave::EighthBelow => -7,
        ClefOctave::FifteenthBelow => -14,
    }
}

/// The pitch on a staff's middle line under a pitched clef is the pitch of
/// the line the clef marks, moved by its octave transposition, less the
/// steps from the middle line up to that line. So an untransposed C clef on
/// the middle line puts middle C there, and a transposed glyph reads seven
/// steps (an octave) per transposition above or below the plain one of its
/// shape. C clefs come plain or an octave below.
pub proof fn law_clef_middle_pitch(shape: ClefShape, octave: ClefOctave, baseline: i8, is_header: bool)
    requires
        shape != ClefShape::Unpitched,
        shape == ClefShape::C ==> octave == ClefOctave::Untransposed || octave == ClefOctave::EighthBelow,
    ensures
        spec_staff_middle_pitch(
            Clef { codepoint: clef_codepoint(shape, octave), steps_of_baseline_above_staff_middle: baseline, is_header },
        ) == clef_line_pitch(shape) + octave_transposition_steps(octave) - baseline,
        spec_staff_middle_pitch(
            Clef { codepoint: clef_codepoint(shape, octave), steps_of_baseline_above_staff_middle: baseline, is_header },
        ) - spec_staff_middle_pitch(
            Clef {
                codepoint: clef_codepoint(shape, ClefOctave::Untransposed),
                steps_of_baseline_above_staff_middle: baseline,
                is_header,
            },
        ) == octave_transposition_steps(octave),
{
}

} // verus!
