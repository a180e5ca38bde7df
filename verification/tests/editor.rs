use music_notation::editor::{
    activate_ghost_cursor, cancel_selection, delete_before_cursor, delete_selected_object, insert_clef,
    insert_note_at_cursor, insert_rest_at_cursor, move_cursor_left, move_cursor_right, move_selection_vertically,
    select_object, set_ghost_cursor, Selection,
};
use music_notation::notation::{selected_clef, Accidental, ClefOctave, ClefShape};
use music_notation::signatures::{insert_key_sig, insert_time_sig};
use music_notation::staff::{ObjectType, Staff, SystemAddress};
use music_notation::durations::duration_in_range;
use music_notation::staff_creation::{add_staff, move_staff_scales, remap_staff_scales};
use music_notation::system::Score;

fn empty_score() -> Score {
    Score { staves: vec![], slices: vec![], slice_indices: vec![], slice_address_free_list: vec![], ghost_cursor: None }
}

fn score_with_treble_staff() -> (Score, Vec<usize>) {
    let mut score = empty_score();
    let mut respace = vec![];
    let clef = selected_clef(ClefShape::G, ClefOctave::Untransposed, true);
    assert!(add_staff(&mut respace, &mut score, 0, 5, clef, None, None));
    (score, respace)
}

fn cursor_at_end(score: &Score, staff_index: usize) -> Selection {
    let staff = &score.staves[staff_index];
    Selection::ActiveCursor {
        address: SystemAddress { staff_index, object_address: staff.objects[staff.objects.len() - 1].address },
        range_floor: 3,
    }
}

fn kinds(staff: &Staff) -> Vec<&'static str> {
    staff
        .objects
        .iter()
        .map(|object| match &object.object_type {
            ObjectType::Accidental { .. } => "accidental",
            ObjectType::Barline { .. } => "barline",
            ObjectType::Clef(_) => "clef",
            ObjectType::Duration { pitch: Some(_), .. } => "note",
            ObjectType::Duration { pitch: None, .. } => "rest",
            ObjectType::KeySig(_) => "key",
            ObjectType::Blank => "end",
            ObjectType::TimeSig { .. } => "time",
        })
        .collect()
}

fn check_tables(score: &Score) {
    for staff in &score.staves {
        for (index, object) in staff.objects.iter().enumerate() {
            assert_eq!(staff.object_indices[object.address], index);
            if let Some(slice_address) = object.slice_address {
                let slice = &score.slices[score.slice_indices[slice_address]];
                assert_eq!(slice.address, slice_address);
            }
        }
    }
    for (index, slice) in score.slices.iter().enumerate() {
        assert_eq!(score.slice_indices[slice.address], index);
    }
}

#[test]
fn first_staff_has_a_header_clef_and_an_end() {
    let (score, respace) = score_with_treble_staff();
    assert_eq!(score.staves.len(), 1);
    assert_eq!(kinds(&score.staves[0]), vec!["clef", "end"]);
    assert_eq!(score.slices.len(), 2);
    assert!(score.slices[0].rhythmic_position.is_none());
    assert!(score.slices[1].rhythmic_position.is_some());
    assert_eq!(score.staves[0].vertical_center, 135);
    assert_eq!(score.staves[0].line_count, 5);
    assert!(!respace.is_empty());
    check_tables(&score);
}

#[test]
fn staff_with_key_and_time_signatures() {
    let mut score = empty_score();
    let mut respace = vec![];
    let clef = selected_clef(ClefShape::F, ClefOctave::Untransposed, true);
    assert!(add_staff(&mut respace, &mut score, 0, 5, clef, Some((2, true)), Some((3, 4))));
    assert_eq!(kinds(&score.staves[0]), vec!["clef", "key", "time", "end"]);
    assert_eq!(score.slices.len(), 4);
    match &score.staves[0].objects[1].object_type {
        ObjectType::KeySig(key_sig) => {
            assert_eq!(key_sig.accidentals.len(), 2);
            assert!(key_sig.accidentals.iter().all(|a| a.accidental == Accidental::Flat));
            assert!(key_sig.is_header);
        },
        _ => panic!("expected a key signature"),
    }
    match &score.staves[0].objects[2].object_type {
        ObjectType::TimeSig { numerator, denominator, is_header } => {
            assert_eq!((*numerator, *denominator, *is_header), (3, 4, true));
        },
        _ => panic!("expected a time signature"),
    }
    check_tables(&score);
}

#[test]
fn second_staff_goes_below_the_first() {
    let (mut score, mut respace) = score_with_treble_staff();
    let clef = selected_clef(ClefShape::F, ClefOctave::Untransposed, true);
    assert!(add_staff(&mut respace, &mut score, 0, 5, clef, None, None));
    assert_eq!(score.staves.len(), 2);
    assert_eq!(score.staves[1].vertical_center, 215);
    assert_eq!(kinds(&score.staves[1]), vec!["clef", "end"]);
    assert_eq!(score.slices.len(), 2);
    check_tables(&score);
}

#[test]
fn letter_key_inserts_a_note_at_the_cursor() {
    let (mut score, mut respace) = score_with_treble_staff();
    let mut selection = cursor_at_end(&score, 0);
    assert!(insert_note_at_cursor(&mut respace, &mut score, &mut selection, 67, -2, 0));
    assert_eq!(kinds(&score.staves[0]), vec!["clef", "note", "end"]);
    match &score.staves[0].objects[1].object_type {
        ObjectType::Duration { pitch: Some(note), log2_duration, augmentation_dot_count } => {
            assert_eq!(note.pitch.steps_above_c4, 7);
            assert_eq!(note.pitch.accidental, Accidental::Natural);
            assert_eq!((*log2_duration, *augmentation_dot_count), (-2, 0));
        },
        _ => panic!("expected a note"),
    }
    match selection {
        Selection::ActiveCursor { address, range_floor } => {
            assert_eq!(address.staff_index, 0);
            assert_eq!(range_floor, 4);
        },
        _ => panic!("expected the cursor"),
    }
    assert_eq!(score.slices.len(), 3);
    check_tables(&score);
}

#[test]
fn rest_then_note_then_delete_before_cursor() {
    let (mut score, mut respace) = score_with_treble_staff();
    let mut selection = cursor_at_end(&score, 0);
    assert!(insert_rest_at_cursor(&mut respace, &mut score, &mut selection, -1, 1));
    assert!(insert_note_at_cursor(&mut respace, &mut score, &mut selection, 65, -3, 0));
    assert_eq!(kinds(&score.staves[0]), vec!["clef", "rest", "note", "end"]);
    assert_eq!(score.slices.len(), 4);
    check_tables(&score);
    assert!(delete_before_cursor(&mut respace, &mut score, &mut selection));
    let remaining = kinds(&score.staves[0]);
    assert_eq!(remaining.iter().filter(|kind| **kind == "note").count(), 0);
    check_tables(&score);
}

#[test]
fn cursor_moves_left_and_right_over_notes() {
    let (mut score, mut respace) = score_with_treble_staff();
    let mut selection = cursor_at_end(&score, 0);
    assert!(insert_note_at_cursor(&mut respace, &mut score, &mut selection, 67, -2, 0));
    assert!(insert_note_at_cursor(&mut respace, &mut score, &mut selection, 69, -2, 0));
    let end = score.staves[0].objects[3].address;
    let first_note = score.staves[0].objects[1].address;
    let second_note = score.staves[0].objects[2].address;
    assert!(move_cursor_left(&score, &mut selection));
    assert!(matches!(selection, Selection::ActiveCursor { address, .. } if address.object_address == second_note));
    assert!(move_cursor_left(&score, &mut selection));
    assert!(matches!(selection, Selection::ActiveCursor { address, .. } if address.object_address == first_note));
    assert!(!move_cursor_left(&score, &mut selection));
    assert!(move_cursor_right(&score, &mut selection));
    assert!(matches!(selection, Selection::ActiveCursor { address, .. } if address.object_address == second_note));
    assert!(move_cursor_right(&score, &mut selection));
    assert!(matches!(selection, Selection::ActiveCursor { address, .. } if address.object_address == end));
    assert!(move_cursor_right(&score, &mut selection));
    assert!(matches!(selection, Selection::ActiveCursor { address, .. } if address.object_address == end));
    let mut nothing = Selection::Nothing;
    assert!(!move_cursor_right(&score, &mut nothing));
    assert!(matches!(nothing, Selection::Nothing));
}

#[test]
fn selecting_a_note_and_raising_it() {
    let (mut score, mut respace) = score_with_treble_staff();
    let mut selection = cursor_at_end(&score, 0);
    assert!(insert_note_at_cursor(&mut respace, &mut score, &mut selection, 67, -2, 0));
    let note = SystemAddress { staff_index: 0, object_address: score.staves[0].objects[1].address };
    select_object(&mut score, &mut selection, note);
    assert!(score.staves[0].objects[1].is_selected);
    assert!(move_selection_vertically(&mut respace, &mut score, &mut selection, true, true));
    let note_index = score.staves[0].object_indices[note.object_address];
    match &score.staves[0].objects[note_index].object_type {
        ObjectType::Duration { pitch: Some(pitch), .. } => {
            assert_eq!(pitch.pitch.steps_above_c4, 7);
            assert_eq!(pitch.pitch.accidental, Accidental::Sharp);
        },
        _ => panic!("expected a note"),
    }
    assert!(move_selection_vertically(&mut respace, &mut score, &mut selection, true, false));
    let note_index = score.staves[0].object_indices[note.object_address];
    match &score.staves[0].objects[note_index].object_type {
        ObjectType::Duration { pitch: Some(pitch), .. } => assert_eq!(pitch.pitch.steps_above_c4, 8),
        _ => panic!("expected a note"),
    }
    check_tables(&score);
    assert!(cancel_selection(&mut score, &mut selection));
    assert!(matches!(selection, Selection::Nothing));
    assert!(score.staves[0].objects.iter().all(|object| !object.is_selected));
}

#[test]
fn deleting_a_selected_note_leaves_a_rest() {
    let (mut score, mut respace) = score_with_treble_staff();
    let mut selection = cursor_at_end(&score, 0);
    assert!(insert_note_at_cursor(&mut respace, &mut score, &mut selection, 67, -2, 0));
    let note = SystemAddress { staff_index: 0, object_address: score.staves[0].objects[1].address };
    select_object(&mut score, &mut selection, note);
    assert!(delete_selected_object(&mut respace, &mut score, &mut selection));
    assert_eq!(kinds(&score.staves[0]), vec!["clef", "rest", "end"]);
    check_tables(&score);
}

#[test]
fn ghost_cursor_becomes_the_cursor() {
    let (mut score, _) = score_with_treble_staff();
    let end = SystemAddress { staff_index: 0, object_address: score.staves[0].objects[1].address };
    assert!(set_ghost_cursor(&mut score, Some(end)));
    assert!(!set_ghost_cursor(&mut score, Some(end)));
    let mut selection = Selection::Nothing;
    assert!(activate_ghost_cursor(&mut score, &mut selection));
    assert!(score.ghost_cursor.is_none());
    assert!(matches!(selection, Selection::ActiveCursor { address, range_floor: 3 } if address == end));
    assert!(!activate_ghost_cursor(&mut score, &mut selection));
}

#[test]
fn clef_key_and_time_signatures_at_the_cursor() {
    let (mut score, mut respace) = score_with_treble_staff();
    let mut selection = cursor_at_end(&score, 0);
    assert!(insert_note_at_cursor(&mut respace, &mut score, &mut selection, 67, -2, 0));
    let bass = selected_clef(ClefShape::F, ClefOctave::Untransposed, false);
    assert!(insert_clef(&mut respace, &mut score, &mut selection, bass));
    assert!(kinds(&score.staves[0]).contains(&"clef"));
    assert_eq!(kinds(&score.staves[0]).iter().filter(|kind| **kind == "clef").count(), 2);
    check_tables(&score);
    let mut selection = cursor_at_end(&score, 0);
    assert!(insert_key_sig(&mut respace, &mut score, &mut selection, 1, false));
    assert!(kinds(&score.staves[0]).contains(&"key"));
    check_tables(&score);
    let mut selection = cursor_at_end(&score, 0);
    assert!(insert_time_sig(&mut respace, &mut score, &mut selection, 6, 8));
    assert!(kinds(&score.staves[0]).contains(&"time"));
    check_tables(&score);
}

#[test]
fn header_time_signature_through_the_selected_clef() {
    let (mut score, mut respace) = score_with_treble_staff();
    let clef = SystemAddress { staff_index: 0, object_address: score.staves[0].objects[0].address };
    let mut selection = Selection::Nothing;
    select_object(&mut score, &mut selection, clef);
    assert!(insert_time_sig(&mut respace, &mut score, &mut selection, 3, 4));
    assert_eq!(kinds(&score.staves[0]), vec!["clef", "time", "end"]);
    match &score.staves[0].objects[1].object_type {
        ObjectType::TimeSig { numerator, denominator, is_header } => {
            assert_eq!((*numerator, *denominator, *is_header), (3, 4, true));
        },
        _ => panic!("expected a time signature"),
    }
    assert!(matches!(selection, Selection::ActiveCursor { .. }));
    assert!(score.staves[0].objects.iter().all(|object| !object.is_selected));
    check_tables(&score);
}

#[test]
fn nothing_selected_inserts_nothing() {
    let (mut score, mut respace) = score_with_treble_staff();
    let mut selection = Selection::Nothing;
    let before = respace.clone();
    assert!(!delete_before_cursor(&mut respace, &mut score, &mut selection));
    assert!(!insert_rest_at_cursor(&mut respace, &mut score, &mut selection, -2, 0));
    assert_eq!(respace, before);
    assert!(!move_selection_vertically(&mut respace, &mut score, &mut selection, true, false));
    assert_eq!(kinds(&score.staves[0]), vec!["clef", "end"]);
}

#[test]
fn a_selected_clef_moves_within_the_staff() {
    let (mut score, mut respace) = score_with_treble_staff();
    let clef = SystemAddress { staff_index: 0, object_address: score.staves[0].objects[0].address };
    let mut selection = Selection::Nothing;
    select_object(&mut score, &mut selection, clef);
    assert!(move_selection_vertically(&mut respace, &mut score, &mut selection, true, false));
    match &score.staves[0].objects[0].object_type {
        ObjectType::Clef(clef) => assert_eq!(clef.steps_of_baseline_above_staff_middle, -1),
        _ => panic!("expected the clef"),
    }
    for _ in 0..10 {
        move_selection_vertically(&mut respace, &mut score, &mut selection, true, false);
    }
    match &score.staves[0].objects[0].object_type {
        ObjectType::Clef(clef) => assert_eq!(clef.steps_of_baseline_above_staff_middle, 4),
        _ => panic!("expected the clef"),
    }
}

#[test]
fn natural_key_signature_needs_an_earlier_key() {
    let (mut score, mut respace) = score_with_treble_staff();
    let mut selection = cursor_at_end(&score, 0);
    assert!(!insert_key_sig(&mut respace, &mut score, &mut selection, 0, false));
    assert!(insert_key_sig(&mut respace, &mut score, &mut selection, 3, true));
    let mut selection = cursor_at_end(&score, 0);
    assert!(insert_key_sig(&mut respace, &mut score, &mut selection, 0, false));
    let key_sigs: Vec<usize> = score.staves[0]
        .objects
        .iter()
        .filter_map(|object| match &object.object_type {
            ObjectType::KeySig(key_sig) => Some(key_sig.accidentals.len()),
            _ => None,
        })
        .collect();
    assert_eq!(key_sigs, vec![3, 3]);
    check_tables(&score);
}

#[test]
fn header_key_signature_after_the_selected_clef_then_replaced() {
    let (mut score, mut respace) = score_with_treble_staff();
    let clef = SystemAddress { staff_index: 0, object_address: score.staves[0].objects[0].address };
    let mut selection = Selection::Nothing;
    select_object(&mut score, &mut selection, clef);
    assert!(insert_key_sig(&mut respace, &mut score, &mut selection, 3, true));
    assert_eq!(kinds(&score.staves[0]), vec!["clef", "key", "end"]);
    match &score.staves[0].objects[1].object_type {
        ObjectType::KeySig(key_sig) => {
            let letters: Vec<(u8, Accidental)> =
                key_sig.accidentals.iter().map(|accidental| (accidental.letter_name, accidental.accidental)).collect();
            assert_eq!(letters, vec![(6, Accidental::Flat), (2, Accidental::Flat), (5, Accidental::Flat)]);
            assert!(key_sig.is_header);
        },
        _ => panic!("expected a key signature"),
    }
    assert!(matches!(selection, Selection::ActiveCursor { .. }));
    let mut selection = Selection::Nothing;
    select_object(&mut score, &mut selection, clef);
    assert!(insert_key_sig(&mut respace, &mut score, &mut selection, 2, false));
    assert_eq!(kinds(&score.staves[0]), vec!["clef", "key", "end"]);
    match &score.staves[0].objects[1].object_type {
        ObjectType::KeySig(key_sig) => assert_eq!(key_sig.accidentals.len(), 2),
        _ => panic!("expected a key signature"),
    }
    check_tables(&score);
}

#[test]
fn key_signature_at_the_cursor_goes_before_its_object() {
    let (mut score, mut respace) = score_with_treble_staff();
    let mut selection = cursor_at_end(&score, 0);
    assert!(insert_rest_at_cursor(&mut respace, &mut score, &mut selection, -2, 0));
    let rest = SystemAddress { staff_index: 0, object_address: score.staves[0].objects[1].address };
    let mut selection = Selection::ActiveCursor { address: rest, range_floor: 3 };
    assert!(insert_key_sig(&mut respace, &mut score, &mut selection, 1, false));
    assert_eq!(kinds(&score.staves[0]), vec!["clef", "key", "rest", "end"]);
    match &score.staves[0].objects[1].object_type {
        ObjectType::KeySig(key_sig) => {
            assert_eq!(key_sig.accidentals.len(), 1);
            assert_eq!(key_sig.accidentals[0].accidental, Accidental::Sharp);
            assert!(!key_sig.is_header);
        },
        _ => panic!("expected a key signature"),
    }
    match selection {
        Selection::ActiveCursor { address, .. } => assert_eq!(address, rest),
        _ => panic!("expected the cursor"),
    }
    check_tables(&score);
}

fn key_sig_letters(staff: &Staff) -> Vec<Vec<(u8, Accidental)>> {
    staff
        .objects
        .iter()
        .filter_map(|object| match &object.object_type {
            ObjectType::KeySig(key_sig) => {
                Some(key_sig.accidentals.iter().map(|accidental| (accidental.letter_name, accidental.accidental)).collect())
            },
            _ => None,
        })
        .collect()
}

fn staff_with_flats_then_naturals() -> (Score, Vec<usize>) {
    let (mut score, mut respace) = score_with_treble_staff();
    let mut selection = cursor_at_end(&score, 0);
    assert!(insert_rest_at_cursor(&mut respace, &mut score, &mut selection, -2, 0));
    let mut selection = cursor_at_end(&score, 0);
    assert!(insert_key_sig(&mut respace, &mut score, &mut selection, 3, true));
    let mut selection = cursor_at_end(&score, 0);
    assert!(insert_key_sig(&mut respace, &mut score, &mut selection, 0, false));
    assert_eq!(kinds(&score.staves[0]), vec!["clef", "rest", "key", "key", "end"]);
    (score, respace)
}

#[test]
fn a_following_cancelling_key_signature_takes_the_new_letters() {
    let (mut score, mut respace) = staff_with_flats_then_naturals();
    let naturals = SystemAddress { staff_index: 0, object_address: score.staves[0].objects[3].address };
    let mut selection = Selection::ActiveCursor { address: naturals, range_floor: 3 };
    assert!(insert_key_sig(&mut respace, &mut score, &mut selection, 2, false));
    assert_eq!(kinds(&score.staves[0]), vec!["clef", "rest", "key", "key", "key", "end"]);
    assert_eq!(
        key_sig_letters(&score.staves[0]),
        vec![
            vec![(6, Accidental::Flat), (2, Accidental::Flat), (5, Accidental::Flat)],
            vec![(3, Accidental::Sharp), (0, Accidental::Sharp)],
            vec![(3, Accidental::Natural), (0, Accidental::Natural)],
        ]
    );
    check_tables(&score);
}

#[test]
fn a_following_cancelling_key_signature_goes_after_a_cancelling_one() {
    let (mut score, mut respace) = staff_with_flats_then_naturals();
    let naturals = SystemAddress { staff_index: 0, object_address: score.staves[0].objects[3].address };
    let mut selection = Selection::ActiveCursor { address: naturals, range_floor: 3 };
    assert!(insert_key_sig(&mut respace, &mut score, &mut selection, 0, false));
    assert_eq!(kinds(&score.staves[0]), vec!["clef", "rest", "key", "key", "end"]);
    assert_eq!(
        key_sig_letters(&score.staves[0]),
        vec![
            vec![(6, Accidental::Flat), (2, Accidental::Flat), (5, Accidental::Flat)],
            vec![(6, Accidental::Natural), (2, Accidental::Natural), (5, Accidental::Natural)],
        ]
    );
    check_tables(&score);
}

fn small_value(digits: &Vec<u32>) -> u64 {
    digits.iter().rev().fold(0u64, |value, digit| value * (1u64 << 32) + *digit as u64)
}

fn slice_position_of(score: &Score, staff_index: usize, object_address: usize) -> (u64, u64) {
    let staff = &score.staves[staff_index];
    let object = &staff.objects[staff.object_indices[object_address]];
    let slice = &score.slices[score.slice_indices[object.slice_address.unwrap()]];
    let position = slice.rhythmic_position.as_ref().unwrap();
    (small_value(&position.numer), small_value(&position.denom))
}

#[test]
fn a_longer_duration_moves_the_end_and_the_cursor_past_it() {
    let (mut score, mut respace) = score_with_treble_staff();
    let mut selection = cursor_at_end(&score, 0);
    assert!(insert_rest_at_cursor(&mut respace, &mut score, &mut selection, -2, 0));
    let end = score.staves[0].objects[2].address;
    assert_eq!(slice_position_of(&score, 0, end), (1, 4));
    let rest = SystemAddress { staff_index: 0, object_address: score.staves[0].objects[1].address };
    let mut selection = Selection::ActiveCursor { address: rest, range_floor: 3 };
    assert!(insert_rest_at_cursor(&mut respace, &mut score, &mut selection, -1, 0));
    assert_eq!(kinds(&score.staves[0]), vec!["clef", "rest", "end"]);
    let new_end = score.staves[0].objects[2].address;
    let (numer, denom) = slice_position_of(&score, 0, new_end);
    assert_eq!(numer * 2, denom);
    match selection {
        Selection::ActiveCursor { address, .. } => assert_eq!(address.object_address, new_end),
        _ => panic!("expected the cursor"),
    }
    check_tables(&score);
}

fn rest_exponents_of(staff: &Staff) -> Vec<i8> {
    staff
        .objects
        .iter()
        .filter_map(|object| match &object.object_type {
            ObjectType::Duration { pitch: None, log2_duration, .. } => Some(*log2_duration),
            _ => None,
        })
        .collect()
}

#[test]
fn rests_fill_the_time_after_a_shorter_duration_longest_first() {
    let (mut score, mut respace) = score_with_treble_staff();
    let mut selection = cursor_at_end(&score, 0);
    assert!(insert_rest_at_cursor(&mut respace, &mut score, &mut selection, 0, 0));
    let whole_rest = SystemAddress { staff_index: 0, object_address: score.staves[0].objects[1].address };
    let end = score.staves[0].objects[2].address;
    let mut selection = Selection::ActiveCursor { address: whole_rest, range_floor: 3 };
    assert!(insert_rest_at_cursor(&mut respace, &mut score, &mut selection, -3, 0));
    assert_eq!(kinds(&score.staves[0]), vec!["clef", "rest", "rest", "rest", "rest", "end"]);
    assert_eq!(rest_exponents_of(&score.staves[0]), vec![-3, -1, -2, -3]);
    assert_eq!(score.staves[0].objects[5].address, end);
    assert_eq!(slice_position_of(&score, 0, end), (1, 1));
    match selection {
        Selection::ActiveCursor { address, .. } => assert_eq!(address.object_address, end),
        _ => panic!("expected the cursor"),
    }
    check_tables(&score);
}

#[test]
fn header_time_signatures_of_two_staves_share_a_slice() {
    let (mut score, mut respace) = score_with_treble_staff();
    let clef = selected_clef(ClefShape::F, ClefOctave::Untransposed, true);
    assert!(add_staff(&mut respace, &mut score, 0, 5, clef, None, None));
    assert_eq!(score.slices.len(), 2);
    for staff_index in 0..2 {
        let clef = SystemAddress { staff_index, object_address: score.staves[staff_index].objects[0].address };
        let mut selection = Selection::Nothing;
        select_object(&mut score, &mut selection, clef);
        assert!(insert_time_sig(&mut respace, &mut score, &mut selection, 3, 4));
    }
    assert_eq!(kinds(&score.staves[0]), vec!["clef", "time", "end"]);
    assert_eq!(kinds(&score.staves[1]), vec!["clef", "time", "end"]);
    assert_eq!(score.slices.len(), 3);
    assert_eq!(score.staves[0].objects[1].slice_address, score.staves[1].objects[1].slice_address);
    check_tables(&score);
}

#[test]
fn no_ghost_cursor_activates_nothing() {
    let (mut score, _respace) = score_with_treble_staff();
    let mut selection = cursor_at_end(&score, 0);
    assert!(!activate_ghost_cursor(&mut score, &mut selection));
    match selection {
        Selection::ActiveCursor { address, range_floor } => {
            assert_eq!(address.object_address, score.staves[0].objects[1].address);
            assert_eq!(range_floor, 3);
        },
        _ => panic!("expected the cursor"),
    }
}

fn score_with_scales(scales: &[usize]) -> (Score, Vec<usize>) {
    let mut score = empty_score();
    let mut respace = vec![];
    let clef = selected_clef(ClefShape::G, ClefOctave::Untransposed, true);
    for scale in scales {
        assert!(add_staff(&mut respace, &mut score, *scale, 5, clef, None, None));
    }
    (score, respace)
}

fn scales_of(score: &Score) -> Vec<usize> {
    score.staves.iter().map(|staff| staff.scale_index).collect()
}

#[test]
fn removing_a_scale_remaps_every_staff() {
    let (mut score, _) = score_with_scales(&[0, 1, 2, 3]);
    let before = score.staves[2].objects.len();
    remap_staff_scales(&mut score, 1, 0);
    assert_eq!(scales_of(&score), vec![0, 0, 1, 2]);
    assert_eq!(score.staves[2].objects.len(), before);
    check_tables(&score);
}

#[test]
fn moving_a_scale_down_the_list_shifts_those_between() {
    let (mut score, _) = score_with_scales(&[0, 1, 2, 3]);
    move_staff_scales(&mut score, 0, 2);
    assert_eq!(scales_of(&score), vec![2, 0, 1, 3]);
    move_staff_scales(&mut score, 3, 1);
    assert_eq!(scales_of(&score), vec![3, 0, 2, 1]);
}

#[test]
fn durations_in_range_are_those_whose_length_fits() {
    assert!(duration_in_range(-2, 0));
    assert!(duration_in_range(1, 10));
    assert!(duration_in_range(-10, 20));
    assert!(!duration_in_range(-10, 21));
    assert!(!duration_in_range(-32, 0));
    assert!(!duration_in_range(32, 0));
}

#[test]
fn a_new_staff_ends_on_a_cursor_position_at_time_zero() {
    let (score, _) = score_with_treble_staff();
    let staff = &score.staves[0];
    let end = &staff.objects[staff.objects.len() - 1];
    assert!(matches!(end.object_type, ObjectType::Blank));
    assert!(end.is_valid_cursor_position);
    let slice = &score.slices[score.slice_indices[end.slice_address.unwrap()]];
    let position = slice.rhythmic_position.as_ref().unwrap();
    assert!(position.numer.iter().all(|digit| *digit == 0));
}

#[test]
fn a_rest_key_writes_a_rest_and_moves_the_cursor_past_it() {
    let (mut score, mut respace) = score_with_treble_staff();
    let mut selection = cursor_at_end(&score, 0);
    let end = score.staves[0].objects[1].address;
    assert!(insert_rest_at_cursor(&mut respace, &mut score, &mut selection, -3, 1));
    assert_eq!(kinds(&score.staves[0]), vec!["clef", "rest", "end"]);
    assert_eq!(score.staves[0].object_indices[end], 1);
    match &score.staves[0].objects[1].object_type {
        ObjectType::Duration { pitch: None, log2_duration, augmentation_dot_count } => {
            assert_eq!((*log2_duration, *augmentation_dot_count), (-3, 1));
        },
        _ => panic!("expected a rest"),
    }
    match selection {
        Selection::ActiveCursor { address, range_floor } => {
            assert_eq!(address.staff_index, 0);
            assert_eq!(address.object_address, score.staves[0].objects[2].address);
            assert_eq!(range_floor, 3);
        },
        _ => panic!("expected a cursor"),
    }
    check_tables(&score);
}
