use music_notation::editor::{insert_note_at_cursor, Selection};
use music_notation::notation::{selected_clef, ClefOctave, ClefShape};
use music_notation::rhythm::WholeNotes;
use music_notation::spacing::{
    cursor_x, ghost_cursor_address, reset_distance_from_previous_slice, respace_slices, rhythm_advances, rhythmic_gap, LayoutOverflow,
    StaffSpacing,
};
use music_notation::staff::SystemAddress;
use music_notation::staff_creation::add_staff;
use music_notation::system::{Score, Slice};

fn empty_score() -> Score {
    Score { staves: vec![], slices: vec![], slice_indices: vec![], slice_address_free_list: vec![], ghost_cursor: None }
}

/// A treble staff holding two quarter notes: clef, C5, D5, end.
fn two_note_score() -> Score {
    let mut score = empty_score();
    let mut respace = vec![];
    let clef = selected_clef(ClefShape::G, ClefOctave::Untransposed, true);
    assert!(add_staff(&mut respace, &mut score, 0, 5, clef, None, None));
    let staff = &score.staves[0];
    let mut selection = Selection::ActiveCursor {
        address: SystemAddress { staff_index: 0, object_address: staff.objects[staff.objects.len() - 1].address },
        range_floor: 3,
    };
    assert!(insert_note_at_cursor(&mut respace, &mut score, &mut selection, 67, -2, 0));
    assert!(insert_note_at_cursor(&mut respace, &mut score, &mut selection, 68, -2, 0));
    assert_eq!(score.staves[0].objects.len(), 4);
    assert_eq!(score.slices.len(), 4);
    score
}

fn spacing_of(widths: Vec<i32>, origin_offsets: Vec<i32>, leading_space: i32) -> Vec<StaffSpacing> {
    vec![StaffSpacing { widths, origin_offsets, leading_space }]
}

fn all_slice_addresses(score: &Score) -> Vec<usize> {
    score.slices.iter().map(|slice| slice.address).collect()
}

#[test]
fn respacing_sets_slice_and_object_distances() {
    let mut score = two_note_score();
    let spacing = spacing_of(vec![10, 30, 30, 0], vec![0, 0, 0, 0], 5);
    let addresses = all_slice_addresses(&score);
    assert_eq!(respace_slices(&mut score, &addresses, &vec![0, 0, 0, 0], &spacing), Ok(()));
    let distances: Vec<i32> = score.slices.iter().map(|slice| slice.distance_from_previous_slice).collect();
    assert_eq!(distances, vec![5, 10, 30, 30]);
    assert!(score.staves[0].objects.iter().all(|object| object.distance_to_next_slice == 0));
    let xs: Vec<i32> = (0..4)
        .map(|index| cursor_x(&score.slices, &score.slice_indices, &score.staves[0], 100, index).unwrap())
        .collect();
    assert_eq!(xs, vec![105, 115, 145, 175]);
}

#[test]
fn rhythm_floor_widens_a_slice() {
    let mut score = two_note_score();
    let spacing = spacing_of(vec![10, 30, 30, 0], vec![0, 0, 0, 0], 5);
    let addresses = all_slice_addresses(&score);
    assert_eq!(respace_slices(&mut score, &addresses, &vec![0, 0, 70, 0], &spacing), Ok(()));
    let distances: Vec<i32> = score.slices.iter().map(|slice| slice.distance_from_previous_slice).collect();
    assert_eq!(distances, vec![5, 10, 70, 30]);
}

#[test]
fn origin_offsets_shift_objects_from_their_slices() {
    let mut score = two_note_score();
    let spacing = spacing_of(vec![10, 30, 30, 0], vec![0, 4, 4, 0], 5);
    let addresses = all_slice_addresses(&score);
    assert_eq!(respace_slices(&mut score, &addresses, &vec![0, 0, 0, 0], &spacing), Ok(()));
    let distances: Vec<i32> = score.slices.iter().map(|slice| slice.distance_from_previous_slice).collect();
    assert_eq!(distances, vec![5, 14, 30, 26]);
    let object_distances: Vec<i32> = score.staves[0].objects.iter().map(|o| o.distance_to_next_slice).collect();
    assert_eq!(object_distances, vec![0, 4, 4, 0]);
}

#[test]
fn resetting_a_slice_twice_gives_the_same_distance() {
    let mut score = two_note_score();
    let spacing = spacing_of(vec![10, 30, 30, 0], vec![0, 0, 0, 0], 5);
    assert_eq!(reset_distance_from_previous_slice(&mut score, 2, 0, &spacing), Ok(()));
    let first = score.slices[2].distance_from_previous_slice;
    assert_eq!(reset_distance_from_previous_slice(&mut score, 2, 0, &spacing), Ok(()));
    assert_eq!(score.slices[2].distance_from_previous_slice, first);
    assert_eq!(first, 30);
}

#[test]
fn respacing_reports_overflow() {
    let mut score = two_note_score();
    let spacing = spacing_of(vec![i32::MAX, 0, 0, 0], vec![0, 1, 0, 0], 5);
    let addresses = all_slice_addresses(&score);
    assert_eq!(respace_slices(&mut score, &addresses, &vec![0, 0, 0, 0], &spacing), Err(LayoutOverflow));
}

#[test]
fn cursor_x_reports_overflow() {
    let mut score = two_note_score();
    let spacing = spacing_of(vec![10, 30, 30, 0], vec![0, 0, 0, 0], 5);
    let addresses = all_slice_addresses(&score);
    assert_eq!(respace_slices(&mut score, &addresses, &vec![0, 0, 0, 0], &spacing), Ok(()));
    assert_eq!(cursor_x(&score.slices, &score.slice_indices, &score.staves[0], i32::MAX - 20, 3), Err(LayoutOverflow));
}

#[test]
fn ghost_cursor_follows_the_mouse() {
    let mut score = two_note_score();
    let spacing = spacing_of(vec![10, 30, 30, 0], vec![0, 0, 0, 0], 5);
    let addresses = all_slice_addresses(&score);
    assert_eq!(respace_slices(&mut score, &addresses, &vec![0, 0, 0, 0], &spacing), Ok(()));
    let objects = &score.staves[0].objects;
    let first_note = SystemAddress { staff_index: 0, object_address: objects[1].address };
    let second_note = SystemAddress { staff_index: 0, object_address: objects[2].address };
    let end = SystemAddress { staff_index: 0, object_address: objects[3].address };
    let bounds = vec![(100, 200)];
    assert_eq!(ghost_cursor_address(&score, 0, &bounds, 10, 150), Ok(Some(first_note)));
    assert_eq!(ghost_cursor_address(&score, 0, &bounds, 20, 150), Ok(Some(first_note)));
    assert_eq!(ghost_cursor_address(&score, 0, &bounds, 50, 150), Ok(Some(second_note)));
    assert_eq!(ghost_cursor_address(&score, 0, &bounds, 100, 150), Ok(Some(end)));
    assert_eq!(ghost_cursor_address(&score, 0, &bounds, 100, 50), Ok(None));
    assert_eq!(ghost_cursor_address(&score, 0, &bounds, 100, 250), Ok(None));
}

#[test]
fn rhythmic_gap_between_note_slices() {
    let score = two_note_score();
    assert!(rhythmic_gap(&score.slices, 0).is_none());
    assert!(rhythmic_gap(&score.slices, 1).is_none());
    let gap: WholeNotes = rhythmic_gap(&score.slices, 2).unwrap();
    assert_eq!((gap.numer, gap.denom), (vec![1], vec![4]));
    let gap = rhythmic_gap(&score.slices, 3).unwrap();
    assert_eq!((gap.numer, gap.denom), (vec![1], vec![4]));
}

fn positioned_slice(address: usize, position: Option<(u32, u32)>) -> Slice {
    Slice {
        address,
        object_addresses: vec![],
        rhythmic_position: position.map(|(numer, denom)| WholeNotes {
            numer: if numer == 0 { vec![] } else { vec![numer] },
            denom: vec![denom],
        }),
        distance_from_previous_slice: 0,
    }
}

#[test]
fn rhythm_advances_only_forward_past_slices_without_a_position() {
    let slices = vec![
        positioned_slice(0, None),
        positioned_slice(1, Some((1, 4))),
        positioned_slice(2, None),
        positioned_slice(3, Some((1, 2))),
        positioned_slice(4, Some((1, 8))),
    ];
    assert!(rhythm_advances(&slices, 0));
    assert!(rhythm_advances(&slices, 1));
    assert!(rhythm_advances(&slices, 2));
    assert!(rhythm_advances(&slices, 3));
    assert!(!rhythm_advances(&slices, 4));
}
