use music_notation::accidentals::reset_accidental_displays;
use music_notation::notation::{Accidental, Pitch};
use music_notation::rhythm::WholeNotes;
use music_notation::staff::{NotePitch, Object, ObjectType, Staff, SystemAddress};
use music_notation::system::{Score, Slice};

fn sharp_c4(address: usize, slice_address: usize) -> Object {
    Object {
        object_type: ObjectType::Duration {
            pitch: Some(NotePitch {
                accidental_address: None,
                pitch: Pitch { accidental: Accidental::Sharp, steps_above_c4: 0 },
            }),
            log2_duration: -2,
            augmentation_dot_count: 0,
        },
        address,
        slice_address: Some(slice_address),
        distance_to_next_slice: 0,
        is_selected: false,
        is_valid_cursor_position: true,
    }
}

fn slice(address: usize, numer: u32) -> Slice {
    Slice {
        address,
        object_addresses: vec![SystemAddress { staff_index: 0, object_address: address }],
        rhythmic_position: Some(WholeNotes { numer: if numer == 0 { vec![] } else { vec![numer] }, denom: vec![4] }),
        distance_from_previous_slice: 0,
    }
}

#[test]
fn a_sharp_shows_once_per_run_and_takes_the_next_address() {
    let mut score = Score {
        staves: vec![Staff {
            scale_index: 0,
            objects: vec![sharp_c4(0, 0), sharp_c4(1, 1)],
            object_indices: vec![0, 1],
            object_address_free_list: vec![],
            vertical_center: 135,
            line_count: 5,
        }],
        slices: vec![slice(0, 0), slice(1, 1)],
        slice_indices: vec![0, 1],
        slice_address_free_list: vec![],
        ghost_cursor: None,
    };
    let mut respace = vec![];
    let mut object_index = 0;
    let found = reset_accidental_displays(&mut respace, &mut score, 0, &mut object_index, &[Accidental::Natural; 7]);
    assert!(!found);
    assert_eq!(object_index, 3);
    let objects = &score.staves[0].objects;
    assert_eq!(objects.len(), 3);
    assert!(matches!(objects[0].object_type, ObjectType::Accidental { note_address: 0 }));
    assert_eq!(objects[0].address, 2);
    assert!(objects[0].is_valid_cursor_position);
    match &objects[1].object_type {
        ObjectType::Duration { pitch: Some(note), .. } => assert_eq!(note.accidental_address, Some(2)),
        _ => panic!("expected the first note"),
    }
    assert!(!objects[1].is_valid_cursor_position);
    match &objects[2].object_type {
        ObjectType::Duration { pitch: Some(note), .. } => assert_eq!(note.accidental_address, None),
        _ => panic!("expected the second note"),
    }
    assert_eq!(score.staves[0].object_indices, vec![1, 2, 0]);
    assert_eq!(respace, vec![0]);
}
