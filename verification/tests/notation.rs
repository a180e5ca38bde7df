use music_notation::notation::{
    accidental_codepoint, bottom_line_pitch, clamped_subtract, duration_codepoint, duration_name,
    key_sig_from_accidental_count, letter_name_accidentals_from_key_sig, lowered_accidental, max_augmentation_dots,
    octave_choices_enabled, raised_accidental, scale_index_after_move, scale_index_after_removal, selected_clef,
    staff_middle_pitch, steps_above_c4_of_letter_key, time_sig_component_string, time_sig_denominator,
    time_sig_denominator_text, Accidental, ClefOctave, ClefShape,
};
use music_notation::shared::{unterminated_wide_char_string, wide_char_string};

fn utf16(text: &str) -> Vec<u16> {
    text.encode_utf16().collect()
}

#[test]
fn wide_char_string_is_terminated() {
    assert_eq!(wide_char_string("ab"), vec![97, 98, 0]);
    assert_eq!(wide_char_string(""), vec![0]);
}

#[test]
fn unterminated_wide_char_string_encodes_utf16() {
    assert_eq!(unterminated_wide_char_string("ab"), vec![97, 98]);
    assert_eq!(unterminated_wide_char_string("\u{e9}"), vec![0xe9]);
    assert_eq!(unterminated_wide_char_string("\u{1d11e}"), vec![0xd834, 0xdd1e]);
}

#[test]
fn accidental_glyphs() {
    assert_eq!(accidental_codepoint(&Accidental::DoubleFlat), 0xe264);
    assert_eq!(accidental_codepoint(&Accidental::Flat), 0xe260);
    assert_eq!(accidental_codepoint(&Accidental::Natural), 0xe261);
    assert_eq!(accidental_codepoint(&Accidental::Sharp), 0xe262);
    assert_eq!(accidental_codepoint(&Accidental::DoubleSharp), 0xe263);
}

#[test]
fn raising_and_lowering_accidentals() {
    assert_eq!(raised_accidental(Accidental::Natural), Some(Accidental::Sharp));
    assert_eq!(raised_accidental(Accidental::DoubleSharp), None);
    assert_eq!(lowered_accidental(Accidental::Natural), Some(Accidental::Flat));
    assert_eq!(lowered_accidental(Accidental::DoubleFlat), None);
}

#[test]
fn raising_then_lowering_gives_the_accidental_back() {
    let all = [
        Accidental::DoubleFlat,
        Accidental::Flat,
        Accidental::Natural,
        Accidental::Sharp,
        Accidental::DoubleSharp,
    ];
    for accidental in all {
        if let Some(raised) = raised_accidental(accidental) {
            assert_eq!(lowered_accidental(raised), Some(accidental));
        }
        if let Some(lowered) = lowered_accidental(accidental) {
            assert_eq!(raised_accidental(lowered), Some(accidental));
        }
    }
}

#[test]
fn clamped_subtract_stops_at_the_least_i8() {
    assert_eq!(clamped_subtract(10, 3), 7);
    assert_eq!(clamped_subtract(-120, 20), -128);
    assert_eq!(clamped_subtract(-128, 0), -128);
}

#[test]
fn bottom_line_of_a_five_line_treble_staff() {
    let clef = selected_clef(ClefShape::G, ClefOctave::Untransposed, true);
    let middle = staff_middle_pitch(&clef);
    assert_eq!(middle, 6);
    assert_eq!(bottom_line_pitch(5, middle), 2);
}

#[test]
fn selected_clefs() {
    let treble = selected_clef(ClefShape::G, ClefOctave::Untransposed, true);
    assert_eq!(treble.codepoint, 0xe050);
    assert_eq!(treble.steps_of_baseline_above_staff_middle, -2);
    assert!(treble.is_header);
    let bass = selected_clef(ClefShape::F, ClefOctave::Untransposed, false);
    assert_eq!(bass.codepoint, 0xe062);
    assert_eq!(bass.steps_of_baseline_above_staff_middle, 2);
    assert_eq!(staff_middle_pitch(&bass), -6);
    let tenor_octave = selected_clef(ClefShape::C, ClefOctave::EighthBelow, false);
    assert_eq!(tenor_octave.codepoint, 0xe05d);
    assert_eq!(staff_middle_pitch(&tenor_octave), -7);
    let unpitched = selected_clef(ClefShape::Unpitched, ClefOctave::FifteenthAbove, false);
    assert_eq!(unpitched.codepoint, 0xe069);
    let treble_8va = selected_clef(ClefShape::G, ClefOctave::EighthAbove, false);
    assert_eq!(staff_middle_pitch(&treble_8va), 13);
}

#[test]
fn octave_choices_by_shape() {
    assert_eq!(octave_choices_enabled(ClefShape::C), [false, false, true, true, false]);
    assert_eq!(octave_choices_enabled(ClefShape::Unpitched), [false; 5]);
    assert_eq!(octave_choices_enabled(ClefShape::G), [true; 5]);
}

#[test]
fn duration_glyphs() {
    assert_eq!(duration_codepoint(true, 1), 0xe0a0);
    assert_eq!(duration_codepoint(true, 0), 0xe0a2);
    assert_eq!(duration_codepoint(true, -1), 0xe0a3);
    assert_eq!(duration_codepoint(true, -4), 0xe0a4);
    assert_eq!(duration_codepoint(false, 0), 0xe4e3);
    assert_eq!(duration_codepoint(false, -2), 0xe4e5);
}

#[test]
fn time_signature_digits() {
    assert_eq!(time_sig_component_string(34), vec![0xe083, 0xe084]);
    assert_eq!(time_sig_component_string(7), vec![0xe087]);
    assert_eq!(time_sig_component_string(120), vec![0xe081, 0xe082, 0xe080]);
    assert_eq!(time_sig_component_string(0), Vec::<u16>::new());
}

#[test]
fn time_signature_digits_read_back() {
    for component in [1u16, 9, 10, 345, 65535] {
        let digits = time_sig_component_string(component);
        let mut value: u32 = 0;
        for digit in digits {
            assert!((0xe080..=0xe089).contains(&digit));
            value = value * 10 + (digit - 0xe080) as u32;
        }
        assert_eq!(value, component as u32);
    }
}

#[test]
fn duration_names() {
    let mut quarter = utf16("quarter");
    quarter.push(0);
    assert_eq!(duration_name(-2), quarter);
    let mut whole = utf16("whole");
    whole.push(0);
    assert_eq!(duration_name(0), whole);
    let mut double = utf16("double whole");
    double.push(0);
    assert_eq!(duration_name(3), double);
    let mut eighth = utf16("8th");
    eighth.push(0);
    assert_eq!(duration_name(-3), eighth);
    let mut thirty_second = utf16("32nd");
    thirty_second.push(0);
    assert_eq!(duration_name(-5), thirty_second);
    let mut shortest = utf16("1024th");
    shortest.push(0);
    assert_eq!(duration_name(-12), shortest);
}

#[test]
fn augmentation_dot_limits() {
    assert_eq!(max_augmentation_dots(-2), 8);
    assert_eq!(max_augmentation_dots(5), 11);
    assert_eq!(max_augmentation_dots(-11), 0);
}

#[test]
fn time_signature_denominators() {
    assert_eq!(time_sig_denominator(-2), 4);
    assert_eq!(time_sig_denominator(0), 1);
    let mut sixteen = utf16("16");
    sixteen.push(0);
    assert_eq!(time_sig_denominator_text(-4), sixteen);
    let mut one = utf16("1");
    one.push(0);
    assert_eq!(time_sig_denominator_text(2), one);
}

#[test]
fn key_signature_of_three_flats() {
    let key_sig = key_sig_from_accidental_count(3, true, true);
    let letters: Vec<u8> = key_sig.accidentals.iter().map(|a| a.letter_name).collect();
    assert_eq!(letters, vec![6, 2, 5]);
    assert!(key_sig.accidentals.iter().all(|a| a.accidental == Accidental::Flat));
    assert_eq!(key_sig.floors, [-4, -5, -4, -5, -1, -2, -3]);
    assert!(key_sig.is_header);
}

#[test]
fn key_signature_of_two_sharps_gives_letter_accidentals() {
    let key_sig = key_sig_from_accidental_count(2, false, false);
    let letters: Vec<u8> = key_sig.accidentals.iter().map(|a| a.letter_name).collect();
    assert_eq!(letters, vec![3, 0]);
    let accidentals = letter_name_accidentals_from_key_sig(&key_sig);
    assert_eq!(accidentals[0], Accidental::Sharp);
    assert_eq!(accidentals[3], Accidental::Sharp);
    assert_eq!(accidentals[1], Accidental::Natural);
    assert_eq!(accidentals[6], Accidental::Natural);
}

#[test]
fn letter_keys_pick_the_lowest_pitch_at_or_above_the_floor() {
    assert_eq!(steps_above_c4_of_letter_key(67, 0), 0);
    assert_eq!(steps_above_c4_of_letter_key(65, 3), 5);
    assert_eq!(steps_above_c4_of_letter_key(67, 3), 7);
    assert_eq!(steps_above_c4_of_letter_key(66, -3), 6 - 7);
    assert_eq!(steps_above_c4_of_letter_key(71, -10), -10);
    assert_eq!(steps_above_c4_of_letter_key(65, -10), -9);
}

#[test]
fn scale_index_moves_and_round_trips() {
    assert_eq!(scale_index_after_move(2, 2, 0), 0);
    assert_eq!(scale_index_after_move(0, 2, 0), 1);
    assert_eq!(scale_index_after_move(3, 2, 0), 3);
    assert_eq!(scale_index_after_move(1, 0, 2), 0);
    for index in 0..4 {
        for from in 0..4 {
            for to in 0..4 {
                let moved = scale_index_after_move(index, from, to);
                assert!(moved < 4);
                assert_eq!(scale_index_after_move(moved, to, from), index);
            }
        }
    }
}

#[test]
fn scale_index_after_removing_a_scale() {
    assert_eq!(scale_index_after_removal(2, 2, 0), 0);
    assert_eq!(scale_index_after_removal(3, 2, 0), 2);
    assert_eq!(scale_index_after_removal(1, 2, 0), 1);
}

#[test]
fn text_outside_the_basic_plane_becomes_surrogate_pairs() {
    assert_eq!(unterminated_wide_char_string("A\u{1F600}\u{e9}"), vec![0x41, 0xD83D, 0xDE00, 0xE9]);
    assert_eq!(wide_char_string(""), vec![0]);
}
