use music_notation::durations::duration_end;
use music_notation::rhythm::{duration_binary_digits, power_of_two, rest_log2_durations, whole_notes_long, WholeNotes};

fn length(numer: u32, denom: u32) -> WholeNotes {
    WholeNotes { numer: if numer == 0 { vec![] } else { vec![numer] }, denom: vec![denom] }
}

#[test]
fn whole_notes_long_of_plain_and_dotted_notes() {
    let quarter = whole_notes_long(-2, 0);
    assert_eq!((quarter.numer, quarter.denom), (vec![1], vec![4]));
    let dotted_whole = whole_notes_long(0, 1);
    assert_eq!((dotted_whole.numer, dotted_whole.denom), (vec![3], vec![2]));
    let double_dotted_double_whole = whole_notes_long(1, 2);
    assert_eq!((double_dotted_double_whole.numer, double_dotted_double_whole.denom), (vec![7], vec![2]));
    let dotted_eighth = whole_notes_long(-3, 1);
    assert_eq!((dotted_eighth.numer, dotted_eighth.denom), (vec![3], vec![16]));
}

#[test]
fn rests_spell_a_length_longest_first() {
    assert_eq!(rest_log2_durations(&length(3, 4)), vec![-1, -2]);
    assert_eq!(rest_log2_durations(&length(5, 8)), vec![-1, -3]);
    assert_eq!(rest_log2_durations(&length(1, 1)), vec![0]);
    assert_eq!(rest_log2_durations(&length(0, 1)), Vec::<i8>::new());
}

#[test]
fn rests_fill_the_length_exactly() {
    for (numer, denom) in [(3u32, 4u32), (5, 8), (7, 16), (1, 32), (15, 16)] {
        let exponents = rest_log2_durations(&length(numer, denom));
        let mut sum_in_denominators: u64 = 0;
        for exponent in exponents {
            sum_in_denominators += denom as u64 >> (-exponent as u32);
        }
        assert_eq!(sum_in_denominators, numer as u64);
    }
}

#[test]
fn duration_end_adds_the_length() {
    let end = duration_end(&length(1, 2), -2, 1);
    assert_eq!((end.numer, end.denom), (vec![7], vec![8]));
    let end = duration_end(&length(0, 1), 0, 0);
    assert_eq!((end.numer, end.denom), (vec![1], vec![1]));
}

#[test]
fn powers_of_two() {
    assert_eq!(power_of_two(0), 1);
    assert_eq!(power_of_two(5), 32);
    assert_eq!(power_of_two(31), 0x8000_0000);
}

#[test]
fn binary_digits_of_lengths() {
    assert_eq!(duration_binary_digits(&length(3, 4)), (0, vec![1, 1]));
    assert_eq!(duration_binary_digits(&length(5, 2)), (2, vec![1]));
    assert_eq!(duration_binary_digits(&length(1, 1)), (1, vec![0]));
    assert_eq!(duration_binary_digits(&length(600, 1)), (88, vec![0]));
    assert_eq!(duration_binary_digits(&length(1, 1 << 30)).1.len(), 30);
}

#[test]
fn binary_digits_are_exact() {
    for (numer, denom) in [(3u32, 4u32), (5, 8), (13, 16), (1, 1024), (1023, 1024)] {
        let (whole, bits) = duration_binary_digits(&length(numer, denom));
        assert_eq!(whole as u32, numer / denom);
        let mut value: u64 = 0;
        for bit in &bits {
            value = value * 2 + *bit as u64;
        }
        assert_eq!((numer % denom) as u64 * (1u64 << bits.len()), value * denom as u64);
    }
}

#[test]
fn a_dotted_quarter_is_three_eighths_in_lowest_terms() {
    let dotted_quarter = whole_notes_long(-2, 1);
    assert_eq!((dotted_quarter.numer, dotted_quarter.denom), (vec![3], vec![8]));
}
