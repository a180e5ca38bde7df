use vstd::prelude::*;
use crate::rhythm::two_to;
use crate::shared::{utf16_encoding, wide_char_string};

verus! {

/// An accidental that alters a pitch.
#[derive(Clone, Copy, PartialEq, Eq, Structural, Debug)]
pub enum Accidental {
    DoubleFlat,
    Flat,
    Natural,
    Sharp,
    DoubleSharp,
}

/// A pitch: a staff step counted from middle C, and its accidental.
#[derive(Clone, Copy, PartialEq, Eq, Structural, Debug)]
pub struct Pitch {
    pub accidental: Accidental,
    pub steps_above_c4: i8,
}

/// The glyph that draws an accidental.
pub fn accidental_codepoint(accidental: &Accidental) -> (codepoint: u16)
    ensures
        codepoint == match *accidental {
            Accidental::DoubleFlat => 0xe264u16,
            Accidental::Flat => 0xe260u16,
            Accidental::Natural => 0xe261u16,
            Accidental::Sharp => 0xe262u16,
            Accidental::DoubleSharp => 0xe263u16,
        },
{
    match accidental {
        Accidental::DoubleFlat => 0xe264,
        Accidental::Flat => 0xe260,
        Accidental::Natural => 0xe261,
        Accidental::Sharp => 0xe262,
        Accidental::DoubleSharp => 0xe263,
    }
}

/// The accidental one step sharper, if there is one.
pub open spec fn one_step_sharper(accidental: Accidental) -> Option<Accidental> {
    match accidental {
        Accidental::DoubleSharp => None,
        Accidental::Sharp => Some(Accidental::DoubleSharp),
        Accidental::Natural => Some(Accidental::Sharp),
        Accidental::Flat => Some(Accidental::Natural),
        Accidental::DoubleFlat => Some(Accidental::Flat),
    }
}

/// The accidental one step flatter, if there is one.
pub open spec fn one_step_flatter(accidental: Accidental) -> Option<Accidental> {
    match accidental {
        Accidental::DoubleSharp => Some(Accidental::Sharp),
        Accidental::Sharp => Some(Accidental::Natural),
        Accidental::Natural => Some(Accidental::Flat),
        Accidental::Flat => Some(Accidental::DoubleFlat),
        Accidental::DoubleFlat => None,
    }
}

/// The accidental one step sharper, if there is one.
pub fn raised_accidental(accidental: Accidental) -> (raised: Option<Accidental>)
    ensures
        raised == one_step_sharper(accidental),
{
    match accidental {
        Accidental::DoubleSharp => None,
        Accidental::Sharp => Some(Accidental::DoubleSharp),
        Accidental::Natural => Some(Accidental::Sharp),
        Accidental::Flat => Some(Accidental::Natural),
        Accidental::DoubleFlat => Some(Accidental::Flat),
    }
}

/// The accidental one step flatter, if there is one.
pub fn lowered_accidental(accidental: Accidental) -> (lowered: Option<Accidental>)
    ensures
        lowered == one_step_flatter(accidental),
{
    match accidental {
        Accidental::DoubleSharp => Some(Accidental::Sharp),
        Accidental::Sharp => Some(Accidental::Natural),
        Accidental::Natural => Some(Accidental::Flat),
        Accidental::Flat => Some(Accidental::DoubleFlat),
        Accidental::DoubleFlat => None,
    }
}

/// `minuend - subtrahend`, or the least `i8` where that is below it.
pub fn clamped_subtract(minuend: i8, subtrahend: u8) -> (difference: i8)
    requires
        subtrahend <= 127,
    ensures
        difference == if minuend - subtrahend < -128 { -128 } else { minuend - subtrahend },
{
    if minuend < i8::MIN + subtrahend as i8 {
        return i8::MIN;
    }
    minuend - subtrahend as i8
}

/// The pitch of the bottom line of a staff whose middle is `middle_pitch`.
pub fn bottom_line_pitch(staff_line_count: u8, middle_pitch: i8) -> (pitch: i8)
    requires
        staff_line_count <= 127,
        -128 <= middle_pitch - staff_line_count,
        middle_pitch - staff_line_count + 1 <= 127,
    ensures
        pitch == middle_pitch - staff_line_count + 1,
{
    middle_pitch - staff_line_count as i8 + 1
}

/// A clef: its glyph, the staff steps of its baseline above the staff's
/// middle, and whether it stands at the head of the staff.
#[derive(Clone, Copy, PartialEq, Eq, Structural, Debug)]
pub struct Clef {
    pub codepoint: u16,
    pub steps_of_baseline_above_staff_middle: i8,
    pub is_header: bool,
}

/// The pitch, in steps above middle C, on the baseline of the clef glyph.
pub open spec fn clef_baseline_pitch(codepoint: u16) -> Option<int> {
    if codepoint == 0xe050 {
        Some(4)
    } else if codepoint == 0xe051 {
        Some(-10)
    } else if codepoint == 0xe052 {
        Some(-3)
    } else if codepoint == 0xe053 {
        Some(11)
    } else if codepoint == 0xe054 {
        Some(18)
    } else if codepoint == 0xe05c {
        Some(0)
    } else if codepoint == 0xe05d {
        Some(-7)
    } else if codepoint == 0xe062 {
        Some(-4)
    } else if codepoint == 0xe063 {
        Some(-18)
    } else if codepoint == 0xe064 {
        Some(-11)
    } else if codepoint == 0xe065 {
        Some(3)
    } else if codepoint == 0xe066 {
        Some(10)
    } else if codepoint == 0xe069 {
        Some(4)
    } else {
        None
    }
}

/// A clef whose glyph is known and whose middle pitch fits in an `i8`.
pub open spec fn clef_wf(clef: Clef) -> bool {
    &&& clef_baseline_pitch(clef.codepoint) is Some
    &&& -128 <= clef_baseline_pitch(clef.codepoint)->0 - clef.steps_of_baseline_above_staff_middle
        <= 127
}

/// The pitch on the middle of the staff under the clef.
pub open spec fn spec_staff_middle_pitch(clef: Clef) -> int {
    clef_baseline_pitch(clef.codepoint)->0 - clef.steps_of_baseline_above_staff_middle
}

/// The pitch, in steps above middle C, on the middle of the staff under the clef.
pub fn staff_middle_pitch(clef: &Clef) -> (pitch: i8)
    requires
        clef_wf(*clef),
    ensures
        pitch == spec_staff_middle_pitch(*clef),
{
    let baseline_pitch: i8 = if clef.codepoint == 0xe050 {
        4
    } else if clef.codepoint == 0xe051 {
        -10
    } else if clef.codepoint == 0xe052 {
        -3
    } else if clef.codepoint == 0xe053 {
        11
    } else if clef.codepoint == 0xe054 {
        18
    } else if clef.codepoint == 0xe05c {
        0
    } else if clef.codepoint == 0xe05d {
        -7
    } else if clef.codepoint == 0xe062 {
        -4
    } else if clef.codepoint == 0xe063 {
        -18
    } else if clef.codepoint == 0xe064 {
        -11
    } else if clef.codepoint == 0xe065 {
        3
    } else if clef.codepoint == 0xe066 {
        10
    } else {
        4
    };
    baseline_pitch - clef.steps_of_baseline_above_staff_middle
}

/// The shape of a clef.
#[derive(Clone, Copy, PartialEq, Eq, Structural, Debug)]
pub enum ClefShape {
    C,
    F,
    G,
    Unpitched,
}

/// The octave transposition marked on a clef.
#[derive(Clone, Copy, PartialEq, Eq, Structural, Debug)]
pub enum ClefOctave {
    FifteenthAbove,
    EighthAbove,
    Untransposed,
    EighthBelow,
    FifteenthBelow,
}

/// The glyph of a clef of the given shape and octave transposition.
pub open spec fn clef_codepoint(shape: ClefShape, octave: ClefOctave) -> u16 {
    match shape {
        ClefShape::C => if octave == ClefOctave::Untransposed { 0xe05c } else { 0xe05d },
        ClefShape::F => match octave {
            ClefOctave::FifteenthAbove => 0xe066,
            ClefOctave::EighthAbove => 0xe065,
            ClefOctave::Untransposed => 0xe062,
            ClefOctave::EighthBelow => 0xe064,
            ClefOctave::FifteenthBelow => 0xe063,
        },
        ClefShape::G => match octave {
            ClefOctave::FifteenthAbove => 0xe054,
            ClefOctave::EighthAbove => 0xe053,
            ClefOctave::Untransposed => 0xe050,
            ClefOctave::EighthBelow => 0xe052,
            ClefOctave::FifteenthBelow => 0xe051,
        },
        ClefShape::Unpitched => 0xe069,
    }
}

/// The clef chosen with a shape and an octave transposition: C clefs sit on
/// the middle line, F clefs two steps above it, G clefs two steps below it.
pub fn selected_clef(shape: ClefShape, octave: ClefOctave, is_header: bool) -> (clef: Clef)
    ensures
        clef.codepoint == clef_codepoint(shape, octave),
        clef.steps_of_baseline_above_staff_middle == match shape {
            ClefShape::F => 2i8,
            ClefShape::G => -2i8,
            _ => 0i8,
        },
        clef.is_header == is_header,
        clef_wf(clef),
{
    let steps_of_baseline_above_staff_middle: i8;
    let codepoint: u16;
    match shape {
        ClefShape::C => {
            steps_of_baseline_above_staff_middle = 0;
            codepoint = if octave == ClefOctave::Untransposed { 0xe05c } else { 0xe05d };
        },
        ClefShape::F => {
            steps_of_baseline_above_staff_middle = 2;
            codepoint = match octave {
                ClefOctave::FifteenthAbove => 0xe066,
                ClefOctave::EighthAbove => 0xe065,
                ClefOctave::Untransposed => 0xe062,
                ClefOctave::EighthBelow => 0xe064,
                ClefOctave::FifteenthBelow => 0xe063,
            };
        },
        ClefShape::G => {
            steps_of_baseline_above_staff_middle = -2;
            codepoint = match octave {
                ClefOctave::FifteenthAbove => 0xe054,
                ClefOctave::EighthAbove => 0xe053,
                ClefOctave::Untransposed => 0xe050,
                ClefOctave::EighthBelow => 0xe052,
                ClefOctave::FifteenthBelow => 0xe051,
            };
        },
        ClefShape::Unpitched => {
            steps_of_baseline_above_staff_middle = 0;
            codepoint = 0xe069;
        },
    }
    Clef { codepoint, steps_of_baseline_above_staff_middle, is_header }
}

/// The octave transpositions offered for a clef shape: C clefs offer none
/// above and none two octaves below, unpitched clefs offer none.
pub fn octave_choices_enabled(shape: ClefShape) -> (enabled: [bool; 5])
    ensures
        enabled@ == match shape {
            ClefShape::C => seq![false, false, true, true, false],
            ClefShape::Unpitched => seq![false, false, false, false, false],
            _ => seq![true, true, true, true, true],
        },
{
    let enabled = match shape {
        ClefShape::C => [false, false, true, true, false],
        ClefShape::Unpitched => [false, false, false, false, false],
        _ => [true, true, true, true, true],
    };
    proof {
        assert(enabled@ =~= match shape {
            ClefShape::C => seq![false, false, true, true, false],
            ClefShape::Unpitched => seq![false, false, false, false, false],
            _ => seq![true, true, true, true, true],
        });
    }
    enabled
}


/// The glyph of a note head (for a pitched duration) or of a rest.
pub fn duration_codepoint(is_pitched: bool, log2_duration: i8) -> (codepoint: u16)
    ensures
        codepoint == if is_pitched {
            if log2_duration == 1 {
                0xe0a0u16
            } else if log2_duration == 0 {
                0xe0a2u16
            } else if log2_duration == -1 {
                0xe0a3u16
            } else {
                0xe0a4u16
            }
        } else {
            (0xe4e3 - log2_duration) as u16
        },
{
    if is_pitched {
        match log2_duration {
            1 => 0xe0a0,
            0 => 0xe0a2,
            -1 => 0xe0a3,
            _ => 0xe0a4,
        }
    } else {
        (0xe4e3 - log2_duration as i32) as u16
    }
}

/// The decimal digits of `n`, most significant first; none for zero.
pub open spec fn decimal_digits(n: nat) -> Seq<nat>
    decreases n,
{
    if n == 0 {
        Seq::empty()
    } else {
        decimal_digits(n / 10).push(n % 10)
    }
}

/// One code unit per decimal digit of `component`, most significant first:
/// the unit of the digit `d` is `zero_unit + d`.
pub fn decimal_units(component: u32, zero_unit: u16) -> (codepoints: Vec<u16>)
    requires
        zero_unit <= 0xffff - 9,
    ensures
        codepoints@ == decimal_digits(component as nat).map_values(|d: nat| (zero_unit + d) as u16),
{
    let mut place_values: Vec<u32> = Vec::new();
    let mut remaining = component;
    while remaining != 0
        invariant
            decimal_digits(component as nat) == decimal_digits(remaining as nat) + Seq::new(
                place_values.len() as nat,
                |i: int| place_values@[place_values.len() - 1 - i] as nat,
            ),
            forall|i: int| 0 <= i < place_values.len() ==> #[trigger] place_values@[i] < 10,
        decreases remaining,
    {
        let ghost before = place_values@;
        let ghost r = remaining as nat;
        place_values.push(remaining % 10);
        remaining = remaining / 10;
        proof {
            assert(decimal_digits(r) == decimal_digits(r / 10).push(r % 10));
            assert(Seq::new(place_values.len() as nat, |i: int| place_values@[place_values.len() - 1 - i] as nat)
                =~= seq![(r % 10) as nat] + Seq::new(before.len() as nat, |i: int| before[before.len() - 1 - i] as nat));
            assert(decimal_digits(r / 10).push(r % 10) + Seq::new(before.len() as nat, |i: int| before[before.len() - 1 - i] as nat)
                =~= decimal_digits(r / 10) + (seq![(r % 10) as nat] + Seq::new(before.len() as nat, |i: int| before[before.len() - 1 - i] as nat)));
        }
    }
    let ghost digits = decimal_digits(component as nat);
    proof {
        assert(decimal_digits(0) =~= Seq::<nat>::empty());
        assert(digits =~= Seq::new(place_values.len() as nat, |i: int| place_values@[place_values.len() - 1 - i] as nat));
    }
    let mut codepoints: Vec<u16> = Vec::new();
    let mut index = place_values.len();
    while index > 0
        invariant
            zero_unit <= 0xffff - 9,
            index <= place_values.len(),
            digits.len() == place_values.len(),
            forall|i: int| 0 <= i < digits.len() ==> #[trigger] digits[i] == place_values@[place_values.len() - 1 - i] as nat,
            forall|i: int| 0 <= i < place_values.len() ==> #[trigger] place_values@[i] < 10,
            codepoints@ == digits.take(place_values.len() - index).map_values(|d: nat| (zero_unit + d) as u16),
        decreases index,
    {
        index = index - 1;
        let value = place_values[index];
        codepoints.push(zero_unit + value as u16);
        proof {
            let taken = place_values.len() - 1 - index;
            assert(digits[taken as int] == value as nat);
            assert(digits.take(taken + 1) =~= digits.take(taken as int).push(value as nat));
            assert(codepoints@ =~= digits.take(taken + 1).map_values(|d: nat| (zero_unit + d) as u16));
        }
    }
    proof {
        assert(digits.take(digits.len() as int) =~= digits);
    }
    codepoints
}

/// The glyphs that draw a time signature number, one per decimal digit,
/// most significant first.
pub fn time_sig_component_string(component: u16) -> (codepoints: Vec<u16>)
    ensures
        codepoints@ == decimal_digits(component as nat).map_values(|d: nat| (0xe080 + d) as u16),
{
    decimal_units(component as u32, 0xe080)
}

/// One accidental of a key signature: its kind and the letter name
/// (0 for C through 6 for B) it applies to.
#[derive(Clone, Copy, PartialEq, Eq, Structural, Debug)]
pub struct KeySigAccidental {
    pub accidental: Accidental,
    pub letter_name: u8,
}

/// A key signature: its accidentals in order of appearance, the lowest staff
/// step (relative to the middle line, for each middle-line letter name) at
/// which its accidentals are drawn, and whether it stands at the head of the
/// staff.
pub struct KeySig {
    pub accidentals: Vec<KeySigAccidental>,
    pub floors: [i8; 7],
    pub is_header: bool,
}

/// The letter name of the `index`th accidental of a key signature with
/// sharps (F C G D A E B) or flats (B E A D G C F).
pub open spec fn key_sig_letter(is_flats: bool, index: int) -> int {
    if is_flats {
        (6 + 3 * index) % 7
    } else {
        (3 + 4 * index) % 7
    }
}

/// The `index`th accidental of a key signature with sharps or flats.
pub open spec fn circle_of_fifths_accidental(is_flats: bool, index: int) -> KeySigAccidental {
    KeySigAccidental {
        accidental: if is_flats { Accidental::Flat } else { Accidental::Sharp },
        letter_name: key_sig_letter(is_flats, index) as u8,
    }
}

/// The drawing floors of key signatures with flats.
pub open spec fn flat_floors() -> Seq<i8> {
    seq![-4i8, -5i8, -4i8, -5i8, -1i8, -2i8, -3i8]
}

/// The drawing floors of key signatures with sharps.
pub open spec fn sharp_floors() -> Seq<i8> {
    seq![-2i8, -3i8, -4i8, -5i8, -1i8, -2i8, -1i8]
}

/// A key signature of `accidental_count` sharps or flats, in the order of
/// the circle of fifths.
pub fn key_sig_from_accidental_count(accidental_count: u8, is_flats: bool, is_header: bool) -> (key_sig: KeySig)
    ensures
        key_sig.accidentals.len() == accidental_count,
        forall|i: int| 0 <= i < accidental_count ==> #[trigger] key_sig.accidentals@[i]
            == circle_of_fifths_accidental(is_flats, i),
        key_sig.floors@ == if is_flats { flat_floors() } else { sharp_floors() },
        key_sig.is_header == is_header,
{
    let floors: [i8; 7];
    let accidental_type: Accidental;
    let stride: u8;
    let mut next_letter_name: u8;
    if is_flats {
        floors = [-4, -5, -4, -5, -1, -2, -3];
        accidental_type = Accidental::Flat;
        stride = 3;
        next_letter_name = 6;
    } else {
        floors = [-2, -3, -4, -5, -1, -2, -1];
        accidental_type = Accidental::Sharp;
        stride = 4;
        next_letter_name = 3;
    }
    proof {
        assert(floors@ =~= if is_flats { flat_floors() } else { sharp_floors() });
    }
    let mut accidentals: Vec<KeySigAccidental> = Vec::new();
    let mut i: u8 = 0;
    while i < accidental_count
        invariant
            i <= accidental_count,
            accidentals.len() == i,
            next_letter_name < 7,
            next_letter_name == key_sig_letter(is_flats, i as int),
            stride == if is_flats { 3u8 } else { 4u8 },
            accidental_type == if is_flats { Accidental::Flat } else { Accidental::Sharp },
            forall|j: int| 0 <= j < i ==> #[trigger] accidentals@[j]
                == circle_of_fifths_accidental(is_flats, j),
        decreases accidental_count - i,
    {
        accidentals.push(KeySigAccidental { accidental: accidental_type, letter_name: next_letter_name });
        proof {
            let k = i as int;
            if is_flats {
                assert((6 + 3 * k) % 7 + 3 == (6 + 3 * (k + 1)) - 7 * ((6 + 3 * k) / 7));
                assert(((6 + 3 * k) % 7 + 3) % 7 == (6 + 3 * (k + 1)) % 7) by (nonlinear_arith)
                    requires
                        (6 + 3 * k) % 7 + 3 == (6 + 3 * (k + 1)) - 7 * ((6 + 3 * k) / 7),
                ;
            } else {
                assert((3 + 4 * k) % 7 + 4 == (3 + 4 * (k + 1)) - 7 * ((3 + 4 * k) / 7));
                assert(((3 + 4 * k) % 7 + 4) % 7 == (3 + 4 * (k + 1)) % 7) by (nonlinear_arith)
                    requires
                        (3 + 4 * k) % 7 + 4 == (3 + 4 * (k + 1)) - 7 * ((3 + 4 * k) / 7),
                ;
            }
        }
        next_letter_name = (next_letter_name + stride) % 7;
        i = i + 1;
    }
    KeySig { accidentals, floors, is_header }
}

/// The accidental that a key signature's accidentals give a letter name: the
/// last one for that letter, or natural when there is none.
pub open spec fn letter_accidental(accidentals: Seq<KeySigAccidental>, letter_name: int) -> Accidental
    decreases accidentals.len(),
{
    if accidentals.len() == 0 {
        Accidental::Natural
    } else if accidentals.last().letter_name == letter_name {
        accidentals.last().accidental
    } else {
        letter_accidental(accidentals.drop_last(), letter_name)
    }
}

/// Every accidental of the key signature names a letter (0 through 6).
pub open spec fn key_sig_letters_wf(accidentals: Seq<KeySigAccidental>) -> bool {
    forall|i: int| 0 <= i < accidentals.len() ==> #[trigger] accidentals[i].letter_name < 7
}

/// For each letter name, the accidental the key signature gives it.
pub fn letter_name_accidentals_from_key_sig(key_sig: &KeySig) -> (accidentals: [Accidental; 7])
    requires
        key_sig_letters_wf(key_sig.accidentals@),
    ensures
        forall|letter: int| 0 <= letter < 7 ==> #[trigger] accidentals@[letter] == letter_accidental(
            key_sig.accidentals@,
            letter,
        ),
{
    let mut key_sig_accidentals = [Accidental::Natural; 7];
    let mut i: usize = 0;
    while i < key_sig.accidentals.len()
        invariant
            i <= key_sig.accidentals.len(),
            key_sig_letters_wf(key_sig.accidentals@),
            forall|letter: int| 0 <= letter < 7 ==> #[trigger] key_sig_accidentals@[letter]
                == letter_accidental(key_sig.accidentals@.take(i as int), letter),
        decreases key_sig.accidentals.len() - i,
    {
        let accidental = key_sig.accidentals[i];
        key_sig_accidentals[accidental.letter_name as usize] = accidental.accidental;
        proof {
            let taken = key_sig.accidentals@.take(i + 1);
            assert(taken.drop_last() =~= key_sig.accidentals@.take(i as int));
            assert(taken.last() == accidental);
        }
        i = i + 1;
    }
    proof {
        assert(key_sig.accidentals@.take(i as int) =~= key_sig.accidentals@);
    }
    key_sig_accidentals
}

/// The lowest pitch, at or above the range floor, with the letter name of
/// the key pressed (key codes 'A' through 'G').
pub open spec fn spec_letter_key_steps(key_code: int, range_floor: int) -> int {
    let scale_degree = (key_code - 60) % 7;
    range_floor + (scale_degree - range_floor) % 7
}

/// The pitch entered by a letter key: the lowest pitch with that letter name
/// at or above the cursor's range floor.
pub fn steps_above_c4_of_letter_key(key_code: i32, range_floor: i8) -> (steps_above_c4: i8)
    requires
        65 <= key_code <= 71,
        spec_letter_key_steps(key_code as int, range_floor as int) <= 127,
    ensures
        steps_above_c4 == spec_letter_key_steps(key_code as int, range_floor as int),
        range_floor <= steps_above_c4 < range_floor + 7,
        steps_above_c4 % 7 == (key_code - 60) % 7,
{
    let scale_degree: i8 = ((key_code - 60) % 7) as i8;
    let floor = range_floor as i32;
    let mut octave4_cursor_range_floor: i32 = floor % 7;
    let mut octaves_of_range_floor_above_octave4: i32 = floor / 7;
    if octave4_cursor_range_floor < 0 {
        octave4_cursor_range_floor = octave4_cursor_range_floor + 7;
        octaves_of_range_floor_above_octave4 = octaves_of_range_floor_above_octave4 - 1;
    }
    proof {
        assert(octave4_cursor_range_floor == (range_floor as int) % 7);
        assert(octaves_of_range_floor_above_octave4 == (range_floor as int) / 7);
    }
    let mut steps_above_c4: i32 = 7 * octaves_of_range_floor_above_octave4 + scale_degree as i32;
    if octave4_cursor_range_floor > scale_degree as i32 {
        steps_above_c4 = steps_above_c4 + 7;
    }
    steps_above_c4 as i8
}


/// The zero-terminated UTF-16 text of a number in decimal, followed by a suffix.
pub open spec fn number_text(n: nat, suffix: Seq<char>) -> Seq<u16> {
    decimal_digits(n).map_values(|d: nat| (48 + d) as u16) + utf16_encoding(suffix).push(0)
}

/// The name of a note value of `2^log2_position` whole notes, as the
/// duration control shows it: beyond the range it names the nearest end.
pub fn duration_name(log2_position: i32) -> (name: Vec<u16>)
    ensures
        name@ == if log2_position >= 1 {
            utf16_encoding("double whole"@).push(0)
        } else if log2_position == 0 {
            utf16_encoding("whole"@).push(0)
        } else if log2_position == -1 {
            utf16_encoding("half"@).push(0)
        } else if log2_position == -2 {
            utf16_encoding("quarter"@).push(0)
        } else if log2_position < -10 {
            utf16_encoding("1024th"@).push(0)
        } else if two_to((-log2_position) as nat) % 10 == 2 {
            number_text(two_to((-log2_position) as nat), "nd"@)
        } else {
            number_text(two_to((-log2_position) as nat), "th"@)
        },
{
    if log2_position > 1 {
        wide_char_string("double whole")
    } else if log2_position < -10 {
        wide_char_string("1024th")
    } else {
        match log2_position {
            1 => wide_char_string("double whole"),
            0 => wide_char_string("whole"),
            -1 => wide_char_string("half"),
            -2 => wide_char_string("quarter"),
            _ => {
                let denominator = crate::rhythm::power_of_two((-log2_position) as u32);
                let mut text = decimal_units(denominator, 48);
                let mut suffix = if denominator % 10 == 2 {
                    wide_char_string("nd")
                } else {
                    wide_char_string("th")
                };
                text.append(&mut suffix);
                text
            },
        }
    }
}

/// The highest number of augmentation dots offered with a duration of
/// `2^log2_position` whole notes: none beyond the shortest, eleven beyond
/// the longest, and otherwise as many as fit above the shortest duration.
pub fn max_augmentation_dots(log2_position: i32) -> (max_dots: i32)
    ensures
        max_dots == if log2_position > 1 {
            11
        } else if log2_position < -10 {
            0
        } else {
            log2_position + 10
        },
{
    if log2_position > 1 {
        11
    } else if log2_position < -10 {
        0
    } else {
        log2_position + 10
    }
}

/// The denominator shown for a time signature whose beat is
/// `2^log2_position` whole notes: 1 above the range, 1024 below it.
pub fn time_sig_denominator_text(log2_position: i32) -> (text: Vec<u16>)
    ensures
        text@ == if log2_position > 0 {
            utf16_encoding("1"@).push(0)
        } else if log2_position < -10 {
            utf16_encoding("1024"@).push(0)
        } else {
            number_text(two_to((-log2_position) as nat), ""@)
        },
{
    if log2_position > 0 {
        wide_char_string("1")
    } else if log2_position < -10 {
        wide_char_string("1024")
    } else {
        let mut text = decimal_units(crate::rhythm::power_of_two((-log2_position) as u32), 48);
        let mut terminator = wide_char_string("");
        text.append(&mut terminator);
        text
    }
}

/// The denominator of a time signature whose beat is `2^log2_position`
/// whole notes, as a 16-bit number (wrapping above 2^15).
pub fn time_sig_denominator(log2_position: i32) -> (denominator: u16)
    requires
        -32 < log2_position <= 0,
    ensures
        denominator == two_to((-log2_position) as nat) % 0x10000,
{
    let power = crate::rhythm::power_of_two((-log2_position) as u32);
    (power % 0x10000) as u16
}

/// Where an index into the ordered list of scales goes when the scale at
/// `from` moves to `to`.
pub open spec fn moved_scale_index(index: int, from: int, to: int) -> int {
    if index == from {
        to
    } else if from < to && from <= index <= to {
        index - 1
    } else if to < from && to <= index <= from {
        index + 1
    } else {
        index
    }
}

/// Where an index into the list of scales goes when the scale at `removed`
/// leaves it and its users move to `replacement`.
pub open spec fn remapped_scale_index(index: int, removed: int, replacement: int) -> int {
    if index == removed {
        replacement
    } else if index > removed {
        index - 1
    } else {
        index
    }
}

/// Where the staff's scale index goes when the scale at `from` moves to `to`
/// in the ordered list of scales.
pub fn scale_index_after_move(index: usize, from: usize, to: usize) -> (moved: usize)
    ensures
        moved == moved_scale_index(index as int, from as int, to as int),
{
    if index == from {
        to
    } else if from < to && from <= index && index <= to {
        index - 1
    } else if to < from && to <= index && index <= from {
        index + 1
    } else {
        index
    }
}

/// Where the staff's scale index goes when the scale at `removed` leaves the
/// list: staves that used it move to `replacement` (an index into the list
/// without it), later indices move down by one.
pub fn scale_index_after_removal(index: usize, removed: usize, replacement: usize) -> (remapped: usize)
    ensures
        remapped == remapped_scale_index(index as int, removed as int, replacement as int),
{
    if index == removed {
        replacement
    } else if index > removed {
        index - 1
    } else {
        index
    }
}

/// The letter name (0 for C) of a pitch, for pitches whose remainder by 7
/// is not negative.
pub open spec fn middle_line_letter(staff_middle_pitch: int) -> int {
    staff_middle_pitch % 7
}

/// The staff step, above the middle line, at which a key signature draws
/// its accidental for `letter_name`: the step of that letter within the
/// octave that starts at the floor for the middle line's letter name.
pub fn key_sig_accidental_steps(letter_name: u8, staff_middle_pitch: i8, floors: &[i8; 7]) -> (steps: i8)
    requires
        letter_name < 7,
        staff_middle_pitch >= 0 || staff_middle_pitch % 7 == 0,
        forall|i: int| 0 <= i < 7 ==> -8 <= #[trigger] floors@[i] <= 8,
    ensures
        ({
            let middle = middle_line_letter(staff_middle_pitch as int);
            let floor = floors@[middle] as int;
            let offset = letter_name - middle;
            steps == if offset < floor {
                offset + 7
            } else if offset > floor + 7 {
                offset - 7
            } else {
                offset
            }
        }),
{
    let middle_line_letter_name: i8 = if staff_middle_pitch >= 0 { staff_middle_pitch % 7 } else { 0 };
    let floor = floors[middle_line_letter_name as usize];
    let mut steps_above_middle_line = letter_name as i8 - middle_line_letter_name;
    if steps_above_middle_line < floor {
        steps_above_middle_line = steps_above_middle_line + 7;
    } else if steps_above_middle_line > floor + 7 {
        steps_above_middle_line = steps_above_middle_line - 7;
    }
    steps_above_middle_line
}

/// A stemmed note points its stem up when it sits below the top line.
pub fn stem_points_up(steps_above_bottom_line: i8, line_count: u8) -> (up: bool)
    requires
        1 <= line_count <= 127,
    ensures
        up == (line_count - 1 > steps_above_bottom_line),
{
    let space_count = line_count as i8 - 1;
    space_count > steps_above_bottom_line
}

/// Rust's division, rounding towards zero.
pub open spec fn truncated_half(n: int) -> int {
    if n >= 0 {
        n / 2
    } else {
        -((-n) / 2)
    }
}

/// The staff steps, above the bottom line, of the leger lines a note head
/// at `steps_above_bottom_line` needs: from the note's line up to the line
/// below the staff, or from the line above the staff up to the note's line.
pub open spec fn spec_leger_line_steps(steps_above_bottom_line: int, line_count: int) -> Seq<int> {
    if steps_above_bottom_line < -1 {
        let first = truncated_half(steps_above_bottom_line);
        Seq::new((-first) as nat, |i: int| 2 * (first + i))
    } else if steps_above_bottom_line >= 2 * line_count {
        let last = truncated_half(steps_above_bottom_line);
        Seq::new((last - line_count + 1) as nat, |i: int| 2 * (line_count + i))
    } else {
        Seq::empty()
    }
}

/// The staff steps, above the bottom line, of the leger lines of a note head.
pub fn leger_line_steps(steps_above_bottom_line: i8, line_count: u8) -> (steps: Vec<i8>)
    requires
        1 <= line_count <= 63,
    ensures
        steps@.map_values(|s: i8| s as int) == spec_leger_line_steps(
            steps_above_bottom_line as int,
            line_count as int,
        ),
{
    let ghost target = spec_leger_line_steps(steps_above_bottom_line as int, line_count as int);
    let mut steps: Vec<i8> = Vec::new();
    if steps_above_bottom_line < -1 {
        let first: i8 = steps_above_bottom_line / 2;
        let mut line_index = first;
        while line_index < 0
            invariant
                first == truncated_half(steps_above_bottom_line as int),
                first <= line_index <= 0,
                first >= -64,
                steps@.map_values(|s: i8| s as int) == target.take(line_index - first),
                target.len() == -first,
                forall|i: int| 0 <= i < target.len() ==> #[trigger] target[i] == 2 * (first + i),
            decreases 0 - line_index,
        {
            steps.push(2 * line_index);
            proof {
                assert(target.take(line_index + 1 - first) =~= target.take(line_index - first).push(2 * line_index as int));
            }
            line_index = line_index + 1;
        }
        proof {
            assert(target.take(target.len() as int) =~= target);
        }
    } else if steps_above_bottom_line >= 2 * line_count as i8 {
        let last: i8 = steps_above_bottom_line / 2;
        let mut line_index = line_count as i8;
        while line_index <= last
            invariant
                last == truncated_half(steps_above_bottom_line as int),
                line_count <= line_index <= last + 1,
                last <= 63,
                steps@.map_values(|s: i8| s as int) == target.take(line_index - line_count),
                target.len() == last - line_count + 1,
                forall|i: int| 0 <= i < target.len() ==> #[trigger] target[i] == 2 * (line_count + i),
            decreases last + 1 - line_index,
        {
            steps.push(2 * line_index);
            proof {
                assert(target.take(line_index + 1 - line_count) =~= target.take(line_index - line_count).push(2 * line_index as int));
            }
            line_index = line_index + 1;
        }
        proof {
            assert(target.take(target.len() as int) =~= target);
        }
    } else {
        proof {
            assert(steps@.map_values(|s: i8| s as int) =~= target);
        }
    }
    steps
}

/// The staff step, above the bottom line, of the augmentation dots of a note
/// head: in the space above a note on a line, beside a note in a space.
pub fn augmentation_dot_steps(steps_above_bottom_line: i8) -> (steps: i8)
    requires
        steps_above_bottom_line < 127,
    ensures
        steps == if steps_above_bottom_line % 2 == 0 {
            steps_above_bottom_line + 1
        } else {
            steps_above_bottom_line as int
        },
{
    if steps_above_bottom_line % 2 == 0 {
        steps_above_bottom_line + 1
    } else {
        steps_above_bottom_line
    }
}

/// The space, counted from the bottom line, in which a rest is drawn: whole
/// rests hang from the line above the middle space (the only line of a
/// one-line staff), other rests sit in the middle.
pub fn rest_spaces_above_bottom_line(log2_duration: i8, line_count: u8) -> (spaces: u8)
    requires
        line_count >= 1,
    ensures
        spaces == if log2_duration == 0 {
            if line_count == 1 { 0 } else { line_count / 2 + line_count % 2 }
        } else {
            line_count / 2 + line_count % 2 - 1
        },
{
    if log2_duration == 0 {
        if line_count == 1 {
            0
        } else {
            line_count / 2 + line_count % 2
        }
    } else {
        line_count / 2 + line_count % 2 - 1
    }
}

/// The flag glyphs of a stemmed note, innermost first: an eighth flag, or a
/// sixteenth flag and one more internal flag for each further halving.
pub fn flag_codepoints(log2_duration: i8, stem_up: bool) -> (codepoints: Vec<u16>)
    ensures
        codepoints@ == if log2_duration == -3 {
            seq![if stem_up { 0xe240u16 } else { 0xe241u16 }]
        } else if log2_duration < -3 {
            seq![if stem_up { 0xe242u16 } else { 0xe243u16 }] + Seq::new(
                (-log2_duration - 4) as nat,
                |i: int| if stem_up { 0xe250u16 } else { 0xe251u16 },
            )
        } else {
            Seq::<u16>::empty()
        },
{
    let mut codepoints: Vec<u16> = Vec::new();
    if log2_duration == -3 {
        codepoints.push(if stem_up { 0xe240 } else { 0xe241 });
    } else if log2_duration < -3 {
        codepoints.push(if stem_up { 0xe242 } else { 0xe243 });
        let internal_flag: u16 = if stem_up { 0xe250 } else { 0xe251 };
        let count: i32 = -(log2_duration as i32) - 4;
        let mut i: i32 = 0;
        while i < count
            invariant
                0 <= i <= count,
                codepoints@ == seq![if stem_up { 0xe242u16 } else { 0xe243u16 }] + Seq::new(
                    i as nat,
                    |j: int| internal_flag,
                ),
            decreases count - i,
        {
            codepoints.push(internal_flag);
            proof {
                assert(Seq::new((i + 1) as nat, |j: int| internal_flag) =~= Seq::new(i as nat, |j: int| internal_flag).push(internal_flag));
            }
            i = i + 1;
        }
        proof {
            assert(Seq::new(count as nat, |j: int| internal_flag) =~= Seq::new(
                (-log2_duration - 4) as nat,
                |j: int| if stem_up { 0xe250u16 } else { 0xe251u16 },
            ));
        }
    } else {
        proof {
            assert(codepoints@ =~= Seq::<u16>::empty());
        }
    }
    codepoints
}

} // verus!
