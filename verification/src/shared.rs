use vstd::prelude::*;

verus! {

/// A point in a two-dimensional coordinate space.
pub struct Point<T> {
    pub x: T,
    pub y: T,
}

/// The UTF-16 code units of one Unicode scalar value.
pub open spec fn utf16_of_char(c: char) -> Seq<u16> {
    let v = c as int;
    if v < 0x10000 {
        seq![v as u16]
    } else {
        let w = v - 0x10000;
        seq![(0xD800 + w / 0x400) as u16, (0xDC00 + w % 0x400) as u16]
    }
}

/// The UTF-16 encoding of a sequence of Unicode scalar values.
pub open spec fn utf16_encoding(s: Seq<char>) -> Seq<u16>
    decreases s.len(),
{
    if s.len() == 0 {
        Seq::empty()
    } else {
        utf16_of_char(s[0]) + utf16_encoding(s.drop_first())
    }
}

/// Encoding a sequence with one more scalar value at its end appends that
/// value's code units.
pub proof fn lemma_utf16_encoding_push(s: Seq<char>, c: char)
    ensures
        utf16_encoding(s.push(c)) == utf16_encoding(s) + utf16_of_char(c),
    decreases s.len(),
{
    if s.len() == 0 {
        assert(s.push(c).drop_first() =~= Seq::<char>::empty());
        assert(s.push(c)[0] == c);
        assert(utf16_encoding(Seq::<char>::empty()) =~= Seq::<u16>::empty());
        assert(utf16_encoding(s.push(c)) =~= utf16_of_char(c));
    } else {
        lemma_utf16_encoding_push(s.drop_first(), c);
        assert(s.push(c).drop_first() =~= s.drop_first().push(c));
        assert(utf16_encoding(s.push(c)) =~= utf16_encoding(s) + utf16_of_char(c));
    }
}

/// The text as UTF-16 code units, without a terminating zero: each scalar
/// value below 0x10000 is one unit, each other one a surrogate pair.
pub fn unterminated_wide_char_string(value: &str) -> (units: Vec<u16>)
    ensures
        units@ == utf16_encoding(value@),
{
    let count = value.unicode_len();
    let mut units: Vec<u16> = Vec::new();
    let mut i: usize = 0;
    proof {
        assert(value@.take(0) =~= Seq::<char>::empty());
    }
    while i < count
        invariant
            count == value@.len(),
            i <= count,
            units@ == utf16_encoding(value@.take(i as int)),
        decreases count - i,
    {
        let c = value.get_char(i);
        proof {
            lemma_utf16_encoding_push(value@.take(i as int), c);
            assert(value@.take(i + 1) =~= value@.take(i as int).push(c));
        }
        let v: u32 = c as u32;
        if v < 0x10000 {
            units.push(v as u16);
            proof {
                assert(utf16_of_char(c) =~= seq![v as u16]);
            }
        } else {
            let w: u32 = v - 0x10000;
            units.push((0xD800 + w / 0x400) as u16);
            units.push((0xDC00 + w % 0x400) as u16);
            proof {
                assert(utf16_of_char(c) =~= seq![(0xD800 + w / 0x400) as u16, (0xDC00 + w % 0x400) as u16]);
            }
        }
        i = i + 1;
    }
    proof {
        assert(value@.take(count as int) =~= value@);
    }
    units
}

/// The text as a zero-terminated UTF-16 string.
pub fn wide_char_string(value: &str) -> (units: Vec<u16>)
    ensures
        units@ == utf16_encoding(value@).push(0),
{
    let mut string = unterminated_wide_char_string(value);
    string.push(0);
    string
}

} // verus!
