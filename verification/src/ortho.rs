//! Orthographic context: where in a sentence a type was seen, and in which
//! case, recorded as bits of one byte.

use vstd::prelude::*;

verus! {

/// The record of the positions and cases in which a type was seen.
pub type OrthographicContext = u8;

/// Seen in upper case at the start of a sentence.
pub const BEG_UC: OrthographicContext = 0b00000010;

/// Seen in upper case inside a sentence.
pub const MID_UC: OrthographicContext = 0b00000100;

/// Seen in upper case at an unknown position.
pub const UNK_UC: OrthographicContext = 0b00001000;

/// Seen in lower case at the start of a sentence.
pub const BEG_LC: OrthographicContext = 0b00010000;

/// Seen in lower case inside a sentence.
pub const MID_LC: OrthographicContext = 0b00100000;

/// Seen in lower case at an unknown position.
pub const UNK_LC: OrthographicContext = 0b01000000;

/// Seen in upper case at any position.
pub const ORT_UC: OrthographicContext = 0b00001110;

/// Seen in lower case at any position.
pub const ORT_LC: OrthographicContext = 0b01110000;

/// The position of a token within its sentence.
#[derive(Clone, Copy, Debug, PartialEq, Eq, Structural)]
pub enum OrthographyPosition {
    Initial,
    Internal,
    Unknown,
}

impl OrthographyPosition {
    /// The bits that stand for the position.
    pub open spec fn bits(self) -> u8 {
        match self {
            OrthographyPosition::Initial => 0b01000000,
            OrthographyPosition::Internal => 0b00100000,
            OrthographyPosition::Unknown => 0b01100000,
        }
    }

    /// The bits that stand for the position.
    pub fn as_byte(&self) -> (b: u8)
        ensures
            b == self.bits(),
    {
        match *self {
            OrthographyPosition::Initial => 0b01000000,
            OrthographyPosition::Internal => 0b00100000,
            OrthographyPosition::Unknown => 0b01100000,
        }
    }
}

/// The case of the first character of a token.
#[derive(Clone, Copy, Debug, PartialEq, Eq, Structural)]
pub enum LetterCase {
    Upper,
    Lower,
    Unknown,
}

impl LetterCase {
    /// The bits that stand for the case.
    pub open spec fn bits(self) -> u8 {
        match self {
            LetterCase::Upper => 0b00000010,
            LetterCase::Lower => 0b00000001,
            LetterCase::Unknown => 0b00000011,
        }
    }

    /// The bits that stand for the case.
    pub fn as_byte(&self) -> (b: u8)
        ensures
            b == self.bits(),
    {
        match *self {
            LetterCase::Upper => 0b00000010,
            LetterCase::Lower => 0b00000001,
            LetterCase::Unknown => 0b00000011,
        }
    }
}

/// The context bit for a byte made of a position's bits and a case's bits:
/// one of the six bits where the case is known, nothing where it is not.
pub open spec fn ortho_flag(key: u8) -> OrthographicContext {
    if key == 66 {
        BEG_UC
    } else if key == 34 {
        MID_UC
    } else if key == 98 {
        UNK_UC
    } else if key == 65 {
        BEG_LC
    } else if key == 33 {
        MID_LC
    } else if key == 97 {
        UNK_LC
    } else {
        0
    }
}

/// The context bit for a token of case `case` seen at position `pos`.
pub open spec fn context_flag(pos: OrthographyPosition, case: LetterCase) -> OrthographicContext {
    match (pos, case) {
        (OrthographyPosition::Initial, LetterCase::Upper) => BEG_UC,
        (OrthographyPosition::Internal, LetterCase::Upper) => MID_UC,
        (OrthographyPosition::Unknown, LetterCase::Upper) => UNK_UC,
        (OrthographyPosition::Initial, LetterCase::Lower) => BEG_LC,
        (OrthographyPosition::Internal, LetterCase::Lower) => MID_LC,
        (OrthographyPosition::Unknown, LetterCase::Lower) => UNK_LC,
        (_, LetterCase::Unknown) => 0,
    }
}

/// Looks up the context bit for a byte made of a position's bits and a case's
/// bits.
pub fn ortho_map(key: u8) -> (flag: OrthographicContext)
    ensures
        flag == ortho_flag(key),
{
    if key == 66 {
        BEG_UC
    } else if key == 34 {
        MID_UC
    } else if key == 98 {
        UNK_UC
    } else if key == 65 {
        BEG_LC
    } else if key == 33 {
        MID_LC
    } else if key == 97 {
        UNK_LC
    } else {
        0
    }
}

/// The context bit for a token of case `case` seen at position `pos`.
pub fn orthographic_flag(pos: OrthographyPosition, case: LetterCase) -> (flag:
    OrthographicContext)
    ensures
        flag == context_flag(pos, case),
        flag == ortho_flag(pos.bits() | case.bits()),
{
    let p = pos.as_byte();
    let c = case.as_byte();
    assert(ortho_flag(pos.bits() | case.bits()) == context_flag(pos, case)) by {
        assert(0b01000000u8 | 0b00000010u8 == 66u8) by (bit_vector);
        assert(0b00100000u8 | 0b00000010u8 == 34u8) by (bit_vector);
        assert(0b01100000u8 | 0b00000010u8 == 98u8) by (bit_vector);
        assert(0b01000000u8 | 0b00000001u8 == 65u8) by (bit_vector);
        assert(0b00100000u8 | 0b00000001u8 == 33u8) by (bit_vector);
        assert(0b01100000u8 | 0b00000001u8 == 97u8) by (bit_vector);
        assert(0b01000000u8 | 0b00000011u8 == 67u8) by (bit_vector);
        assert(0b00100000u8 | 0b00000011u8 == 35u8) by (bit_vector);
        assert(0b01100000u8 | 0b00000011u8 == 99u8) by (bit_vector);
    }
    ortho_map(p | c)
}

} // verus!
