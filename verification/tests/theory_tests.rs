use retune31::theory::{Note, ParseError, Pitch31};

const ALL_NOTES: [Note; 31] = [
    Note::Abb,
    Note::Ebb,
    Note::Bbb,
    Note::Fb,
    Note::BuCb,
    Note::Gb,
    Note::Db,
    Note::Ab,
    Note::Eb,
    Note::Bb,
    Note::F,
    Note::C,
    Note::G,
    Note::D,
    Note::A,
    Note::E,
    Note::B,
    Note::Fs,
    Note::Cs,
    Note::Gs,
    Note::Ds,
    Note::As,
    Note::Es,
    Note::Bs,
    Note::Fx,
    Note::Cx,
    Note::Gx,
    Note::DxFbb,
    Note::AxCbb,
    Note::ExGbb,
    Note::BxDbb,
];

#[test]
fn parse_naturals() {
    assert_eq!(Note::new("A"), Ok(Note::A));
    assert_eq!(Note::new("B"), Ok(Note::B));
    assert_eq!(Note::new("C"), Ok(Note::C));
    assert_eq!(Note::new("D"), Ok(Note::D));
    assert_eq!(Note::new("E"), Ok(Note::E));
    assert_eq!(Note::new("F"), Ok(Note::F));
    assert_eq!(Note::new("G"), Ok(Note::G));
}

#[test]
fn parse_sharps_and_flats() {
    assert_eq!(Note::new("A#"), Ok(Note::As));
    assert_eq!(Note::new("C#"), Ok(Note::Cs));
    assert_eq!(Note::new("Ab"), Ok(Note::Ab));
    assert_eq!(Note::new("Cb"), Ok(Note::BuCb));
    assert_eq!(Note::new("Fb"), Ok(Note::Fb));
    assert_eq!(Note::new("Abb"), Ok(Note::Abb));
    assert_eq!(Note::new("Ebb"), Ok(Note::Ebb));
    assert_eq!(Note::new("Ax"), Ok(Note::AxCbb));
    assert_eq!(Note::new("Cx"), Ok(Note::Cx));
    assert_eq!(Note::new("Fx"), Ok(Note::Fx));
}

#[test]
fn parse_enharmonic_identities() {
    // Double-flat C coincides with double-sharp A on the 31-step lattice.
    assert_eq!(Note::new("Cbb"), Ok(Note::AxCbb));
    assert_eq!(Note::new("Dbb"), Ok(Note::BxDbb));
    assert_eq!(Note::new("Fbb"), Ok(Note::DxFbb));
    assert_eq!(Note::new("Gbb"), Ok(Note::ExGbb));
    assert_eq!(Note::new("Bbb"), Ok(Note::Bbb));
}

#[test]
fn parse_quarter_tone_marks() {
    assert_eq!(Note::new("A^"), Ok(Note::Bbb));
    assert_eq!(Note::new("Av"), Ok(Note::Gx));
    assert_eq!(Note::new("C^"), Ok(Note::BxDbb));
    assert_eq!(Note::new("Cv"), Ok(Note::Bs));
    assert_eq!(Note::new("A#^"), Ok(Note::Bb));
    assert_eq!(Note::new("Axv"), Ok(Note::Bb));
    assert_eq!(Note::new("A#v"), Ok(Note::Bbb));
    assert_eq!(Note::new("Abv"), Ok(Note::Gs));
    assert_eq!(Note::new("Abb^"), Ok(Note::Gs));
}

#[test]
fn parse_rejects_bad_spellings() {
    assert_eq!(Note::new(""), Err(ParseError::InvalidSpelling));
    assert_eq!(Note::new("H"), Err(ParseError::InvalidSpelling));
    assert_eq!(Note::new("a"), Err(ParseError::InvalidSpelling));
    assert_eq!(Note::new("A##"), Err(ParseError::InvalidSpelling));
    assert_eq!(Note::new("Abbb"), Err(ParseError::InvalidSpelling));
    assert_eq!(Note::new("Aq"), Err(ParseError::InvalidSpelling));
}

#[test]
fn parse_pitches() {
    assert_eq!(Pitch31::new("C4"), Ok(Pitch31 { note: Note::C, octave: 4 }));
    assert_eq!(Pitch31::new("C#4"), Ok(Pitch31 { note: Note::Cs, octave: 4 }));
    assert_eq!(Pitch31::new("Bb-1"), Ok(Pitch31 { note: Note::Bb, octave: -1 }));
    assert_eq!(Pitch31::new("A-10"), Ok(Pitch31 { note: Note::A, octave: -10 }));
    assert_eq!(Pitch31::new("Abb^0"), Ok(Pitch31 { note: Note::Gs, octave: 0 }));
    // Leading zeros in the octave are accepted.
    assert_eq!(Pitch31::new("C00004"), Ok(Pitch31 { note: Note::C, octave: 4 }));
}

#[test]
fn parse_pitch_errors() {
    assert_eq!(Pitch31::new("C"), Err(ParseError::InvalidOctave));
    assert_eq!(Pitch31::new("C4x"), Err(ParseError::InvalidOctave));
    assert_eq!(Pitch31::new("C--3"), Err(ParseError::InvalidOctave));
    assert_eq!(Pitch31::new("C-"), Err(ParseError::InvalidOctave));
    assert_eq!(Pitch31::new("C99999"), Err(ParseError::InvalidOctave));
    assert_eq!(Pitch31::new("4"), Err(ParseError::InvalidSpelling));
    assert_eq!(Pitch31::new("Hb4"), Err(ParseError::InvalidSpelling));
    assert_eq!(Pitch31::new(""), Err(ParseError::InvalidSpelling));
}

#[test]
fn steps_from_a_samples() {
    assert_eq!(Note::A.to_steps_from_a(), 0);
    assert_eq!(Note::G.to_steps_from_a(), -5);
    assert_eq!(Note::C.to_steps_from_a(), -23);
    assert_eq!(Note::Bs.to_steps_from_a(), 7);
    assert_eq!(Note::Gx.to_steps_from_a(), -1);
}

#[test]
fn absolute_steps_samples() {
    assert_eq!(Pitch31 { note: Note::A, octave: 4 }.to_steps_from_a4(), 0);
    assert_eq!(Pitch31 { note: Note::C, octave: 4 }.to_steps_from_a4(), -23);
    assert_eq!(Pitch31 { note: Note::A, octave: 5 }.to_steps_from_a4(), 31);
    assert_eq!(Pitch31 { note: Note::B, octave: 3 }.to_steps_from_a4(), -26);
}

// Totality of step reduction: every offset reduces into [-23, 7], congruent
// to the input modulo 31.
#[test]
fn from_steps_is_total_and_congruent() {
    let mut n: i32 = -400;
    while n <= 400 {
        let c = Note::from_steps(n as i16);
        let s = c.to_steps_from_a() as i32;
        assert!(-23 <= s && s <= 7);
        assert_eq!((s - n).rem_euclid(31), 0);
        n += 1;
    }
    // The extremes of the input type as well: the reduction never panics.
    let lo = Note::from_steps(i16::MIN);
    let hi = Note::from_steps(i16::MAX);
    assert_eq!(((lo.to_steps_from_a() as i32) - (i16::MIN as i32)).rem_euclid(31), 0);
    assert_eq!(((hi.to_steps_from_a() as i32) - (i16::MAX as i32)).rem_euclid(31), 0);
}

// Round trip: every class reconstructs from its own step offset.
#[test]
fn class_steps_round_trip() {
    for c in ALL_NOTES {
        assert_eq!(Note::from_steps(c.to_steps_from_a()), c);
    }
}

#[test]
fn fifths_distance_samples() {
    assert_eq!(Note::C.fifths_to(Note::G), 1);
    assert_eq!(Note::D.fifths_to(Note::C), 2);
    assert_eq!(Note::E.fifths_to(Note::C), 4);
    assert_eq!(Note::A.fifths_to(Note::A), 0);
    assert_eq!(Note::Bb.fifths_to(Note::C), 2);
    // Two sharps stand fourteen fifths from the natural on the 31-EDO
    // circle (seven fifths per sharp, folded to the short way round).
    assert_eq!(Note::Cx.fifths_to(Note::C), 14);
}

// Symmetry: the fifths distance does not depend on the direction.
#[test]
fn fifths_distance_is_symmetric() {
    for a in ALL_NOTES {
        for b in ALL_NOTES {
            assert_eq!(a.fifths_to(b), b.fifths_to(a));
        }
    }
}

#[test]
fn fifths_distance_stays_in_range() {
    for a in ALL_NOTES {
        for b in ALL_NOTES {
            assert!(a.fifths_to(b) <= 15);
        }
    }
}

// Pitch offset round trip: offsetting moves the absolute step count by
// exactly the delta.
#[test]
fn offset_round_trip() {
    let base = Pitch31 { note: Note::C, octave: 4 };
    let s0 = base.to_steps_from_a4();
    let mut d: i16 = -200;
    while d <= 200 {
        let moved = base.offset(d);
        assert_eq!(moved.to_steps_from_a4(), s0 + d);
        d += 1;
    }
}

#[test]
fn offset_samples() {
    let a4 = Pitch31 { note: Note::A, octave: 4 };
    assert_eq!(a4.offset(31), Pitch31 { note: Note::A, octave: 5 });
    assert_eq!(a4.offset(-31), Pitch31 { note: Note::A, octave: 3 });
    assert_eq!(a4.offset(13), Pitch31 { note: Note::D, octave: 5 });
    assert_eq!(a4.offset(2), Pitch31 { note: Note::As, octave: 4 });
    let c4 = Pitch31 { note: Note::C, octave: 4 };
    assert_eq!(c4.offset(10), Pitch31 { note: Note::E, octave: 4 });
    assert_eq!(c4.offset(-3), Pitch31 { note: Note::B, octave: 3 });
}
