//! Closed arithmetic over the 31 enharmonically distinct pitch classes of the
//! 31-tone-equal-temperament octave, and over absolute pitches (class plus
//! octave).
//!
//! Every class sits at a fixed number of steps (dieses) from the reference
//! class `A`; the representative range is `[-23, 7]`, and every integer step
//! offset reduces to exactly one class by Euclidean reduction modulo 31.

use vstd::prelude::*;
use vstd::string::StringSliceAdditionalSpecFns;

verus! {

/// One of the 31 enharmonically distinct pitch classes per octave.
///
/// `Cb` is spelled `BuCb` as a reminder that the octave boundary sits exactly
/// at `C`: `Bu4` and `Cb4` name the same class but belong to different
/// octaves, so the class on its own is octave-neutral.
#[derive(Copy, Clone, PartialEq, Eq, Structural, Hash, Debug)]
pub enum Note {
    Abb, Ebb, Bbb,
    Fb, BuCb, Gb, Db, Ab, Eb, Bb,
    F, C, G, D, A, E, B,
    Fs, Cs, Gs, Ds, As, Es, Bs,
    Fx, Cx, Gx, DxFbb, AxCbb, ExGbb, BxDbb,
}

/// The class whose step offset from `A` reduces to `i - 23`, for `0 <= i < 31`.
pub open spec fn note_from_index(i: int) -> Note {
    if i == 0 { Note::C } else if i == 1 { Note::BxDbb } else if i == 2 { Note::Cs }
    else if i == 3 { Note::Db } else if i == 4 { Note::Cx } else if i == 5 { Note::D }
    else if i == 6 { Note::Ebb } else if i == 7 { Note::Ds } else if i == 8 { Note::Eb }
    else if i == 9 { Note::DxFbb } else if i == 10 { Note::E } else if i == 11 { Note::Fb }
    else if i == 12 { Note::Es } else if i == 13 { Note::F } else if i == 14 { Note::ExGbb }
    else if i == 15 { Note::Fs } else if i == 16 { Note::Gb } else if i == 17 { Note::Fx }
    else if i == 18 { Note::G } else if i == 19 { Note::Abb } else if i == 20 { Note::Gs }
    else if i == 21 { Note::Ab } else if i == 22 { Note::Gx } else if i == 23 { Note::A }
    else if i == 24 { Note::Bbb } else if i == 25 { Note::As } else if i == 26 { Note::Bb }
    else if i == 27 { Note::AxCbb } else if i == 28 { Note::B } else if i == 29 { Note::BuCb }
    else { Note::Bs }
}

/// Euclidean reduction of an arbitrary step offset into the representative
/// range `[-23, 7]`.
pub open spec fn norm_steps(n: int) -> int {
    ((n + 23) % 31) - 23
}

/// The number of 31-EDO fifths (each 13 steps) needed to connect two classes
/// whose step offsets differ by `d` in absolute value, `0 <= d <= 30`: the
/// unique `r` in `[0, 15]` with `13 * r` congruent to `d` or `-d` modulo 31.
pub open spec fn fifths_of_dist(d: int) -> int {
    if d == 0 { 0 } else if d == 1 { 12 } else if d == 2 { 7 }
    else if d == 3 { 5 } else if d == 4 { 14 } else if d == 5 { 2 }
    else if d == 6 { 10 } else if d == 7 { 9 } else if d == 8 { 3 }
    else if d == 9 { 15 } else if d == 10 { 4 } else if d == 11 { 8 }
    else if d == 12 { 11 } else if d == 13 { 1 } else if d == 14 { 13 }
    else if d == 15 { 6 } else if d == 16 { 6 } else if d == 17 { 13 }
    else if d == 18 { 1 } else if d == 19 { 11 } else if d == 20 { 8 }
    else if d == 21 { 4 } else if d == 22 { 15 } else if d == 23 { 3 }
    else if d == 24 { 9 } else if d == 25 { 10 } else if d == 26 { 2 }
    else if d == 27 { 14 } else if d == 28 { 5 } else if d == 29 { 7 }
    else { 12 }
}

/// Absolute value over mathematical integers.
pub open spec fn abs_int(n: int) -> int {
    if n < 0 { -n } else { n }
}

impl Note {
    /// Step offset of this class from `A` within one octave, in `[-23, 7]`.
    pub open spec fn spec_steps_from_a(self) -> int {
        match self {
            Note::A => 0, Note::Bbb => 1, Note::As => 2, Note::Bb => 3, Note::AxCbb => 4,
            Note::B => 5, Note::BuCb => 6, Note::Bs => 7,
            Note::C => -23, Note::BxDbb => -22, Note::Cs => -21, Note::Db => -20, Note::Cx => -19,
            Note::D => -18, Note::Ebb => -17, Note::Ds => -16, Note::Eb => -15, Note::DxFbb => -14,
            Note::E => -13, Note::Fb => -12, Note::Es => -11,
            Note::F => -10, Note::ExGbb => -9, Note::Fs => -8, Note::Gb => -7, Note::Fx => -6,
            Note::G => -5, Note::Abb => -4, Note::Gs => -3, Note::Ab => -2, Note::Gx => -1,
        }
    }

    /// The canonical class of an arbitrary step offset from `A`: total over
    /// all integers.
    pub open spec fn spec_from_steps(n: int) -> Note {
        note_from_index((n + 23) % 31)
    }

    /// The fifths distance between two classes, as a spec value.
    pub open spec fn spec_fifths_to(self, other: Note) -> int {
        fifths_of_dist(abs_int(self.spec_steps_from_a() - other.spec_steps_from_a()))
    }

    /// Returns the number of steps this class is from `A` in the same octave:
    /// `G` gives `-5`, since `G` sits 5 dieses below `A`.
    pub fn to_steps_from_a(self) -> (r: i16)
        ensures
            r as int == self.spec_steps_from_a(),
            -23 <= r <= 7,
    {
        match self {
            Note::A => 0, Note::Bbb => 1, Note::As => 2, Note::Bb => 3, Note::AxCbb => 4,
            Note::B => 5, Note::BuCb => 6, Note::Bs => 7,
            Note::C => -23, Note::BxDbb => -22, Note::Cs => -21, Note::Db => -20, Note::Cx => -19,
            Note::D => -18, Note::Ebb => -17, Note::Ds => -16, Note::Eb => -15, Note::DxFbb => -14,
            Note::E => -13, Note::Fb => -12, Note::Es => -11,
            Note::F => -10, Note::ExGbb => -9, Note::Fs => -8, Note::Gb => -7, Note::Fx => -6,
            Note::G => -5, Note::Abb => -4, Note::Gs => -3, Note::Ab => -2, Note::Gx => -1,
        }
    }

    /// Total step-to-class reduction: any integer offset from `A` names
    /// exactly one class, found by Euclidean reduction into `[-23, 7]`.
    pub fn from_steps(n: i16) -> (r: Note)
        ensures
            r == Note::spec_from_steps(n as int),
            r.spec_steps_from_a() == norm_steps(n as int),
            (r.spec_steps_from_a() - n as int) % 31 == 0,
    {
        // 32798 is a multiple of 31 large enough to make the shifted value
        // non-negative for every i16, so the machine remainder agrees with
        // Euclidean reduction.
        let shifted: i32 = n as i32 + 23 + 32798;
        let i: i32 = shifted % 31;
        proof {
            lemma_shift_mod(n as int);
            lemma_norm_steps_congruent(n as int);
        }
        match i {
            0 => Note::C, 1 => Note::BxDbb, 2 => Note::Cs, 3 => Note::Db, 4 => Note::Cx,
            5 => Note::D, 6 => Note::Ebb, 7 => Note::Ds, 8 => Note::Eb, 9 => Note::DxFbb,
            10 => Note::E, 11 => Note::Fb, 12 => Note::Es, 13 => Note::F, 14 => Note::ExGbb,
            15 => Note::Fs, 16 => Note::Gb, 17 => Note::Fx, 18 => Note::G, 19 => Note::Abb,
            20 => Note::Gs, 21 => Note::Ab, 22 => Note::Gx, 23 => Note::A, 24 => Note::Bbb,
            25 => Note::As, 26 => Note::Bb, 27 => Note::AxCbb, 28 => Note::B, 29 => Note::BuCb,
            _ => Note::Bs,
        }
    }

    /// Returns the smallest number of 31-EDO fifths it takes to traverse from
    /// this class to `other` along the circle of fifths; always in `[0, 15]`.
    pub fn fifths_to(self, other: Note) -> (r: u8)
        ensures
            r as int == self.spec_fifths_to(other),
            r <= 15,
    {
        let a = self.to_steps_from_a();
        let b = other.to_steps_from_a();
        let d: i16 = if a >= b { a - b } else { b - a };
        match d {
            0 => 0, 1 => 12, 2 => 7, 3 => 5, 4 => 14, 5 => 2, 6 => 10, 7 => 9,
            8 => 3, 9 => 15, 10 => 4, 11 => 8, 12 => 11, 13 => 1, 14 => 13,
            15 => 6, 16 => 6, 17 => 13, 18 => 1, 19 => 11, 20 => 8, 21 => 4,
            22 => 15, 23 => 3, 24 => 9, 25 => 10, 26 => 2, 27 => 14, 28 => 5,
            29 => 7, _ => 12,
        }
    }
}

/// A parse failure for a pitch-class spelling or a pitch name.
#[derive(Copy, Clone, PartialEq, Eq, Structural, Debug)]
pub enum ParseError {
    /// The letter is absent or the accidental token is not recognized.
    InvalidSpelling,
    /// The octave suffix is absent, is not an integer, or does not fit.
    InvalidOctave,
}

/// Lowest octave number a pitch may carry for step arithmetic to stay within
/// machine range.
pub const MIN_OCTAVE: i16 = -1000;

/// Highest octave number a pitch may carry for step arithmetic to stay within
/// machine range.
pub const MAX_OCTAVE: i16 = 1000;

/// A pitch class paired with an octave number. The octave begins exactly at
/// `C`: `B4` and `Cb5` sound the same step but are written in different
/// octaves.
#[derive(Copy, Clone, PartialEq, Eq, Structural, Debug)]
pub struct Pitch31 {
    pub note: Note,
    pub octave: i16,
}

/// Step offset of the natural letter written as byte `b`, when it is one of
/// `A` through `G`.
pub open spec fn letter_steps(b: u8) -> Option<int> {
    if b == 65 { Some(0) }  // A
    else if b == 66 { Some(5) }  // B
    else if b == 67 { Some(-23) }  // C
    else if b == 68 { Some(-18) }  // D
    else if b == 69 { Some(-13) }  // E
    else if b == 70 { Some(-10) }  // F
    else if b == 71 { Some(-5) }  // G
    else { None }
}

/// Step adjustment of a recognized accidental token (the bytes after the
/// letter): each sharp adds 2 steps, each flat subtracts 2, and the
/// quarter-tone marks `^` and `v` add and subtract 1.
pub open spec fn acc_delta(acc: Seq<u8>) -> Option<int> {
    if acc.len() == 0 { Some(0) }
    else if acc.len() == 1 {
        if acc[0] == 98 { Some(-2) }  // b
        else if acc[0] == 35 { Some(2) }  // #
        else if acc[0] == 120 { Some(4) }  // x
        else if acc[0] == 94 { Some(1) }  // ^
        else if acc[0] == 118 { Some(-1) }  // v
        else { None }
    } else if acc.len() == 2 {
        if acc[0] == 98 && acc[1] == 98 { Some(-4) }  // bb
        else if acc[0] == 98 && acc[1] == 118 { Some(-3) }  // bv
        else if acc[0] == 35 && acc[1] == 118 { Some(1) }  // #v
        else if acc[0] == 35 && acc[1] == 94 { Some(3) }  // #^
        else if acc[0] == 120 && acc[1] == 118 { Some(3) }  // xv
        else { None }
    } else if acc.len() == 3 {
        if acc[0] == 98 && acc[1] == 98 && acc[2] == 94 { Some(-3) }  // bb^
        else { None }
    } else {
        None
    }
}

/// The class named by a spelling: a letter `A`-`G` followed by a recognized
/// accidental token, reduced onto the 31-step lattice. `None` when the
/// spelling is not recognized.
pub open spec fn spelling_to_note(bs: Seq<u8>) -> Option<Note> {
    if bs.len() == 0 {
        None
    } else {
        match (letter_steps(bs[0]), acc_delta(bs.skip(1))) {
            (Some(ls), Some(d)) => Some(Note::spec_from_steps(ls + d)),
            _ => None,
        }
    }
}

/// What parsing a spelling returns: the named class, or `InvalidSpelling`.
pub open spec fn spec_parse_note(bs: Seq<u8>) -> Result<Note, ParseError> {
    match spelling_to_note(bs) {
        Some(n) => Ok(n),
        None => Err(ParseError::InvalidSpelling),
    }
}

/// True for the byte that can begin an octave suffix: a minus sign or a digit.
pub open spec fn is_oct_start(b: u8) -> bool {
    b == 45 || (48 <= b && b <= 57)
}

/// Index of the first byte that can begin the octave suffix (the length of
/// the sequence when there is none): the split between spelling and octave.
pub open spec fn split_point(bs: Seq<u8>) -> int
    decreases bs.len(),
{
    if bs.len() == 0 { 0 }
    else if is_oct_start(bs[0]) { 0 }
    else { 1 + split_point(bs.skip(1)) }
}

/// True when every byte is a decimal digit.
pub open spec fn all_digits(ds: Seq<u8>) -> bool {
    forall|i: int| 0 <= i < ds.len() ==> 48 <= #[trigger] ds[i] <= 57
}

/// The number written by a sequence of decimal digits, most significant
/// first.
pub open spec fn digits_value(ds: Seq<u8>) -> int
    decreases ds.len(),
{
    if ds.len() == 0 { 0 } else { digits_value(ds.drop_last()) * 10 + (ds.last() - 48) }
}

/// The signed integer written by an octave suffix: an optional minus sign
/// followed by one or more digits and nothing else. `None` otherwise.
pub open spec fn octave_of_bytes(os: Seq<u8>) -> Option<int> {
    if os.len() > 0 && os[0] == 45 {
        if os.len() > 1 && all_digits(os.skip(1)) { Some(-digits_value(os.skip(1))) } else { None }
    } else if os.len() > 0 && all_digits(os) {
        Some(digits_value(os))
    } else {
        None
    }
}

/// What parsing a pitch name returns: the bytes split at the first byte that
/// can begin an octave suffix, the spelling before it, the octave after it.
/// The octave must fit an `i16`.
pub open spec fn spec_parse_pitch(bs: Seq<u8>) -> Result<Pitch31, ParseError> {
    let sp = split_point(bs);
    match spelling_to_note(bs.take(sp)) {
        None => Err(ParseError::InvalidSpelling),
        Some(note) => match octave_of_bytes(bs.skip(sp)) {
            None => Err(ParseError::InvalidOctave),
            Some(v) => if -32768 <= v <= 32767 {
                Ok(Pitch31 { note, octave: v as i16 })
            } else {
                Err(ParseError::InvalidOctave)
            },
        },
    }
}

impl Pitch31 {
    /// The octave lies in the range on which step arithmetic is closed.
    pub open spec fn wf(self) -> bool {
        MIN_OCTAVE as int <= self.octave as int <= MAX_OCTAVE as int
    }

    /// Absolute step offset from the reference pitch `A4`.
    pub open spec fn spec_steps_from_a4(self) -> int {
        self.note.spec_steps_from_a() + 31 * (self.octave as int - 4)
    }

    /// Parses a pitch name: a spelling as accepted by `Note::new` followed by
    /// an integer octave suffix, e.g. `C#4` or `Bb-1`.
    pub fn new(s: &str) -> (r: Result<Pitch31, ParseError>)
        ensures
            r == spec_parse_pitch(s.spec_bytes()),
    {
        let b: &[u8] = s.as_bytes();
        let n: usize = b.len();
        let mut sp: usize = 0;
        while sp < n && !(b[sp] == 45 || (48 <= b[sp] && b[sp] <= 57))
            invariant
                0 <= sp <= n,
                n == b@.len(),
                forall|j: int| 0 <= j < sp ==> !is_oct_start(b@[j]),
            decreases n - sp,
        {
            sp = sp + 1;
        }
        proof {
            lemma_split_point_at(b@, sp as int);
        }
        let note = match parse_spelling_range(b, 0, sp) {
            Ok(note) => note,
            Err(e) => {
                proof {
                    assert(b@.subrange(0, sp as int) =~= b@.take(sp as int));
                }
                return Err(ParseError::InvalidSpelling);
            },
        };
        proof {
            assert(b@.subrange(0, sp as int) =~= b@.take(sp as int));
        }
        if sp == n {
            proof {
                assert(b@.skip(sp as int).len() == 0);
                assert(octave_of_bytes(b@.skip(sp as int)) == None::<int>);
            }
            return Err(ParseError::InvalidOctave);
        }
        proof {
            assert(b@.skip(sp as int)[0] == b@[sp as int]);
        }
        let neg: bool = b[sp] == 45;
        let dstart: usize = if neg { sp + 1 } else { sp };
        if dstart == n {
            proof {
                assert(b@.skip(sp as int).len() == 1);
                assert(octave_of_bytes(b@.skip(sp as int)) == None::<int>);
            }
            return Err(ParseError::InvalidOctave);
        }
        let ghost ds: Seq<u8> = b@.skip(dstart as int);
        let mut j: usize = dstart;
        let mut val: u32 = 0;
        while j < n
            invariant
                dstart <= j <= n,
                n == b@.len(),
                b@ == s.spec_bytes(),
                sp as int == split_point(b@),
                sp < n,
                spelling_to_note(b@.take(sp as int)) == Some(note),
                neg == (b@[sp as int] == 45),
                dstart == if neg { sp + 1 } else { sp as int },
                dstart < n,
                ds == b@.skip(dstart as int),
                forall|k: int| dstart <= k < j ==> 48 <= #[trigger] b@[k] <= 57,
                digits_value(ds.take(j - dstart)) <= 99999 ==>
                    val == digits_value(ds.take(j - dstart)),
                digits_value(ds.take(j - dstart)) >= 100000 ==> val >= 100000,
                digits_value(ds.take(j - dstart)) >= 0,
                val <= 1000009,
            decreases n - j,
        {
            let c: u8 = b[j];
            if !(48 <= c && c <= 57) {
                proof {
                    assert(ds[j - dstart] == b@[j as int]);
                    assert(!all_digits(ds));
                    if neg {
                        assert(b@.skip(sp as int)[0] == b@[sp as int]);
                        assert(b@.skip(sp as int).skip(1) =~= ds);
                    } else {
                        assert(b@.skip(sp as int) =~= ds);
                        assert(ds[0] == b@[sp as int]);
                    }
                }
                return Err(ParseError::InvalidOctave);
            }
            proof {
                let m = (j - dstart) as int;
                assert(ds.take(m + 1).drop_last() =~= ds.take(m));
                assert(ds.take(m + 1).last() == ds[m]);
                assert(ds[m] == b@[j as int]);
            }
            if val < 100000 {
                val = val * 10 + ((c - 48) as u32);
            }
            j = j + 1;
        }
        proof {
            assert(ds.take(n - dstart as int) =~= ds);
            assert(all_digits(ds));
            assert(ds.len() > 0);
            if neg {
                assert(b@.skip(sp as int)[0] == b@[sp as int]);
                assert(b@.skip(sp as int).skip(1) =~= ds);
            } else {
                assert(b@.skip(sp as int) =~= ds);
                assert(ds[0] == b@[sp as int]);
            }
        }
        let limit: u32 = if neg { 32768 } else { 32767 };
        if val > limit {
            return Err(ParseError::InvalidOctave);
        }
        let octave: i16 = if neg { (-(val as i32)) as i16 } else { val as i16 };
        Ok(Pitch31 { note, octave })
    }

    /// Absolute step offset from the reference pitch `A4`:
    /// `steps(class) + 31 * (octave - 4)`.
    pub fn to_steps_from_a4(&self) -> (r: i16)
        requires
            self.wf(),
        ensures
            r as int == self.spec_steps_from_a4(),
    {
        let v: i32 = self.note.to_steps_from_a() as i32 + 31 * (self.octave as i32 - 4);
        v as i16
    }

    /// Moves this pitch by `delta` steps: the class of the result is the
    /// Euclidean reduction of the new absolute step count, and the octave
    /// carries the overflow, so that `to_steps_from_a4` of the result equals
    /// `to_steps_from_a4(self) + delta` exactly.
    pub fn offset(self, delta: i16) -> (r: Pitch31)
        requires
            self.wf(),
            -31900 <= self.spec_steps_from_a4() + delta as int <= 31900,
        ensures
            r == pitch_of_steps(self.spec_steps_from_a4() + delta as int),
            r.spec_steps_from_a4() == self.spec_steps_from_a4() + delta as int,
            r.note == Note::spec_from_steps(self.spec_steps_from_a4() + delta as int),
    {
        let t: i32 = self.to_steps_from_a4() as i32 + delta as i32;
        let note = Note::from_steps(t as i16);
        let ns: i32 = note.to_steps_from_a() as i32;
        // 31930 is a multiple of 31 large enough to make the dividend
        // non-negative, so the machine quotient agrees with Euclidean
        // division.
        let u: i32 = t - ns + 31930;
        proof {
            assert((ns - t) % 31 == 0);
            lemma_steps_diff_div(t as int, ns as int);
        }
        let q: i32 = u / 31;
        let octave: i32 = q - 1030 + 4;
        proof {
            assert(31 * (q - 1030) == t - ns);
            vstd::arithmetic::div_mod::lemma_fundamental_div_mod(t as int - ns as int, 31);
            assert((t - ns) / 31 == q - 1030) by {
                vstd::arithmetic::div_mod::lemma_div_multiples_vanish(q - 1030, 31);
            }
        }
        Pitch31 { note, octave: octave as i16 }
    }
}

/// The canonical pitch whose absolute step count is `s`: the reduced class,
/// with the octave carrying the rest.
pub open spec fn pitch_of_steps(s: int) -> Pitch31 {
    Pitch31 { note: Note::spec_from_steps(s), octave: (4 + (s - norm_steps(s)) / 31) as i16 }
}

/// Only one value in `[0, 15]` can satisfy the fifths characterization for
/// a given step difference: together with `lemma_fifths_characterization`
/// this pins the distance completely.
#[verifier::rlimit(100)]
pub proof fn lemma_fifths_unique(d: int, r1: int, r2: int)
    requires
        0 <= r1 <= 15,
        0 <= r2 <= 15,
        (13 * r1 - d) % 31 == 0 || (13 * r1 + d) % 31 == 0,
        (13 * r2 - d) % 31 == 0 || (13 * r2 + d) % 31 == 0,
    ensures
        r1 == r2,
{
    if (13 * r1 - d) % 31 == 0 && (13 * r2 - d) % 31 == 0 {
        vstd::arithmetic::div_mod::lemma_mod_adds(13 * r1 - d, -(13 * r2 - d), 31);
        vstd::arithmetic::div_mod::lemma_mod_neg_neg(13 * r2 - d, 31);
        assert((13 * (r1 - r2)) % 31 == 0);
    } else if (13 * r1 + d) % 31 == 0 && (13 * r2 + d) % 31 == 0 {
        vstd::arithmetic::div_mod::lemma_mod_adds(13 * r1 + d, -(13 * r2 + d), 31);
        vstd::arithmetic::div_mod::lemma_mod_neg_neg(13 * r2 + d, 31);
        assert((13 * (r1 - r2)) % 31 == 0);
    } else if (13 * r1 - d) % 31 == 0 && (13 * r2 + d) % 31 == 0 {
        vstd::arithmetic::div_mod::lemma_mod_adds(13 * r1 - d, 13 * r2 + d, 31);
        assert((13 * (r1 + r2)) % 31 == 0);
    } else {
        vstd::arithmetic::div_mod::lemma_mod_adds(13 * r1 + d, 13 * r2 - d, 31);
        assert((13 * (r1 + r2)) % 31 == 0);
    }
    if r1 != r2 {
        lemma_small_fifth_multiple(r1 - r2);
        lemma_small_fifth_multiple(r1 + r2);
        assert(false);
    }
}

/// No multiple of 13 by a number in `[-30, 30]` other than zero lands on a
/// multiple of 31: the fifth generates the whole 31-step circle.
proof fn lemma_small_fifth_multiple(s: int)
    requires
        -30 <= s <= 30,
        s != 0,
    ensures
        (13 * s) % 31 != 0,
{
    if (13 * s) % 31 == 0 {
        let q = (13 * s) / 31;
        vstd::arithmetic::div_mod::lemma_fundamental_div_mod(13 * s, 31);
        assert(13 * s == 31 * q);
        assert(-390 <= 13 * s <= 390);
        assert(-12 <= q <= 12);
    }
}

/// The canonical pitch of a step count has exactly that step count: class
/// and octave decomposition loses nothing.
pub proof fn lemma_pitch_of_steps_roundtrip(s: int)
    requires
        -32000 <= s <= 32000,
    ensures
        pitch_of_steps(s).spec_steps_from_a4() == s,
{
    let nm = norm_steps(s);
    vstd::arithmetic::div_mod::lemma_mod_bound(s + 23, 31);
    assert(-23 <= nm <= 7);
    assert(Note::spec_from_steps(s).spec_steps_from_a() == nm) by {
        let i = (s + 23) % 31;
        assert(0 <= i < 31);
        assert(note_from_index(i).spec_steps_from_a() == i - 23);
    }
    vstd::arithmetic::div_mod::lemma_fundamental_div_mod(s + 23, 31);
    let q = (s + 23) / 31;
    assert(s - nm == 31 * q);
    assert((s - nm) / 31 == q) by {
        vstd::arithmetic::div_mod::lemma_div_multiples_vanish(q, 31);
    }
    assert(-1032 <= 4 + q <= 1037);
}

/// Division facts for `offset`: the shifted dividend is an exact multiple of
/// 31, so the quotient recovers the octave displacement exactly.
proof fn lemma_steps_diff_div(t: int, ns: int)
    requires
        (ns - t) % 31 == 0,
        -31910 <= t <= 31910,
        -23 <= ns <= 7,
    ensures
        0 <= t - ns + 31930,
        t - ns + 31930 < 63900,
        31 * ((t - ns + 31930) / 31) == t - ns + 31930,
{
    let u = t - ns + 31930;
    vstd::arithmetic::div_mod::lemma_mod_add_multiples_vanish(ns - t, 31);
    assert(31930 == 31 * 1030);
    vstd::arithmetic::div_mod::lemma_add_mod_noop(ns - t, 31930, 31);
    vstd::arithmetic::div_mod::lemma_mod_multiples_basic(1030, 31);
    assert((-u) % 31 == 0);
    vstd::arithmetic::div_mod::lemma_mod_neg_neg(-u, 31);
    assert(u % 31 == 0);
    vstd::arithmetic::div_mod::lemma_fundamental_div_mod(u, 31);
}

/// `split_point` names the first index whose byte can begin an octave
/// suffix.
proof fn lemma_split_point_at(bs: Seq<u8>, i: int)
    requires
        0 <= i <= bs.len(),
        forall|j: int| 0 <= j < i ==> !is_oct_start(bs[j]),
        i < bs.len() ==> is_oct_start(bs[i]),
    ensures
        split_point(bs) == i,
    decreases bs.len(),
{
    if i == 0 {
    } else {
        assert(!is_oct_start(bs[0]));
        assert forall|j: int| 0 <= j < i - 1 implies !is_oct_start(bs.skip(1)[j]) by {
            assert(bs.skip(1)[j] == bs[j + 1]);
        }
        if i - 1 < bs.skip(1).len() {
            assert(bs.skip(1)[i - 1] == bs[i]);
        }
        lemma_split_point_at(bs.skip(1), i - 1);
    }
}

/// Parses the spelling held in `b[start..end]`; shared by the class parser
/// and the pitch parser.
fn parse_spelling_range(b: &[u8], start: usize, end: usize) -> (r: Result<Note, ParseError>)
    requires
        start <= end <= b@.len(),
    ensures
        r == spec_parse_note(b@.subrange(start as int, end as int)),
{
    let ghost bs: Seq<u8> = b@.subrange(start as int, end as int);
    let len: usize = end - start;
    if len == 0 {
        return Err(ParseError::InvalidSpelling);
    }
    proof {
        assert(bs[0] == b@[start as int]);
    }
    let ls: i16 = match b[start] {
        65 => 0,
        66 => 5,
        67 => -23,
        68 => -18,
        69 => -13,
        70 => -10,
        71 => -5,
        _ => { return Err(ParseError::InvalidSpelling); },
    };
    proof {
        assert forall|k: int| 0 <= k < len - 1 implies bs.skip(1)[k] == b@[start + 1 + k] by {
            assert(bs.skip(1)[k] == bs[k + 1]);
        }
    }
    let d: i16 = if len == 1 {
        0
    } else if len == 2 {
        match b[start + 1] {
            98 => -2,
            35 => 2,
            120 => 4,
            94 => 1,
            118 => -1,
            _ => { return Err(ParseError::InvalidSpelling); },
        }
    } else if len == 3 {
        let c1: u8 = b[start + 1];
        let c2: u8 = b[start + 2];
        if c1 == 98 && c2 == 98 { -4 }
        else if c1 == 98 && c2 == 118 { -3 }
        else if c1 == 35 && c2 == 118 { 1 }
        else if c1 == 35 && c2 == 94 { 3 }
        else if c1 == 120 && c2 == 118 { 3 }
        else { return Err(ParseError::InvalidSpelling); }
    } else if len == 4 {
        let c1: u8 = b[start + 1];
        let c2: u8 = b[start + 2];
        let c3: u8 = b[start + 3];
        if c1 == 98 && c2 == 98 && c3 == 94 { -3 }
        else { return Err(ParseError::InvalidSpelling); }
    } else {
        return Err(ParseError::InvalidSpelling);
    };
    Ok(Note::from_steps(ls + d))
}

impl Note {
    /// Parses a pitch-class spelling: a letter `A`-`G` followed by one of the
    /// recognized accidental tokens (none, `b`, `bb`, `#`, `x`, `^`, `v`,
    /// `bv`, `bb^`, `#v`, `#^`, `xv`). Enharmonically coincident spellings
    /// reduce to the same canonical class.
    pub fn new(s: &str) -> (r: Result<Note, ParseError>)
        ensures
            r == spec_parse_note(s.spec_bytes()),
    {
        let b: &[u8] = s.as_bytes();
        let r = parse_spelling_range(b, 0, b.len());
        proof {
            assert(b@.subrange(0, b@.len() as int) =~= b@);
        }
        r
    }
}

/// The shifted machine remainder used by `from_steps` agrees with the
/// Euclidean remainder of `n + 23` modulo 31.
proof fn lemma_shift_mod(n: int)
    requires
        -32768 <= n <= 32767,
    ensures
        (n + 23 + 32798) % 31 == (n + 23) % 31,
{
    vstd::arithmetic::div_mod::lemma_mod_add_multiples_vanish(n + 23, 31);
    assert(32798 == 31 * 1058);
    vstd::arithmetic::div_mod::lemma_add_mod_noop(n + 23, 32798, 31);
    vstd::arithmetic::div_mod::lemma_mod_self_0(31);
    vstd::arithmetic::div_mod::lemma_mod_multiples_basic(1058, 31);
}

/// The reduced representative differs from the given offset by a multiple
/// of 31.
proof fn lemma_norm_steps_congruent(n: int)
    ensures
        (norm_steps(n) - n) % 31 == 0,
{
    let q = (n + 23) / 31;
    vstd::arithmetic::div_mod::lemma_fundamental_div_mod(n + 23, 31);
    assert(norm_steps(n) - n == 31 * (-q)) by {
        assert(n + 23 == 31 * q + (n + 23) % 31);
    }
    vstd::arithmetic::div_mod::lemma_mod_multiples_basic(-q, 31);
}

/// Reducing a class's own step offset gives back the same class: the mapping
/// between classes and representatives in `[-23, 7]` is a bijection, so a
/// spelling survives a round trip through its step offset unchanged.
pub proof fn lemma_class_steps_roundtrip(c: Note)
    ensures
        Note::spec_from_steps(c.spec_steps_from_a()) == c,
        norm_steps(c.spec_steps_from_a()) == c.spec_steps_from_a(),
{
    assert(-23 <= c.spec_steps_from_a() <= 7);
    assert((c.spec_steps_from_a() + 23) % 31 == c.spec_steps_from_a() + 23);
}

/// The fifths distance is symmetric in its two classes.
pub proof fn lemma_fifths_symmetric(a: Note, b: Note)
    ensures
        a.spec_fifths_to(b) == b.spec_fifths_to(a),
{
}

/// The fifths distance is the length of a chain of 13-step fifths connecting
/// the two classes on the 31-step circle: `13 * r` is congruent to the step
/// difference or to its negation modulo 31, and `r` lies in `[0, 15]`.
pub proof fn lemma_fifths_characterization(a: Note, b: Note)
    ensures
        0 <= a.spec_fifths_to(b) <= 15,
        ((13 * a.spec_fifths_to(b) - (a.spec_steps_from_a() - b.spec_steps_from_a())) % 31 == 0)
            || ((13 * a.spec_fifths_to(b) + (a.spec_steps_from_a() - b.spec_steps_from_a())) % 31
            == 0),
{
    let d = abs_int(a.spec_steps_from_a() - b.spec_steps_from_a());
    assert(0 <= d <= 30);
}

} // verus!
