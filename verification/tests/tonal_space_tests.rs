use retune31::theory::{Note, Pitch31};
use retune31::tonal_space::{
    note_index_exec, AssonanceMetric, ProjectionType, TSPitch, TonalSpace,
};

fn pitch(note: Note, octave: i16) -> Pitch31 {
    Pitch31 { note, octave }
}

#[test]
fn new_space_is_seeded_with_c4() {
    let space = TonalSpace::new();
    assert_eq!(space.note_order, vec![Note::C]);
    let c = &space.notes[note_index_exec(Note::C)];
    assert_eq!(c.len(), 1);
    assert_eq!(c[0].pitch, pitch(Note::C, 4));
    assert_eq!(c[0].midi_key, 60);
    assert_eq!(c[0].clash_counter, 0);
}

#[test]
fn empty_space_has_no_entries() {
    let space = TonalSpace::empty();
    assert!(space.note_order.is_empty());
    for i in 0..31 {
        assert!(space.notes[i].is_empty());
    }
}

#[test]
fn default_space_is_empty() {
    let space = TonalSpace::default();
    assert!(space.note_order.is_empty());
    for i in 0..31 {
        assert!(space.notes[i].is_empty());
    }
}

// Idempotent insert: registering the identical pitch and source key twice
// leaves exactly one entry for that pitch.
#[test]
fn insert_is_idempotent() {
    let mut space = TonalSpace::empty();
    space.insert(pitch(Note::C, 4), 60);
    space.insert(pitch(Note::C, 4), 60);
    let c = &space.notes[note_index_exec(Note::C)];
    assert_eq!(c.len(), 1);
    assert_eq!(c[0].pitch, pitch(Note::C, 4));
    assert_eq!(space.note_order, vec![Note::C]);
}

#[test]
fn same_class_other_octave_coexists() {
    let mut space = TonalSpace::empty();
    space.insert(pitch(Note::C, 4), 60);
    space.insert(pitch(Note::C, 5), 72);
    let c = &space.notes[note_index_exec(Note::C)];
    assert_eq!(c.len(), 2);
    assert_eq!(space.note_order, vec![Note::C]);
}

// Clash eviction: C#4 lands within the semitone threshold of C4, so the
// older pitch leaves the space.
#[test]
fn semitone_clash_evicts_older_pitch() {
    let mut space = TonalSpace::empty();
    space.insert(pitch(Note::C, 4), 60);
    space.insert(pitch(Note::Cs, 4), 61);
    assert!(space.notes[note_index_exec(Note::C)].is_empty());
    let cs = &space.notes[note_index_exec(Note::Cs)];
    assert_eq!(cs.len(), 1);
    assert_eq!(cs[0].pitch, pitch(Note::Cs, 4));
    assert_eq!(space.note_order, vec![Note::Cs]);
}

// With the octave-displacement threshold at its default of 0, an inverted
// clash (a major seventh standing in for a minor second) evicts just as the
// in-octave clash does.
#[test]
fn octave_displaced_clash_also_evicts() {
    let mut space = TonalSpace::empty();
    space.insert(pitch(Note::B, 4), 71);
    space.insert(pitch(Note::C, 4), 60);
    assert!(space.notes[note_index_exec(Note::B)].is_empty());
    assert_eq!(space.note_order, vec![Note::C]);
}

#[test]
fn distant_classes_coexist() {
    let mut space = TonalSpace::empty();
    space.insert(pitch(Note::C, 4), 60);
    space.insert(pitch(Note::G, 4), 67);
    assert_eq!(space.notes[note_index_exec(Note::C)].len(), 1);
    assert_eq!(space.notes[note_index_exec(Note::G)].len(), 1);
    assert_eq!(space.note_order, vec![Note::G, Note::C]);
}

#[test]
fn reinserting_a_class_moves_it_to_the_front() {
    let mut space = TonalSpace::empty();
    space.insert(pitch(Note::C, 4), 60);
    space.insert(pitch(Note::G, 4), 67);
    space.insert(pitch(Note::C, 5), 72);
    assert_eq!(space.note_order, vec![Note::C, Note::G]);
}

#[test]
fn meantone17_single_option_projection() {
    let t = TSPitch::new(pitch(Note::A, 4), 69);
    // A perfect fifth up (7 semitones) has exactly one 31-EDO realization.
    let cands = t.get_candidate_projections(76, ProjectionType::Meantone17);
    assert_eq!(cands, vec![pitch(Note::E, 5)]);
}

#[test]
fn meantone17_two_option_projection() {
    let t = TSPitch::new(pitch(Note::A, 4), 69);
    // A minor second up (1 semitone) splits into sharp- and flat-side
    // spellings.
    let cands = t.get_candidate_projections(70, ProjectionType::Meantone17);
    assert_eq!(cands, vec![pitch(Note::As, 4), pitch(Note::Bb, 4)]);
}

#[test]
fn meantone31_three_option_projection() {
    let t = TSPitch::new(pitch(Note::A, 4), 69);
    // A perfect fourth up (5 semitones) offers down, neutral and up
    // realizations under the unison-keeping mapping.
    let cands = t.get_candidate_projections(74, ProjectionType::Meantone31KeepUnison);
    assert_eq!(cands, vec![pitch(Note::D, 5), pitch(Note::Cx, 5), pitch(Note::Ebb, 5)]);
}

#[test]
fn projection_octave_below() {
    let t = TSPitch::new(pitch(Note::A, 4), 69);
    // A perfect fifth down: negative distances split into octave and
    // semitone class Euclideanly.
    let cands = t.get_candidate_projections(62, ProjectionType::Meantone17);
    assert_eq!(cands, vec![pitch(Note::D, 4)]);
}

#[test]
fn assonance_is_the_fifths_distance() {
    let t = TSPitch::new(pitch(Note::C, 4), 60);
    assert_eq!(t.get_assonance_coefficient(pitch(Note::G, 4), AssonanceMetric::Pythagorean), 1);
    assert_eq!(t.get_assonance_coefficient(pitch(Note::E, 4), AssonanceMetric::Pythagorean), 4);
    assert_eq!(t.get_assonance_coefficient(pitch(Note::C, 5), AssonanceMetric::Pythagorean), 0);
}

// Projection scenario: with one active pitch C4 (source key 60) and
// incoming key 64, Meantone17 maps the major third to the single offset
// +10, giving E4 as the only (hence top-ranked) candidate.
#[test]
fn major_third_projects_to_e4() {
    let space = TonalSpace::new();
    let ranked = space.convert_to_31(64, AssonanceMetric::Pythagorean, ProjectionType::Meantone17);
    assert_eq!(ranked.len(), 1);
    assert_eq!(ranked[0].0, pitch(Note::E, 4));
    // fifths distance 4, full order multiplier, one entry in the class.
    assert_eq!(ranked[0].1, 4_000_000_000_000u128);
}

// Recency decay: the class struck later contributes with the full
// multiplier, the earlier one with the decayed multiplier 0.99.
#[test]
fn later_class_outweighs_earlier_class() {
    let mut space = TonalSpace::empty();
    space.insert(pitch(Note::C, 4), 60);
    space.insert(pitch(Note::D, 4), 62);
    assert_eq!(space.note_order, vec![Note::D, Note::C]);
    let ranked = space.convert_to_31(62, AssonanceMetric::Pythagorean, ProjectionType::Meantone17);
    // Both entries project the incoming D onto D4: the D entry at distance
    // 0 with the full multiplier, the C entry at fifths distance 2 with the
    // decayed multiplier 990_000_000_000.
    assert_eq!(ranked.len(), 1);
    assert_eq!(ranked[0].0, pitch(Note::D, 4));
    assert_eq!(ranked[0].1, 2 * 990_000_000_000u128);
}

// Octave doubling: two entries of one class each contribute their share
// divided by the entry count of the class.
#[test]
fn octave_doubled_entries_split_their_weight() {
    let mut space = TonalSpace::empty();
    space.insert(pitch(Note::C, 4), 60);
    space.insert(pitch(Note::C, 5), 72);
    let ranked = space.convert_to_31(64, AssonanceMetric::Pythagorean, ProjectionType::Meantone17);
    assert_eq!(ranked.len(), 1);
    assert_eq!(ranked[0].0, pitch(Note::E, 4));
    // Each of the two entries contributes 4 * SCORE_SCALE / 2.
    assert_eq!(ranked[0].1, 4_000_000_000_000u128);
}

#[test]
fn ranking_is_sorted_ascending() {
    let mut space = TonalSpace::empty();
    space.insert(pitch(Note::C, 4), 60);
    space.insert(pitch(Note::G, 4), 67);
    // A minor third above C: two candidate spellings, scored against both
    // active classes.
    let ranked = space.convert_to_31(63, AssonanceMetric::Pythagorean, ProjectionType::Meantone17);
    assert!(ranked.len() >= 2);
    for w in 1..ranked.len() {
        assert!(ranked[w - 1].1 <= ranked[w].1);
    }
}
