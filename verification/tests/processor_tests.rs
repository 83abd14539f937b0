use retune31::processor::{convert_to_31, process_event, NoteEvent, NoteOffPolicy};
use retune31::theory::{Note, Pitch31};
use retune31::tonal_space::{note_index_exec, AssonanceMetric, ProjectionType, TonalSpace};

fn pitch(note: Note, octave: i16) -> Pitch31 {
    Pitch31 { note, octave }
}

#[test]
fn note_on_registers_the_top_candidate() {
    let mut space = TonalSpace::new();
    let ranked = convert_to_31(
        64,
        100,
        &mut space,
        AssonanceMetric::Pythagorean,
        ProjectionType::Meantone17,
    );
    assert_eq!(ranked[0].0, pitch(Note::E, 4));
    // The chosen realization now sounds, tagged with its source key.
    let e = &space.notes[note_index_exec(Note::E)];
    assert_eq!(e.len(), 1);
    assert_eq!(e[0].pitch, pitch(Note::E, 4));
    assert_eq!(e[0].midi_key, 64);
    assert_eq!(space.note_order, vec![Note::E, Note::C]);
}

#[test]
fn note_on_can_evict_by_clash() {
    let mut space = TonalSpace::new();
    // One semitone above C4: the chosen realization clashes with C4 and
    // evicts it.
    let ranked = convert_to_31(
        61,
        100,
        &mut space,
        AssonanceMetric::Pythagorean,
        ProjectionType::Meantone17,
    );
    assert!(ranked.len() >= 1);
    let top = ranked[0].0;
    assert!(space.notes[note_index_exec(Note::C)].is_empty());
    assert_eq!(space.note_order, vec![top.note]);
}

#[test]
fn process_event_handles_note_on() {
    let mut space = TonalSpace::new();
    let r = process_event(
        &mut space,
        NoteEvent::NoteOn { key: 64, vel: 80 },
        AssonanceMetric::Pythagorean,
        ProjectionType::Meantone17,
        NoteOffPolicy::LetClashEvict,
    );
    let ranked = r.expect("a note-on yields ranked candidates");
    assert_eq!(ranked[0].0, pitch(Note::E, 4));
    assert_eq!(space.note_order, vec![Note::E, Note::C]);
}

#[test]
fn process_event_ignores_note_off_and_controller() {
    let mut space = TonalSpace::new();
    let off = process_event(
        &mut space,
        NoteEvent::NoteOff { key: 60, vel: 0 },
        AssonanceMetric::Pythagorean,
        ProjectionType::Meantone17,
        NoteOffPolicy::LetClashEvict,
    );
    assert!(off.is_none());
    let ctl = process_event(
        &mut space,
        NoteEvent::Controller { controller: 7, value: 100 },
        AssonanceMetric::Pythagorean,
        ProjectionType::Meantone17,
        NoteOffPolicy::LetClashEvict,
    );
    assert!(ctl.is_none());
    // The space still holds only the seed context.
    assert_eq!(space.note_order, vec![Note::C]);
    assert_eq!(space.notes[note_index_exec(Note::C)].len(), 1);
}

#[test]
fn note_off_releases_under_evicting_policy() {
    let mut space = TonalSpace::new();
    let off = process_event(
        &mut space,
        NoteEvent::NoteOff { key: 60, vel: 0 },
        AssonanceMetric::Pythagorean,
        ProjectionType::Meantone17,
        NoteOffPolicy::EvictOnNoteOff,
    );
    assert!(off.is_none());
    // The seed entry was produced by key 60, so its release empties the
    // space.
    assert!(space.note_order.is_empty());
    assert!(space.notes[note_index_exec(Note::C)].is_empty());
}

#[test]
fn note_off_releases_only_its_own_key() {
    let mut space = TonalSpace::empty();
    space.insert(pitch(Note::C, 4), 60);
    space.insert(pitch(Note::G, 4), 67);
    space.release_key(67);
    assert_eq!(space.note_order, vec![Note::C]);
    assert!(space.notes[note_index_exec(Note::G)].is_empty());
    assert_eq!(space.notes[note_index_exec(Note::C)].len(), 1);
}

#[test]
fn empty_space_yields_no_candidates() {
    let mut space = TonalSpace::empty();
    let ranked = convert_to_31(
        64,
        100,
        &mut space,
        AssonanceMetric::Pythagorean,
        ProjectionType::Meantone17,
    );
    assert!(ranked.is_empty());
    assert!(space.note_order.is_empty());
}
