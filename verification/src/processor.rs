//! Event-level orchestration: the step function from a parsed note event and
//! the current tonal space to the ranked candidate decisions.
//!
//! The transport collaborator decodes raw event bytes, runs the consumption
//! loop and realizes the chosen pitches on an output device; this module
//! only decides. A note-off deliberately leaves the space untouched: entries
//! decay by clash eviction alone, the only removal policy the design
//! defines.

use vstd::prelude::*;

use crate::theory::{Pitch31, MAX_OCTAVE, MIN_OCTAVE};
use crate::tonal_space::{ranked_ok, AssonanceMetric, ProjectionType, TonalSpace};

verus! {

/// A note event as handed in by the transport collaborator, already decoded
/// from raw bytes.
#[derive(Copy, Clone, PartialEq, Eq, Structural, Debug)]
pub enum NoteEvent {
    NoteOn { key: u8, vel: u8 },
    NoteOff { key: u8, vel: u8 },
    Controller { controller: u8, value: u8 },
}

/// What a note-off does to the tonal space.
#[derive(Copy, Clone, PartialEq, Eq, Structural, Debug)]
pub enum NoteOffPolicy {
    /// A note-off is ignored: entries decay by clash eviction alone.
    LetClashEvict,
    /// A note-off releases every entry its key produced.
    EvictOnNoteOff,
}

/// Converts one incoming 12-EDO note-on into its ranked 31-EDO candidates
/// and registers the best realization into the tonal space.
///
/// The ranking is taken against the space as it stood when the key was
/// struck. When the list is non-empty and its top candidate lies in the
/// registrable octave range, that pitch is inserted with the incoming key as
/// its source; otherwise the space is left unchanged. The velocity plays no
/// part in the decision and is kept for the transport's benefit.
pub fn convert_to_31(
    key: u8,
    vel: u8,
    tonal_space: &mut TonalSpace,
    am: AssonanceMetric,
    pt: ProjectionType,
) -> (r: Vec<(Pitch31, u128)>)
    requires
        old(tonal_space).wf(),
    ensures
        final(tonal_space).wf(),
        ranked_ok(*old(tonal_space), key, am, pt, r@),
        r@.len() > 0 && r@[0].0.wf() ==> old(tonal_space).spec_inserted(
            *final(tonal_space),
            r@[0].0,
            key,
        ),
        !(r@.len() > 0 && r@[0].0.wf()) ==> *final(tonal_space) == *old(tonal_space),
{
    let r = tonal_space.convert_to_31(key, am, pt);
    if r.len() > 0 {
        let top: Pitch31 = r[0].0;
        if MIN_OCTAVE <= top.octave && top.octave <= MAX_OCTAVE {
            tonal_space.insert(top, key);
        }
    }
    r
}

/// One step of the event consumption loop: a note-on yields the ranked
/// candidate decisions and updates the space; a note-off applies the chosen
/// release policy; a controller event leaves the space untouched and yields
/// nothing.
pub fn process_event(
    tonal_space: &mut TonalSpace,
    ev: NoteEvent,
    am: AssonanceMetric,
    pt: ProjectionType,
    policy: NoteOffPolicy,
) -> (r: Option<Vec<(Pitch31, u128)>>)
    requires
        old(tonal_space).wf(),
    ensures
        final(tonal_space).wf(),
        match ev {
            NoteEvent::NoteOn { key, vel } => match r {
                Some(cands) => ranked_ok(*old(tonal_space), key, am, pt, cands@) && (
                cands@.len() > 0 && cands@[0].0.wf() ==> old(tonal_space).spec_inserted(
                    *final(tonal_space),
                    cands@[0].0,
                    key,
                )) && (!(cands@.len() > 0 && cands@[0].0.wf()) ==> *final(tonal_space) == *old(
                    tonal_space,
                )),
                None => false,
            },
            NoteEvent::NoteOff { key, vel } => r is None && match policy {
                NoteOffPolicy::LetClashEvict => *final(tonal_space) == *old(tonal_space),
                NoteOffPolicy::EvictOnNoteOff => old(tonal_space).spec_released(
                    *final(tonal_space),
                    key,
                ),
            },
            NoteEvent::Controller { controller, value } => r is None && *final(tonal_space)
                == *old(tonal_space),
        },
{
    match ev {
        NoteEvent::NoteOn { key, vel } => Some(convert_to_31(key, vel, tonal_space, am, pt)),
        NoteEvent::NoteOff { key, vel: _ } => {
            match policy {
                NoteOffPolicy::LetClashEvict => {},
                NoteOffPolicy::EvictOnNoteOff => {
                    tonal_space.release_key(key);
                },
            }
            None
        },
        NoteEvent::Controller { controller: _, value: _ } => None,
    }
}

} // verus!
