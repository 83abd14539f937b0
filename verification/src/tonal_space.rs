//! The tonal space: a registry of currently sounding pitches grouped by
//! pitch class, with a recency order and a clash-driven eviction policy, and
//! the projection/assonance engine that ranks 31-EDO candidates.

use vstd::prelude::*;

use crate::theory::{abs_int, note_from_index, Note, Pitch31};

verus! {

/// An interval of this many steps or fewer counts as a "semitone" clash.
pub const SEMITONE_THRESHOLD: i16 = 3;

/// An octave-displaced clash evicts an entry only when the entry's clash
/// counter equals this threshold. At the default of 0 (and with counters
/// never incremented), octave-displaced clashes evict exactly as aggressively
/// as same-octave ones.
pub const DIFF_OCT_CLASH_THRESHOLD: u8 = 0;

/// One currently sounding pitch, tagged with the raw 12-EDO key that
/// produced it and a counter read by the eviction policy.
///
/// The counter is compared against `DIFF_OCT_CLASH_THRESHOLD` but never
/// incremented by the space itself: no richer counting policy is specified.
#[derive(Copy, Clone, PartialEq, Eq, Structural, Debug)]
pub struct TSPitch {
    pub pitch: Pitch31,
    /// Counts octave-displaced near-clashes; read by the eviction rule.
    pub clash_counter: u8,
    /// The 12-EDO key that triggered this pitch into existence; used to
    /// compute the 12-EDO interval to a newly struck key.
    pub midi_key: u8,
}

impl TSPitch {
    /// A pitch whose step arithmetic stays in machine range.
    pub open spec fn wf(self) -> bool {
        self.pitch.wf()
    }

    /// A fresh entry for a newly registered pitch: counter starts at zero.
    pub fn new(pitch: Pitch31, midi_key: u8) -> (r: TSPitch)
        ensures
            r == (TSPitch { pitch, clash_counter: 0, midi_key }),
    {
        TSPitch { pitch, clash_counter: 0, midi_key }
    }
}

/// Index of a class in the 31-slot class table: its step offset from `A`
/// shifted into `[0, 31)`.
pub open spec fn note_index(n: Note) -> int {
    n.spec_steps_from_a() + 23
}

/// Computes the table slot of a class.
pub fn note_index_exec(n: Note) -> (r: usize)
    ensures
        r as int == note_index(n),
        r < 31,
{
    (n.to_steps_from_a() + 23) as usize
}

/// True when some entry of `es` holds exactly the pitch `p`.
pub open spec fn contains_pitch(es: Seq<TSPitch>, p: Pitch31) -> bool {
    exists|j: int| 0 <= j < es.len() && (#[trigger] es[j]).pitch == p
}

/// The eviction rule keeps an entry of a neighboring class only when it is
/// more than the semitone threshold away in absolute steps (an
/// octave-displaced clash) and its clash counter differs from the
/// octave-displacement threshold.
pub open spec fn clash_keep(e: TSPitch, p: Pitch31) -> bool {
    abs_int(e.pitch.spec_steps_from_a4() - p.spec_steps_from_a4()) > SEMITONE_THRESHOLD as int
        && e.clash_counter != DIFF_OCT_CLASH_THRESHOLD
}

/// True when slot `i` holds a class within the semitone threshold of `p`'s
/// class on the 31-step circle (excluding `p`'s own class).
pub open spec fn is_clash_neighbor(i: int, p: Pitch31) -> bool {
    exists|d: int|
        -(SEMITONE_THRESHOLD as int) <= d <= SEMITONE_THRESHOLD as int && d != 0 && i
            == note_index(#[trigger] Note::spec_from_steps(p.note.spec_steps_from_a() + d))
}

/// Entries of one class slot are well-formed, belong to that slot, and no
/// two entries hold the same pitch.
pub open spec fn class_wf(es: Seq<TSPitch>, i: int) -> bool {
    &&& forall|j: int|
        0 <= j < es.len() ==> (#[trigger] es[j]).wf() && note_index(es[j].pitch.note) == i
    &&& forall|j1: int, j2: int|
        0 <= j1 < j2 < es.len() ==> (#[trigger] es[j1]).pitch != (#[trigger] es[j2]).pitch
}

/// The registry of currently sounding pitches: one slot per pitch class,
/// plus the classes ordered most recently struck first.
pub struct TonalSpace {
    /// Entries grouped by class: slot `note_index(n)` holds the sounding
    /// pitches of class `n`, at most one per octave.
    pub notes: Vec<Vec<TSPitch>>,
    /// Classes with at least one sounding pitch, most recently struck first.
    pub note_order: Vec<Note>,
}

impl TonalSpace {
    /// The entries of slot `i`.
    pub open spec fn class_at(self, i: int) -> Seq<TSPitch> {
        self.notes@[i]@
    }

    /// The entries of the class of `n`.
    pub open spec fn class_of(self, n: Note) -> Seq<TSPitch> {
        self.class_at(note_index(n))
    }

    /// Structural invariant: 31 slots, well-formed slot contents, and the
    /// recency order lists exactly the non-empty classes, without
    /// duplicates.
    pub open spec fn wf(self) -> bool {
        &&& self.notes@.len() == 31
        &&& forall|i: int| 0 <= i < 31 ==> class_wf(#[trigger] self.class_at(i), i)
        &&& self.note_order@.no_duplicates()
        &&& forall|k: int|
            0 <= k < self.note_order@.len() ==> self.class_of(
                #[trigger] self.note_order@[k],
            ).len() > 0
        &&& forall|i: int|
            0 <= i < 31 && #[trigger] self.class_at(i).len() > 0 ==> self.note_order@.contains(
                note_from_index(i),
            )
    }

    /// What slot `i` holds after `insert(p, key)`: the new entry appended to
    /// its own class unless the exact pitch was already present; neighboring
    /// classes within the semitone threshold filtered by the eviction rule;
    /// every other slot unchanged.
    pub open spec fn spec_insert_class(self, p: Pitch31, key: u8, i: int) -> Seq<TSPitch> {
        if i == note_index(p.note) {
            if contains_pitch(self.class_at(i), p) {
                self.class_at(i)
            } else {
                self.class_at(i).push(TSPitch { pitch: p, clash_counter: 0, midi_key: key })
            }
        } else if is_clash_neighbor(i, p) {
            self.class_at(i).filter(|e: TSPitch| clash_keep(e, p))
        } else {
            self.class_at(i)
        }
    }

    /// What the recency order holds after `insert(p, key)`: `p`'s class in
    /// front, followed by the previously listed classes that still have
    /// entries, in their old order.
    pub open spec fn spec_insert_order(self, p: Pitch31, key: u8) -> Seq<Note> {
        seq![p.note] + self.note_order@.filter(
            |n: Note| n != p.note && self.spec_insert_class(p, key, note_index(n)).len() > 0,
        )
    }

    /// Relation between the space before and after `insert(p, key)`: every
    /// slot holds `spec_insert_class` and the recency order is
    /// `spec_insert_order`.
    pub open spec fn spec_inserted(self, now: TonalSpace, p: Pitch31, key: u8) -> bool {
        &&& forall|i: int|
            0 <= i < 31 ==> #[trigger] now.class_at(i) == self.spec_insert_class(p, key, i)
        &&& now.note_order@ == self.spec_insert_order(p, key)
    }

    /// An empty tonal space.
    pub fn empty() -> (r: TonalSpace)
        ensures
            r.wf(),
            r.note_order@ == Seq::<Note>::empty(),
            forall|i: int| 0 <= i < 31 ==> #[trigger] r.class_at(i).len() == 0,
    {
        let mut notes: Vec<Vec<TSPitch>> = Vec::new();
        let mut i: usize = 0;
        while i < 31
            invariant
                i <= 31,
                notes@.len() == i,
                forall|k: int| 0 <= k < i ==> #[trigger] notes@[k]@.len() == 0,
            decreases 31 - i,
        {
            notes.push(Vec::new());
            i = i + 1;
        }
        TonalSpace { notes, note_order: Vec::new() }
    }

    /// A tonal space seeded with the reference context `C4`, tagged with
    /// source key 60, as the initial harmonic context of a fresh stream.
    pub fn new() -> (r: TonalSpace)
        ensures
            r.wf(),
            r.note_order@ == seq![Note::C],
            r.class_of(Note::C) == seq![
                TSPitch { pitch: Pitch31 { note: Note::C, octave: 4 }, clash_counter: 0, midi_key: 60 },
            ],
            forall|i: int|
                0 <= i < 31 && i != note_index(Note::C) ==> #[trigger] r.class_at(i).len() == 0,
    {
        let mut space = TonalSpace::empty();
        let ghost base = space;
        let seed = Pitch31 { note: Note::C, octave: 4 };
        let idx = note_index_exec(Note::C);
        let mut cls: Vec<TSPitch> = Vec::new();
        cls.push(TSPitch::new(seed, 60));
        space.notes[idx] = cls;
        let mut order: Vec<Note> = Vec::new();
        order.push(Note::C);
        space.note_order = order;
        proof {
            crate::theory::lemma_class_steps_roundtrip(Note::C);
            assert(space.note_order@ =~= seq![Note::C]);
            assert forall|i: int| 0 <= i < 31 && i != note_index(Note::C) implies #[trigger] space
                .class_at(i).len() == 0 by {
                assert(space.notes@[i] == base.notes@[i]);
                assert(base.class_at(i).len() == 0);
            }
            assert(space.class_of(Note::C) =~= seq![
                TSPitch { pitch: Pitch31 { note: Note::C, octave: 4 }, clash_counter: 0, midi_key: 60 },
            ]);
            assert(note_from_index(note_index(Note::C)) == Note::C);
            assert forall|i: int| 0 <= i < 31 implies class_wf(#[trigger] space.class_at(i), i) by {
                if i == note_index(Note::C) {
                    assert(space.class_at(i)[0].pitch.wf());
                } else {
                    assert(space.class_at(i).len() == 0);
                }
            }
            assert(space.notes@.len() == 31);
            assert(space.note_order@.no_duplicates());
            assert(space.note_order@[0] == Note::C);
            assert(space.note_order@.contains(Note::C));
            assert forall|k: int| 0 <= k < space.note_order@.len() implies space.class_of(
                #[trigger] space.note_order@[k],
            ).len() > 0 by {
                assert(space.note_order@[k] == Note::C);
            }
            assert forall|i: int|
                0 <= i < 31 && #[trigger] space.class_at(i).len() > 0 implies space.note_order@
                .contains(note_from_index(i)) by {
                assert(i == note_index(Note::C));
            }
        }
        space
    }
}

impl TonalSpace {
    /// Interim slot state while the eviction sweep has handled only the
    /// neighbor offsets below `d`.
    pub open spec fn spec_sweep_class(self, p: Pitch31, key: u8, i: int, d: int) -> Seq<TSPitch> {
        if i == note_index(p.note) {
            self.spec_insert_class(p, key, i)
        } else if exists|dd: int|
            -(SEMITONE_THRESHOLD as int) <= dd < d && dd != 0 && i == note_index(
                #[trigger] Note::spec_from_steps(p.note.spec_steps_from_a() + dd),
            ) {
            self.class_at(i).filter(|e: TSPitch| clash_keep(e, p))
        } else {
            self.class_at(i)
        }
    }

    /// Registers a newly struck pitch.
    ///
    /// The entry is appended under its own class unless that exact pitch is
    /// already present (the insert is idempotent on exact duplicates). Every
    /// entry of a class within the semitone threshold of the new pitch is
    /// then evicted by the clash rule, and the new pitch's class moves to the
    /// front of the recency order; classes emptied by the eviction leave the
    /// order.
    #[verifier::loop_isolation(false)]
    pub fn insert(&mut self, pitch: Pitch31, midi_key: u8)
        requires
            old(self).wf(),
            pitch.wf(),
        ensures
            final(self).wf(),
            old(self).spec_inserted(*final(self), pitch, midi_key),
    {
        let ghost orig = *self;
        let idx = note_index_exec(pitch.note);
        let ps: i16 = pitch.to_steps_from_a4();

        // Register the pitch under its own class, unless present already.
        let cls_len = self.notes[idx].len();
        let mut found = false;
        let mut j: usize = 0;
        while j < cls_len
            invariant
                j <= cls_len,
                found <==> contains_pitch(orig.class_at(idx as int).take(j as int), pitch),
            decreases cls_len - j,
        {
            if self.notes[idx][j].pitch == pitch {
                found = true;
                proof {
                    assert(orig.class_at(idx as int).take(j + 1)[j as int].pitch == pitch);
                }
            }
            proof {
                if contains_pitch(orig.class_at(idx as int).take(j as int), pitch) {
                    let w = choose|w: int|
                        0 <= w < j && (#[trigger] orig.class_at(idx as int).take(j as int)[w]).pitch
                            == pitch;
                    assert(orig.class_at(idx as int).take(j + 1)[w].pitch == pitch);
                }
            }
            j = j + 1;
        }
        proof {
            assert(orig.class_at(idx as int).take(cls_len as int) =~= orig.class_at(idx as int));
        }
        if !found {
            let mut nv: Vec<TSPitch> = Vec::new();
            let mut j2: usize = 0;
            while j2 < cls_len
                invariant
                    j2 <= cls_len,
                    nv@ =~= orig.class_at(idx as int).take(j2 as int),
                decreases cls_len - j2,
            {
                nv.push(self.notes[idx][j2]);
                proof {
                    assert(nv@ =~= orig.class_at(idx as int).take(j2 + 1));
                }
                j2 = j2 + 1;
            }
            nv.push(TSPitch::new(pitch, midi_key));
            self.notes[idx] = nv;
            proof {
                assert(self.class_at(idx as int) =~= orig.class_at(idx as int).push(
                    TSPitch { pitch, clash_counter: 0, midi_key },
                ));
            }
        }
        proof {
            assert(self.class_at(idx as int) == orig.spec_insert_class(pitch, midi_key, idx as int));
            assert forall|i: int| 0 <= i < 31 implies #[trigger] self.class_at(i)
                == orig.spec_sweep_class(pitch, midi_key, i, -(SEMITONE_THRESHOLD as int)) by {
                if i != idx as int {
                    assert(self.notes@[i] == orig.notes@[i]);
                }
            }
        }

        // Evict clashing entries from every class within the semitone
        // threshold.
        let mut d: i16 = -SEMITONE_THRESHOLD;
        while d <= SEMITONE_THRESHOLD
            invariant
                -(SEMITONE_THRESHOLD as int) <= d as int <= SEMITONE_THRESHOLD as int + 1,
                self.notes@.len() == 31,
                self.note_order@ == orig.note_order@,
                forall|i: int|
                    0 <= i < 31 ==> #[trigger] self.class_at(i) == orig.spec_sweep_class(
                        pitch,
                        midi_key,
                        i,
                        d as int,
                    ),
            decreases SEMITONE_THRESHOLD as int + 1 - d as int,
        {
            if d != 0 {
                let nb = Note::from_steps(pitch.note.to_steps_from_a() + d);
                let ni = note_index_exec(nb);
                proof {
                    lemma_neighbor_slot_fresh(orig, pitch, midi_key, d as int);
                    assert(self.class_at(ni as int) == orig.class_at(ni as int));
                }
                let len_i = self.notes[ni].len();
                let ghost pred = |e: TSPitch| clash_keep(e, pitch);
                let mut nv: Vec<TSPitch> = Vec::new();
                let mut j3: usize = 0;
                while j3 < len_i
                    invariant
                        j3 <= len_i,
                        len_i == orig.class_at(ni as int).len(),
                        self.class_at(ni as int) == orig.class_at(ni as int),
                        nv@ =~= orig.class_at(ni as int).take(j3 as int).filter(pred),
                    decreases len_i - j3,
                {
                    let e = self.notes[ni][j3];
                    proof {
                        reveal(Seq::filter);
                        assert(orig.class_at(ni as int).take(j3 + 1).drop_last() =~= orig.class_at(
                            ni as int,
                        ).take(j3 as int));
                        assert(orig.class_at(ni as int).take(j3 + 1).last() == e);
                        assert(e.pitch.wf());
                    }
                    let es: i16 = e.pitch.to_steps_from_a4();
                    let diff: i32 = es as i32 - ps as i32;
                    let ad: i32 = if diff < 0 { -diff } else { diff };
                    if ad > SEMITONE_THRESHOLD as i32 && e.clash_counter != DIFF_OCT_CLASH_THRESHOLD
                    {
                        nv.push(e);
                        proof {
                            assert(pred(e));
                            assert(nv@ =~= orig.class_at(ni as int).take(j3 + 1).filter(pred));
                        }
                    } else {
                        proof {
                            assert(!pred(e));
                            assert(nv@ =~= orig.class_at(ni as int).take(j3 + 1).filter(pred));
                        }
                    }
                    j3 = j3 + 1;
                }
                proof {
                    assert(orig.class_at(ni as int).take(len_i as int) =~= orig.class_at(
                        ni as int,
                    ));
                }
                let ghost pre = *self;
                self.notes[ni] = nv;
                proof {
                    assert forall|i: int| 0 <= i < 31 implies #[trigger] self.class_at(i)
                        == orig.spec_sweep_class(pitch, midi_key, i, d + 1) by {
                        lemma_sweep_step(orig, pitch, midi_key, i, d as int, ni as int);
                        if i != ni as int {
                            assert(self.notes@[i] == pre.notes@[i]);
                            assert(pre.class_at(i) == orig.spec_sweep_class(
                                pitch,
                                midi_key,
                                i,
                                d as int,
                            ));
                        } else {
                            assert(self.class_at(i) == nv@);
                        }
                    }
                }
            } else {
                proof {
                    assert forall|i: int| 0 <= i < 31 implies #[trigger] self.class_at(i)
                        == orig.spec_sweep_class(pitch, midi_key, i, d + 1) by {
                        assert(orig.spec_sweep_class(pitch, midi_key, i, d + 1)
                            == orig.spec_sweep_class(pitch, midi_key, i, d as int)) by {
                            if exists|dd: int|
                                -(SEMITONE_THRESHOLD as int) <= dd < d + 1 && dd != 0 && i
                                    == note_index(
                                    #[trigger] Note::spec_from_steps(
                                        pitch.note.spec_steps_from_a() + dd,
                                    ),
                                ) {
                                let dd = choose|dd: int|
                                    -(SEMITONE_THRESHOLD as int) <= dd < d + 1 && dd != 0 && i
                                        == note_index(
                                        #[trigger] Note::spec_from_steps(
                                            pitch.note.spec_steps_from_a() + dd,
                                        ),
                                    );
                                assert(dd < d);
                            }
                        }
                    }
                }
            }
            d = d + 1;
        }
        proof {
            assert forall|i: int| 0 <= i < 31 implies #[trigger] self.class_at(i)
                == orig.spec_insert_class(pitch, midi_key, i) by {
                lemma_sweep_complete(orig, pitch, midi_key, i);
            }
        }

        // Move the struck class to the front of the recency order, dropping
        // classes the eviction emptied.
        let ghost opred = |n: Note|
            n != pitch.note && orig.spec_insert_class(pitch, midi_key, note_index(n)).len() > 0;
        let mut no: Vec<Note> = Vec::new();
        no.push(pitch.note);
        let olen = self.note_order.len();
        let mut k: usize = 0;
        while k < olen
            invariant
                k <= olen,
                olen == orig.note_order@.len(),
                self.note_order@ == orig.note_order@,
                self.notes@.len() == 31,
                forall|i: int|
                    0 <= i < 31 ==> #[trigger] self.class_at(i) == orig.spec_insert_class(
                        pitch,
                        midi_key,
                        i,
                    ),
                no@ =~= seq![pitch.note] + orig.note_order@.take(k as int).filter(opred),
            decreases olen - k,
        {
            let nn = self.note_order[k];
            proof {
                reveal(Seq::filter);
                assert(orig.note_order@.take(k + 1).drop_last() =~= orig.note_order@.take(k as int));
                assert(orig.note_order@.take(k + 1).last() == nn);
            }
            if !(nn == pitch.note) {
                let nni = note_index_exec(nn);
                proof {
                    assert(self.class_at(nni as int) == orig.spec_insert_class(
                        pitch,
                        midi_key,
                        nni as int,
                    ));
                }
                if self.notes[nni].len() > 0 {
                    no.push(nn);
                    proof {
                        assert(opred(nn));
                        assert(no@ =~= seq![pitch.note] + orig.note_order@.take(k + 1).filter(
                            opred,
                        ));
                    }
                } else {
                    proof {
                        assert(!opred(nn));
                        assert(no@ =~= seq![pitch.note] + orig.note_order@.take(k + 1).filter(
                            opred,
                        ));
                    }
                }
            } else {
                proof {
                    assert(!opred(nn));
                    assert(no@ =~= seq![pitch.note] + orig.note_order@.take(k + 1).filter(opred));
                }
            }
            k = k + 1;
        }
        let ghost before_order = *self;
        self.note_order = no;
        proof {
            assert forall|i: int| 0 <= i < 31 implies #[trigger] self.class_at(i)
                == orig.spec_insert_class(pitch, midi_key, i) by {
                assert(self.notes@[i] == before_order.notes@[i]);
                assert(before_order.class_at(i) == orig.spec_insert_class(pitch, midi_key, i));
            }
            assert(orig.note_order@.take(olen as int) =~= orig.note_order@);
            assert(self.note_order@ == orig.spec_insert_order(pitch, midi_key));
            lemma_insert_preserves_wf(orig, *self, pitch, midi_key);
        }
    }
}

/// While sweeping neighbor offset `d`, the slot it names is still untouched:
/// it is not the struck pitch's own slot, and no earlier offset named it.
proof fn lemma_neighbor_slot_fresh(orig: TonalSpace, p: Pitch31, key: u8, d: int)
    requires
        -(SEMITONE_THRESHOLD as int) <= d <= SEMITONE_THRESHOLD as int,
        d != 0,
    ensures
        note_index(Note::spec_from_steps(p.note.spec_steps_from_a() + d)) != note_index(p.note),
        forall|dd: int|
            -(SEMITONE_THRESHOLD as int) <= dd <= SEMITONE_THRESHOLD as int && dd != d
                ==> note_index(#[trigger] Note::spec_from_steps(p.note.spec_steps_from_a() + dd))
                != note_index(Note::spec_from_steps(p.note.spec_steps_from_a() + d)),
        orig.spec_sweep_class(p, key, note_index(Note::spec_from_steps(
            p.note.spec_steps_from_a() + d)), d) == orig.class_at(note_index(
            Note::spec_from_steps(p.note.spec_steps_from_a() + d))),
{
    let s = p.note.spec_steps_from_a();
    assert(-23 <= s <= 7);
    assert forall|dd: int| -(SEMITONE_THRESHOLD as int) <= dd <= SEMITONE_THRESHOLD as int
        implies note_index(#[trigger] Note::spec_from_steps(s + dd)) == (s + dd + 23) % 31 by {
        lemma_note_index_of_from_steps(s + dd);
    }
    crate::theory::lemma_class_steps_roundtrip(p.note);
    assert(note_index(p.note) == s + 23);
    assert((s + 23) % 31 == s + 23);
    lemma_small_window_mod_injective(s + 23, d, 0);
    assert forall|dd: int|
        -(SEMITONE_THRESHOLD as int) <= dd <= SEMITONE_THRESHOLD as int && dd != d implies
        note_index(#[trigger] Note::spec_from_steps(s + dd)) != note_index(
        Note::spec_from_steps(s + d)) by {
        lemma_small_window_mod_injective(s + 23, d, dd);
    }
}

/// The slot of a reduced step offset is its Euclidean residue.
proof fn lemma_note_index_of_from_steps(n: int)
    ensures
        note_index(Note::spec_from_steps(n)) == (n + 23) % 31,
{
    let i = (n + 23) % 31;
    assert(0 <= i < 31);
    assert(note_index(note_from_index(i)) == i);
}

/// Offsets within the semitone window land in distinct slots: the window is
/// narrower than the 31-step circle.
proof fn lemma_small_window_mod_injective(t: int, d1: int, d2: int)
    requires
        0 <= t <= 30,
        -3 <= d1 <= 3,
        -3 <= d2 <= 3,
        d1 != d2,
    ensures
        (t + d1) % 31 != (t + d2) % 31,
{
    vstd::arithmetic::div_mod::lemma_fundamental_div_mod(t + d1, 31);
    vstd::arithmetic::div_mod::lemma_fundamental_div_mod(t + d2, 31);
}

/// One sweep step extends the handled window by one offset.
proof fn lemma_sweep_step(orig: TonalSpace, p: Pitch31, key: u8, i: int, d: int, ni: int)
    requires
        -(SEMITONE_THRESHOLD as int) <= d <= SEMITONE_THRESHOLD as int,
        d != 0,
        ni == note_index(Note::spec_from_steps(p.note.spec_steps_from_a() + d)),
        ni != note_index(p.note),
    ensures
        i == ni ==> orig.spec_sweep_class(p, key, i, d + 1) == orig.class_at(i).filter(
            |e: TSPitch| clash_keep(e, p),
        ),
        i != ni ==> orig.spec_sweep_class(p, key, i, d + 1) == orig.spec_sweep_class(p, key, i, d),
{
    if i == ni {
        assert(-(SEMITONE_THRESHOLD as int) <= d < d + 1 && d != 0 && i == note_index(
            Note::spec_from_steps(p.note.spec_steps_from_a() + d)));
    } else {
        if i != note_index(p.note) {
            if exists|dd: int|
                -(SEMITONE_THRESHOLD as int) <= dd < d + 1 && dd != 0 && i == note_index(
                    #[trigger] Note::spec_from_steps(p.note.spec_steps_from_a() + dd),
                ) {
                let dd = choose|dd: int|
                    -(SEMITONE_THRESHOLD as int) <= dd < d + 1 && dd != 0 && i == note_index(
                        #[trigger] Note::spec_from_steps(p.note.spec_steps_from_a() + dd),
                    );
                assert(dd != d);
                assert(dd < d);
            }
        }
    }
}

/// After the sweep has passed the whole window, every slot holds its final
/// contents.
proof fn lemma_sweep_complete(orig: TonalSpace, p: Pitch31, key: u8, i: int)
    ensures
        orig.spec_sweep_class(p, key, i, SEMITONE_THRESHOLD as int + 1) == orig.spec_insert_class(
            p,
            key,
            i,
        ),
{
}

/// A class slot stays well-formed under the eviction filter.
proof fn lemma_filter_class_wf(es: Seq<TSPitch>, pred: spec_fn(TSPitch) -> bool, i: int)
    requires
        class_wf(es, i),
    ensures
        class_wf(es.filter(pred), i),
    decreases es.len(),
{
    reveal(Seq::filter);
    if es.len() > 0 {
        let prefix = es.drop_last();
        assert(class_wf(prefix, i)) by {
            assert(forall|j: int| 0 <= j < prefix.len() ==> prefix[j] == es[j]);
        }
        lemma_filter_class_wf(prefix, pred, i);
        let f = prefix.filter(pred);
        if pred(es.last()) {
            assert(es.filter(pred) == f.push(es.last()));
            assert forall|j1: int, j2: int| 0 <= j1 < j2 < f.push(es.last()).len() implies (
            #[trigger] f.push(es.last())[j1]).pitch != (#[trigger] f.push(es.last())[j2]).pitch by {
                if j2 == f.len() {
                    let x = f[j1];
                    assert(f.contains(x));
                    lemma_filter_membership(prefix, pred, x);
                    let w = choose|w: int| 0 <= w < prefix.len() && prefix[w] == x;
                    assert(es[w] == x);
                    assert(es[w].pitch != es[es.len() - 1].pitch);
                }
            }
            assert forall|j: int| 0 <= j < f.push(es.last()).len() implies (#[trigger] f.push(
                es.last(),
            )[j]).wf() && note_index(f.push(es.last())[j].pitch.note) == i by {
                if j < f.len() {
                    assert(f[j].wf() && note_index(f[j].pitch.note) == i);
                }
            }
        } else {
            assert(es.filter(pred) == f);
        }
    }
}

/// The insert contract implies the structural invariant of the space.
proof fn lemma_insert_preserves_wf(orig: TonalSpace, now: TonalSpace, p: Pitch31, key: u8)
    requires
        orig.wf(),
        p.wf(),
        now.notes@.len() == 31,
        forall|i: int|
            0 <= i < 31 ==> #[trigger] now.class_at(i) == orig.spec_insert_class(p, key, i),
        now.note_order@ == orig.spec_insert_order(p, key),
    ensures
        now.wf(),
{
    let idx = note_index(p.note);
    crate::theory::lemma_class_steps_roundtrip(p.note);
    assert(0 <= idx < 31);
    assert(note_from_index(idx) == p.note);
    let pred = |e: TSPitch| clash_keep(e, p);
    let opred = |n: Note|
        n != p.note && orig.spec_insert_class(p, key, note_index(n)).len() > 0;
    let tail = orig.note_order@.filter(opred);

    // Slot contents stay well-formed.
    assert forall|i: int| 0 <= i < 31 implies class_wf(#[trigger] now.class_at(i), i) by {
        assert(class_wf(orig.class_at(i), i));
        if i == idx {
            if contains_pitch(orig.class_at(i), p) {
            } else {
                let es = orig.class_at(i).push(TSPitch { pitch: p, clash_counter: 0, midi_key: key });
                assert forall|j1: int, j2: int| 0 <= j1 < j2 < es.len() implies (
                #[trigger] es[j1]).pitch != (#[trigger] es[j2]).pitch by {
                    if j2 == es.len() - 1 {
                        assert(es[j1] == orig.class_at(i)[j1]);
                        if es[j1].pitch == p {
                            assert(contains_pitch(orig.class_at(i), p));
                        }
                    } else {
                        assert(es[j1] == orig.class_at(i)[j1]);
                        assert(es[j2] == orig.class_at(i)[j2]);
                    }
                }
                assert forall|j: int| 0 <= j < es.len() implies (#[trigger] es[j]).wf()
                    && note_index(es[j].pitch.note) == i by {
                    if j < es.len() - 1 {
                        assert(es[j] == orig.class_at(i)[j]);
                    }
                }
            }
        } else if is_clash_neighbor(i, p) {
            lemma_filter_class_wf(orig.class_at(i), pred, i);
        } else {
        }
    };

    // The recency order lists exactly the non-empty classes, without
    // duplicates.
    lemma_filter_no_duplicates(orig.note_order@, opred);
    assert forall|j: int| 0 <= j < tail.len() implies seq![p.note][0] != #[trigger] tail[j] by {
        assert(tail.contains(tail[j]));
        lemma_filter_membership(orig.note_order@, opred, tail[j]);
    }
    vstd::seq_lib::lemma_no_dup_in_concat(seq![p.note], tail);
    assert(now.note_order@.no_duplicates());

    assert forall|k: int| 0 <= k < now.note_order@.len() implies now.class_of(
        #[trigger] now.note_order@[k],
    ).len() > 0 by {
        if k == 0 {
            assert(now.note_order@[0] == p.note);
            if contains_pitch(orig.class_at(idx), p) {
                assert(orig.class_at(idx).len() > 0);
            } else {
                assert(now.class_at(idx).len() == orig.class_at(idx).len() + 1);
            }
        } else {
            assert(now.note_order@[k] == tail[k - 1]);
            assert(tail.contains(tail[k - 1]));
            lemma_filter_membership(orig.note_order@, opred, tail[k - 1]);
            assert(opred(tail[k - 1]));
            assert(0 <= note_index(tail[k - 1]) < 31) by {
                assert(-23 <= tail[k - 1].spec_steps_from_a() <= 7);
            }
        }
    }

    assert forall|i: int| 0 <= i < 31 && #[trigger] now.class_at(i).len() > 0 implies now
        .note_order@.contains(note_from_index(i)) by {
        if i == idx {
            assert(now.note_order@[0] == p.note);
        } else {
            let n = note_from_index(i);
            assert(note_index(n) == i);
            assert(orig.class_at(i).len() > 0) by {
                if is_clash_neighbor(i, p) {
                    if orig.class_at(i).len() == 0 {
                        assert(orig.class_at(i).filter(pred).len() <= orig.class_at(i).len()) by {
                            orig.class_at(i).lemma_filter_len(pred);
                        }
                    }
                }
            }
            assert(orig.note_order@.contains(n));
            assert(n != p.note) by {
                crate::theory::lemma_class_steps_roundtrip(p.note);
            }
            assert(opred(n));
            lemma_filter_membership(orig.note_order@, opred, n);
            assert(tail.contains(n));
            let w = choose|w: int| 0 <= w < tail.len() && tail[w] == n;
            assert(now.note_order@[w + 1] == n);
        }
    }
}

/// The consonance metric used to score candidates; lower scores are more
/// consonant.
#[derive(Copy, Clone, PartialEq, Eq, Structural, Debug)]
pub enum AssonanceMetric {
    /// Distance along the circle of 31-EDO fifths.
    Pythagorean,
}

/// The policy mapping a 12-EDO semitone class onto candidate 31-EDO step
/// offsets.
#[derive(Copy, Clone, PartialEq, Eq, Structural, Debug)]
pub enum ProjectionType {
    /// Unison, perfect fourth/fifth and major intervals map to one offset;
    /// minor intervals and the diminished fifth to two (the sharp- and
    /// flat-side spellings).
    Meantone17,
    /// The unison maps to one offset; perfect and major intervals to three
    /// (down, neutral, up); minor intervals and the diminished fifth to two.
    Meantone31KeepUnison,
}

/// The fixed, non-empty set of 31-EDO step offsets a 12-EDO semitone class
/// `semis` (in `[0, 11]`) may realize under the chosen mapping.
pub open spec fn proj_offsets(pt: ProjectionType, semis: int) -> Seq<int> {
    match pt {
        ProjectionType::Meantone17 => (
        if semis == 0 { seq![0] } else if semis == 1 { seq![2, 3] } else if semis == 2 {
            seq![5]
        } else if semis == 3 { seq![7, 8] } else if semis == 4 { seq![10] } else if semis == 5 {
            seq![13]
        } else if semis == 6 { seq![15, 16] } else if semis == 7 { seq![18] } else if semis == 8 {
            seq![20, 21]
        } else if semis == 9 { seq![23] } else if semis == 10 { seq![25, 26] } else { seq![28] }),
        ProjectionType::Meantone31KeepUnison => (
        if semis == 0 { seq![0] } else if semis == 1 { seq![2, 3] } else if semis == 2 {
            seq![5, 4, 6]
        } else if semis == 3 { seq![7, 8] } else if semis == 4 { seq![10, 9, 11] } else if semis
            == 5 { seq![13, 12, 14] } else if semis == 6 { seq![15, 16] } else if semis == 7 {
            seq![18, 17, 19]
        } else if semis == 8 { seq![20, 21] } else if semis == 9 { seq![23, 22, 24] } else if semis
            == 10 { seq![25, 26] } else { seq![28, 27, 29] }),
    }
}

/// The absolute step counts of the 31-EDO realizations of the 12-EDO
/// interval between `t`'s source key and the incoming key.
pub open spec fn candidate_steps(t: TSPitch, key: u8, pt: ProjectionType) -> Seq<int> {
    let dist = key as int - t.midi_key as int;
    let octs = dist / 12;
    let semis = dist % 12;
    proj_offsets(pt, semis).map_values(
        |x: int| t.pitch.spec_steps_from_a4() + x + 31 * octs,
    )
}

/// The candidate pitches themselves, in canonical class-and-octave form.
pub open spec fn candidate_pitches(t: TSPitch, key: u8, pt: ProjectionType) -> Seq<Pitch31> {
    candidate_steps(t, key, pt).map_values(|s: int| crate::theory::pitch_of_steps(s))
}

/// Euclidean split of a 12-EDO key distance into octaves and a semitone
/// class.
proof fn lemma_dist12_split(dist: int, octs: int)
    requires
        -255 <= dist <= 255,
        octs == (dist + 264) / 12 - 22,
    ensures
        octs == dist / 12,
        dist - 12 * octs == dist % 12,
        0 <= dist % 12 < 12,
        -22 <= octs <= 21,
{
    vstd::arithmetic::div_mod::lemma_fundamental_div_mod(dist, 12);
    vstd::arithmetic::div_mod::lemma_mod_bound(dist, 12);
    assert(dist + 264 == 12 * (dist / 12 + 22) + dist % 12);
    vstd::arithmetic::div_mod::lemma_div_multiples_vanish_fancy(dist / 12 + 22, dist % 12, 12);
}

impl TSPitch {
    /// The consonance of `pitch` against this entry under the metric; lower
    /// is more consonant.
    pub open spec fn spec_assonance(self, pitch: Pitch31, metric: AssonanceMetric) -> int {
        match metric {
            AssonanceMetric::Pythagorean => pitch.note.spec_fifths_to(self.pitch.note),
        }
    }

    /// The lower the number, the more assonant (mathematically preferable)
    /// the interval between `pitch` and this entry is under the chosen
    /// metric.
    pub fn get_assonance_coefficient(&self, pitch: Pitch31, metric: AssonanceMetric) -> (r: u8)
        ensures
            r as int == self.spec_assonance(pitch, metric),
            r <= 15,
    {
        match metric {
            AssonanceMetric::Pythagorean => pitch.note.fifths_to(self.pitch.note),
        }
    }

    /// Possible 31-EDO realizations of the 12-EDO interval between this
    /// entry's source key and `midi_note`: one candidate per offset the
    /// mapping allows for the interval's semitone class, each octave-shifted
    /// by the interval's octave part.
    pub fn get_candidate_projections(&self, midi_note: u8, projection_type: ProjectionType) -> (r:
        Vec<Pitch31>)
        requires
            self.wf(),
        ensures
            r@ == candidate_pitches(*self, midi_note, projection_type),
            1 <= r@.len() <= 3,
    {
        let dist12: i16 = midi_note as i16 - self.midi_key as i16;
        let octs: i16 = (dist12 + 264) / 12 - 22;
        let semis: i16 = dist12 - 12 * octs;
        proof {
            lemma_dist12_split(dist12 as int, octs as int);
        }
        let mut xs: Vec<i16> = Vec::new();
        match projection_type {
            ProjectionType::Meantone17 => {
                match semis {
                    0 => { xs.push(0); },
                    1 => { xs.push(2); xs.push(3); },
                    2 => { xs.push(5); },
                    3 => { xs.push(7); xs.push(8); },
                    4 => { xs.push(10); },
                    5 => { xs.push(13); },
                    6 => { xs.push(15); xs.push(16); },
                    7 => { xs.push(18); },
                    8 => { xs.push(20); xs.push(21); },
                    9 => { xs.push(23); },
                    10 => { xs.push(25); xs.push(26); },
                    _ => { xs.push(28); },
                }
            },
            ProjectionType::Meantone31KeepUnison => {
                match semis {
                    0 => { xs.push(0); },
                    1 => { xs.push(2); xs.push(3); },
                    2 => { xs.push(5); xs.push(4); xs.push(6); },
                    3 => { xs.push(7); xs.push(8); },
                    4 => { xs.push(10); xs.push(9); xs.push(11); },
                    5 => { xs.push(13); xs.push(12); xs.push(14); },
                    6 => { xs.push(15); xs.push(16); },
                    7 => { xs.push(18); xs.push(17); xs.push(19); },
                    8 => { xs.push(20); xs.push(21); },
                    9 => { xs.push(23); xs.push(22); xs.push(24); },
                    10 => { xs.push(25); xs.push(26); },
                    _ => { xs.push(28); xs.push(27); xs.push(29); },
                }
            },
        }
        proof {
            assert(xs@.map_values(|x: i16| x as int) =~= proj_offsets(
                projection_type,
                semis as int,
            ));
        }
        let ghost cands = candidate_pitches(*self, midi_note, projection_type);
        let base: i16 = 31 * octs;
        let mut out: Vec<Pitch31> = Vec::new();
        let mut j: usize = 0;
        let xlen = xs.len();
        while j < xlen
            invariant
                j <= xlen,
                xlen == xs@.len(),
                1 <= xlen <= 3,
                forall|w: int| 0 <= w < xlen ==> 0 <= #[trigger] xs@[w] <= 29,
                base as int == 31 * (octs as int),
                -22 <= octs as int <= 21,
                octs as int == (midi_note as int - self.midi_key as int) / 12,
                xs@.map_values(|x: i16| x as int) == proj_offsets(
                    projection_type,
                    (midi_note as int - self.midi_key as int) % 12,
                ),
                cands == candidate_pitches(*self, midi_note, projection_type),
                out@ =~= cands.take(j as int),
                self.wf(),
            decreases xlen - j,
        {
            let x: i16 = xs[j];
            proof {
                assert(xs@.map_values(|x: i16| x as int)[j as int] == x as int);
                assert(cands[j as int] == crate::theory::pitch_of_steps(
                    self.pitch.spec_steps_from_a4() + x as int + 31 * (octs as int),
                ));
            }
            out.push(self.pitch.offset(x + base));
            proof {
                assert(out@ =~= cands.take(j + 1));
            }
            j = j + 1;
        }
        proof {
            assert(cands.take(xlen as int) =~= cands);
        }
        out
    }
}

/// Fixed-point scale of the scores: one score unit stands for
/// `1 / SCORE_SCALE`, so the decayed order multipliers stay exact integers.
pub const SCORE_SCALE: u64 = 1_000_000_000_000;

/// Numerator of the recency decay ratio: each step down the recency order
/// multiplies the order multiplier by 99/100.
pub const ORDER_PRECEDENCE_NUM: u64 = 99;

/// Denominator of the recency decay ratio.
pub const ORDER_PRECEDENCE_DEN: u64 = 100;

/// One decay step of the order multiplier, in fixed-point units (floor).
pub open spec fn decay(m: int) -> int {
    ORDER_PRECEDENCE_NUM as int * m / (ORDER_PRECEDENCE_DEN as int)
}

/// The order multiplier of the class at recency position `k`: the scale
/// decayed `k` times.
pub open spec fn mult_at(k: nat) -> int
    decreases k,
{
    if k == 0 { SCORE_SCALE as int } else { decay(mult_at((k - 1) as nat)) }
}

/// Bounds of one decay step: it keeps the multiplier non-negative, loses at
/// most one hundredth of the scale, and strictly shrinks any positive
/// multiplier.
proof fn lemma_decay_bounds(m: int)
    requires
        0 <= m <= SCORE_SCALE,
    ensures
        0 <= decay(m) <= m,
        m >= 1 ==> decay(m) < m,
        decay(m) >= m - 10_000_000_000,
{
    let q = 99 * m / 100;
    vstd::arithmetic::div_mod::lemma_fundamental_div_mod(99 * m, 100);
    vstd::arithmetic::div_mod::lemma_mod_bound(99 * m, 100);
    assert(0 <= q) by {
        vstd::arithmetic::div_mod::lemma_div_pos_is_pos(99 * m, 100);
    }
    assert(q <= m) by {
        if q > m {
            assert(99 * m == 100 * q + (99 * m) % 100);
            assert(100 * q >= 100 * (m + 1));
        }
    }
    if m >= 1 {
        assert(q < m) by {
            if q >= m {
                assert(99 * m == 100 * q + (99 * m) % 100);
                assert(100 * q >= 100 * m);
            }
        }
    }
    assert(q >= m - 10_000_000_000) by {
        if q < m - 10_000_000_000 {
            assert(99 * m == 100 * q + (99 * m) % 100);
            assert(100 * q <= 100 * (m - 10_000_000_001));
            assert(99 * m <= 100 * m - 1_000_000_000_100 + 99);
        }
    }
}

/// Bounds of the order multiplier: it never exceeds the scale, never goes
/// negative, and within the first 32 recency positions stays far above zero.
proof fn lemma_mult_at_bounds(k: nat)
    ensures
        0 <= mult_at(k) <= SCORE_SCALE,
        mult_at(k) >= SCORE_SCALE as int - k * 10_000_000_000,
    decreases k,
{
    if k == 0 {
    } else {
        lemma_mult_at_bounds((k - 1) as nat);
        lemma_decay_bounds(mult_at((k - 1) as nat));
    }
}

/// Strict decay: between two recency positions within the 31-class range,
/// the later multiplier is strictly smaller.
proof fn lemma_mult_strict(k1: nat, k2: nat)
    requires
        k1 < k2,
        k2 <= 31,
    ensures
        mult_at(k2) < mult_at(k1),
    decreases k2 - k1,
{
    lemma_mult_at_bounds((k2 - 1) as nat);
    assert(mult_at((k2 - 1) as nat) >= 1);
    lemma_decay_bounds(mult_at((k2 - 1) as nat));
    if k1 < k2 - 1 {
        lemma_mult_strict(k1, (k2 - 1) as nat);
    }
}

/// Pigeonhole: a sequence of distinct integers inside `[lo, hi]` has at most
/// `hi - lo + 1` members.
proof fn lemma_distinct_ints_in_range(s: Seq<int>, lo: int, hi: int)
    requires
        s.no_duplicates(),
        forall|i: int| 0 <= i < s.len() ==> lo <= #[trigger] s[i] <= hi,
        lo <= hi,
    ensures
        s.len() <= hi - lo + 1,
{
    s.unique_seq_to_set();
    assert forall|x: int| s.to_set().contains(x) implies vstd::set_lib::set_int_range(
        lo,
        hi + 1,
    ).contains(x) by {
        let j = choose|j: int| 0 <= j < s.len() && s[j] == x;
        assert(lo <= s[j] <= hi);
    }
    vstd::set_lib::lemma_int_range(lo, hi + 1);
    vstd::set_lib::lemma_len_subset(s.to_set(), vstd::set_lib::set_int_range(lo, hi + 1));
}

/// A well-formed space lists at most 31 classes in its recency order: the
/// classes are distinct and there are only 31 of them.
pub proof fn lemma_order_len_bound(space: TonalSpace)
    requires
        space.wf(),
    ensures
        space.note_order@.len() <= 31,
{
    let idxs = Seq::new(space.note_order@.len(), |j: int| note_index(space.note_order@[j]));
    assert forall|j1: int, j2: int| 0 <= j1 < j2 < idxs.len() implies idxs[j1] != idxs[j2] by {
        let a = space.note_order@[j1];
        let b = space.note_order@[j2];
        assert(a != b);
        crate::theory::lemma_class_steps_roundtrip(a);
        crate::theory::lemma_class_steps_roundtrip(b);
        if note_index(a) == note_index(b) {
            assert(Note::spec_from_steps(a.spec_steps_from_a()) == Note::spec_from_steps(
                b.spec_steps_from_a(),
            ));
        }
    }
    assert forall|j: int| 0 <= j < idxs.len() implies 0 <= #[trigger] idxs[j] <= 30 by {
        assert(-23 <= space.note_order@[j].spec_steps_from_a() <= 7);
    }
    lemma_distinct_ints_in_range(idxs, 0, 30);
}

/// A well-formed class slot holds at most one entry per octave, so at most
/// 2001 entries in the representable octave range.
proof fn lemma_class_len_bound(space: TonalSpace, i: int)
    requires
        space.wf(),
        0 <= i < 31,
    ensures
        space.class_at(i).len() <= 2001,
{
    let es = space.class_at(i);
    assert(class_wf(es, i));
    let octs = Seq::new(es.len(), |j: int| es[j].pitch.octave as int);
    assert forall|j1: int, j2: int| 0 <= j1 < j2 < octs.len() implies octs[j1] != octs[j2] by {
        assert(es[j1].pitch != es[j2].pitch);
        assert(note_index(es[j1].pitch.note) == i && note_index(es[j2].pitch.note) == i);
        crate::theory::lemma_class_steps_roundtrip(es[j1].pitch.note);
        crate::theory::lemma_class_steps_roundtrip(es[j2].pitch.note);
        if es[j1].pitch.octave == es[j2].pitch.octave {
            assert(Note::spec_from_steps(es[j1].pitch.note.spec_steps_from_a())
                == Note::spec_from_steps(es[j2].pitch.note.spec_steps_from_a()));
        }
    }
    assert forall|j: int| 0 <= j < octs.len() implies -1000 <= #[trigger] octs[j] <= 1000 by {
        assert(es[j].wf());
    }
    lemma_distinct_ints_in_range(octs, -1000, 1000);
}

/// The score contribution of one registry entry to candidate `p`: its
/// assonance coefficient times the order multiplier `m`, divided by the
/// entry count `c` of its class, when `p` is one of the entry's candidate
/// projections; zero otherwise.
pub open spec fn proj_term(
    t: TSPitch,
    key: u8,
    pt: ProjectionType,
    am: AssonanceMetric,
    p: Pitch31,
    c: int,
    m: int,
) -> int {
    if candidate_pitches(t, key, pt).contains(p) {
        t.spec_assonance(p, am) * m / c
    } else {
        0
    }
}

/// The summed contribution of the entries `es` of one class to candidate
/// `p`.
pub open spec fn class_score(
    es: Seq<TSPitch>,
    key: u8,
    pt: ProjectionType,
    am: AssonanceMetric,
    p: Pitch31,
    c: int,
    m: int,
) -> int
    decreases es.len(),
{
    if es.len() == 0 {
        0
    } else {
        class_score(es.drop_last(), key, pt, am, p, c, m) + proj_term(es.last(), key, pt, am, p, c, m)
    }
}

/// The accumulated score of candidate `p` over the first `k` classes of the
/// recency order, most recent first, with the multiplier decayed once per
/// class.
pub open spec fn score_upto(
    space: TonalSpace,
    key: u8,
    pt: ProjectionType,
    am: AssonanceMetric,
    p: Pitch31,
    k: nat,
) -> int
    decreases k,
{
    if k == 0 {
        0
    } else {
        let es = space.class_of(space.note_order@[k - 1]);
        score_upto(space, key, pt, am, p, (k - 1) as nat) + class_score(
            es,
            key,
            pt,
            am,
            p,
            es.len() as int,
            mult_at((k - 1) as nat),
        )
    }
}

/// The total score of candidate `p` against the whole space, in fixed-point
/// units: lower is more consonant.
pub open spec fn spec_score(
    space: TonalSpace,
    key: u8,
    pt: ProjectionType,
    am: AssonanceMetric,
    p: Pitch31,
) -> int {
    score_upto(space, key, pt, am, p, space.note_order@.len() as nat)
}

/// True when `p` is a candidate projection of some entry of one of the
/// first `kb` classes of the recency order.
pub open spec fn is_candidate_upto(
    space: TonalSpace,
    key: u8,
    pt: ProjectionType,
    p: Pitch31,
    kb: int,
) -> bool {
    exists|k: int, j: int|
        0 <= k < kb && 0 <= j < space.class_of(space.note_order@[k]).len() && candidate_pitches(
            #[trigger] space.class_of(space.note_order@[k])[j],
            key,
            pt,
        ).contains(p)
}

/// True when `p` is a candidate projection of some entry of the space.
pub open spec fn is_candidate(space: TonalSpace, key: u8, pt: ProjectionType, p: Pitch31) -> bool {
    is_candidate_upto(space, key, pt, p, space.note_order@.len() as int)
}

/// True when the accumulator already has an entry keyed by `p`.
pub open spec fn acc_has(acc: Seq<(Pitch31, u128)>, p: Pitch31) -> bool {
    exists|w: int| 0 <= w < acc.len() && (#[trigger] acc[w]).0 == p
}

/// The candidates of one registry entry are pairwise distinct: the mapping
/// tables list distinct offsets, and distinct step counts give distinct
/// canonical pitches.
proof fn lemma_candidates_distinct(t: TSPitch, key: u8, pt: ProjectionType)
    requires
        t.wf(),
    ensures
        forall|j1: int, j2: int|
            0 <= j1 < j2 < candidate_pitches(t, key, pt).len() ==> candidate_pitches(t, key, pt)[j1]
                != candidate_pitches(t, key, pt)[j2],
{
    let dist = key as int - t.midi_key as int;
    let semis = dist % 12;
    let octs = dist / 12;
    vstd::arithmetic::div_mod::lemma_mod_bound(dist, 12);
    vstd::arithmetic::div_mod::lemma_fundamental_div_mod(dist, 12);
    assert(-22 <= octs <= 21);
    let offs = proj_offsets(pt, semis);
    let steps = candidate_steps(t, key, pt);
    let cands = candidate_pitches(t, key, pt);
    assert forall|j1: int, j2: int| 0 <= j1 < j2 < cands.len() implies cands[j1] != cands[j2] by {
        assert(offs[j1] != offs[j2]);
        assert(steps[j1] == t.pitch.spec_steps_from_a4() + offs[j1] + 31 * octs);
        assert(steps[j2] == t.pitch.spec_steps_from_a4() + offs[j2] + 31 * octs);
        assert(0 <= offs[j1] <= 29 && 0 <= offs[j2] <= 29);
        assert(-31147 <= t.pitch.spec_steps_from_a4() <= 30883);
        crate::theory::lemma_pitch_of_steps_roundtrip(steps[j1]);
        crate::theory::lemma_pitch_of_steps_roundtrip(steps[j2]);
        assert(cands[j1].spec_steps_from_a4() != cands[j2].spec_steps_from_a4());
    }
}

/// One entry's term is bounded by the largest assonance times the scale.
proof fn lemma_proj_term_bounds(
    t: TSPitch,
    key: u8,
    pt: ProjectionType,
    am: AssonanceMetric,
    p: Pitch31,
    c: int,
    m: int,
)
    requires
        c >= 1,
        0 <= m <= SCORE_SCALE,
    ensures
        0 <= proj_term(t, key, pt, am, p, c, m) <= 15 * SCORE_SCALE,
{
    if candidate_pitches(t, key, pt).contains(p) {
        let a = t.spec_assonance(p, am);
        crate::theory::lemma_fifths_characterization(p.note, t.pitch.note);
        assert(0 <= a <= 15);
        assert(0 <= a * m <= 15 * SCORE_SCALE) by (nonlinear_arith)
            requires 0 <= a <= 15 && 0 <= m <= SCORE_SCALE;
        vstd::arithmetic::div_mod::lemma_div_pos_is_pos(a * m, c);
        vstd::arithmetic::div_mod::lemma_div_is_ordered_by_denominator(a * m, 1, c);
        vstd::arithmetic::div_mod::lemma_div_basics_1(a * m);
    }
}

/// A class's summed contribution is bounded by its size times the largest
/// term.
proof fn lemma_class_score_bounds(
    es: Seq<TSPitch>,
    key: u8,
    pt: ProjectionType,
    am: AssonanceMetric,
    p: Pitch31,
    c: int,
    m: int,
)
    requires
        c >= 1,
        0 <= m <= SCORE_SCALE,
    ensures
        0 <= class_score(es, key, pt, am, p, c, m) <= es.len() * (15 * SCORE_SCALE),
    decreases es.len(),
{
    if es.len() == 0 {
    } else {
        lemma_class_score_bounds(es.drop_last(), key, pt, am, p, c, m);
        lemma_proj_term_bounds(es.last(), key, pt, am, p, c, m);
        assert((es.len() - 1) * (15 * SCORE_SCALE) + 15 * SCORE_SCALE == es.len() * (
        15 * SCORE_SCALE)) by (nonlinear_arith);
    }
}

/// The accumulated score stays within machine range: at most 31 classes of
/// at most 2001 entries each contribute at most `15 * SCORE_SCALE` apiece.
proof fn lemma_score_upto_bounds(
    space: TonalSpace,
    key: u8,
    pt: ProjectionType,
    am: AssonanceMetric,
    p: Pitch31,
    k: nat,
)
    requires
        space.wf(),
        k <= space.note_order@.len(),
        space.note_order@.len() <= 31,
    ensures
        0 <= score_upto(space, key, pt, am, p, k) <= k * 2001 * (15 * SCORE_SCALE),
    decreases k,
{
    if k == 0 {
    } else {
        lemma_score_upto_bounds(space, key, pt, am, p, (k - 1) as nat);
        let n = space.note_order@[k - 1];
        let es = space.class_of(n);
        assert(0 <= note_index(n) < 31) by {
            assert(-23 <= n.spec_steps_from_a() <= 7);
        }
        lemma_class_len_bound(space, note_index(n));
        assert(es.len() >= 1);
        lemma_mult_at_bounds((k - 1) as nat);
        lemma_class_score_bounds(es, key, pt, am, p, es.len() as int, mult_at((k - 1) as nat));
        assert(es.len() * (15 * SCORE_SCALE) <= 2001 * (15 * SCORE_SCALE)) by (nonlinear_arith)
            requires 0 <= es.len() <= 2001;
        assert((k - 1) * 2001 * (15 * SCORE_SCALE) + 2001 * (15 * SCORE_SCALE) == k * 2001 * (
        15 * SCORE_SCALE)) by (nonlinear_arith);
    }
}

/// The score recorded for key `p` in the accumulator; zero when absent.
pub open spec fn acc_val(acc: Seq<(Pitch31, u128)>, p: Pitch31) -> int {
    if acc_has(acc, p) {
        acc[choose|w: int| 0 <= w < acc.len() && (#[trigger] acc[w]).0 == p].1 as int
    } else {
        0
    }
}

/// With distinct keys, the recorded value of each entry's key is that
/// entry's value.
proof fn lemma_acc_val_at(acc: Seq<(Pitch31, u128)>, w: int)
    requires
        forall|w1: int, w2: int|
            0 <= w1 < w2 < acc.len() ==> (#[trigger] acc[w1]).0 != (#[trigger] acc[w2]).0,
        0 <= w < acc.len(),
    ensures
        acc_val(acc, acc[w].0) == acc[w].1 as int,
{
    assert(acc_has(acc, acc[w].0));
    let v = choose|v: int| 0 <= v < acc.len() && (#[trigger] acc[v]).0 == acc[w].0;
    assert(v == w);
}

/// Adds `term` to the score recorded for `can`, creating the entry when it
/// is absent; every other key keeps its value.
fn bump_score(acc: &mut Vec<(Pitch31, u128)>, can: Pitch31, term: u64)
    requires
        forall|w1: int, w2: int|
            0 <= w1 < w2 < old(acc)@.len() ==> (#[trigger] old(acc)@[w1]).0 != (
            #[trigger] old(acc)@[w2]).0,
        acc_val(old(acc)@, can) + term <= u128::MAX,
        acc_val(old(acc)@, can) >= 0,
    ensures
        forall|w1: int, w2: int|
            0 <= w1 < w2 < final(acc)@.len() ==> (#[trigger] final(acc)@[w1]).0 != (
            #[trigger] final(acc)@[w2]).0,
        forall|p: Pitch31| p != can ==> acc_val(final(acc)@, p) == acc_val(old(acc)@, p),
        acc_val(final(acc)@, can) == acc_val(old(acc)@, can) + term,
        forall|p: Pitch31| acc_has(final(acc)@, p) <==> acc_has(old(acc)@, p) || p == can,
{
    let ghost accold = acc@;
    let mut w: usize = 0;
    let mut widx: usize = 0;
    let mut found = false;
    let alen = acc.len();
    while w < alen
        invariant
            w <= alen,
            alen == accold.len(),
            acc@ == accold,
            found ==> widx < alen && accold[widx as int].0 == can,
            !found ==> forall|v: int| 0 <= v < w ==> (#[trigger] accold[v]).0 != can,
        decreases alen - w,
    {
        if !found && acc[w].0 == can {
            found = true;
            widx = w;
        }
        w = w + 1;
    }
    if found {
        proof {
            lemma_acc_val_at(accold, widx as int);
        }
        let entry = acc[widx];
        acc[widx] = (entry.0, entry.1 + term as u128);
        proof {
            assert(acc@ =~= accold.update(widx as int, (can, (entry.1 + term as u128) as u128)));
            assert forall|w1: int, w2: int| 0 <= w1 < w2 < acc@.len() implies (
            #[trigger] acc@[w1]).0 != (#[trigger] acc@[w2]).0 by {
                assert(acc@[w1].0 == accold[w1].0 && acc@[w2].0 == accold[w2].0);
            }
            assert forall|p: Pitch31| acc_has(acc@, p) <==> acc_has(accold, p) by {
                if acc_has(acc@, p) {
                    let v = choose|v: int| 0 <= v < acc@.len() && (#[trigger] acc@[v]).0 == p;
                    assert(accold[v].0 == p);
                }
                if acc_has(accold, p) {
                    let v = choose|v: int| 0 <= v < accold.len() && (#[trigger] accold[v]).0 == p;
                    assert(acc@[v].0 == p);
                }
            }
            lemma_acc_val_at(acc@, widx as int);
            assert forall|p: Pitch31| p != can implies acc_val(acc@, p) == acc_val(accold, p) by {
                if acc_has(accold, p) {
                    let v = choose|v: int| 0 <= v < accold.len() && (#[trigger] accold[v]).0 == p;
                    assert(v != widx as int);
                    assert(acc@[v] == accold[v]);
                    lemma_acc_val_at(accold, v);
                    lemma_acc_val_at(acc@, v);
                }
            }
        }
    } else {
        acc.push((can, term as u128));
        proof {
            assert(!acc_has(accold, can)) by {
                if acc_has(accold, can) {
                    let v = choose|v: int|
                        0 <= v < accold.len() && (#[trigger] accold[v]).0 == can;
                }
            }
            assert(acc_val(accold, can) == 0);
            assert(acc@ =~= accold.push((can, term as u128)));
            assert forall|w1: int, w2: int| 0 <= w1 < w2 < acc@.len() implies (
            #[trigger] acc@[w1]).0 != (#[trigger] acc@[w2]).0 by {
                if w2 < accold.len() {
                    assert(acc@[w1].0 == accold[w1].0 && acc@[w2].0 == accold[w2].0);
                } else {
                    assert(acc@[w2].0 == can);
                    assert(acc@[w1].0 == accold[w1].0);
                    assert(!acc_has(accold, can));
                }
            }
            assert forall|p: Pitch31| acc_has(acc@, p) <==> acc_has(accold, p) || p == can by {
                if acc_has(acc@, p) {
                    let v = choose|v: int| 0 <= v < acc@.len() && (#[trigger] acc@[v]).0 == p;
                    if v < accold.len() {
                        assert(accold[v].0 == p);
                    }
                }
                if acc_has(accold, p) {
                    let v = choose|v: int| 0 <= v < accold.len() && (#[trigger] accold[v]).0 == p;
                    assert(acc@[v].0 == p);
                }
                assert(acc@[accold.len() as int].0 == can);
            }
            lemma_acc_val_at(acc@, accold.len() as int);
            assert forall|p: Pitch31| p != can implies acc_val(acc@, p) == acc_val(accold, p) by {
                if acc_has(accold, p) {
                    let v = choose|v: int| 0 <= v < accold.len() && (#[trigger] accold[v]).0 == p;
                    assert(acc@[v] == accold[v]);
                    lemma_acc_val_at(accold, v);
                    lemma_acc_val_at(acc@, v);
                }
            }
        }
    }
}

impl TonalSpace {
    /// Accumulates, for every candidate projection of every registry entry,
    /// its total fixed-point score, walking the recency order most recent
    /// first with a decaying order multiplier.
    #[verifier::loop_isolation(false)]
    #[verifier::rlimit(100)]
    fn accumulate_scores(&self, midi_note: u8, am: AssonanceMetric, pt: ProjectionType) -> (acc:
        Vec<(Pitch31, u128)>)
        requires
            self.wf(),
        ensures
            forall|w1: int, w2: int|
                0 <= w1 < w2 < acc@.len() ==> (#[trigger] acc@[w1]).0 != (#[trigger] acc@[w2]).0,
            forall|p: Pitch31|
                acc_val(acc@, p) == spec_score(*self, midi_note, pt, am, p),
            forall|w: int|
                0 <= w < acc@.len() ==> is_candidate(*self, midi_note, pt, (#[trigger] acc@[w]).0),
            forall|p: Pitch31| is_candidate(*self, midi_note, pt, p) ==> acc_has(acc@, p),
    {
        let olen = self.note_order.len();
        proof {
            lemma_order_len_bound(*self);
        }
        let mut acc: Vec<(Pitch31, u128)> = Vec::new();
        let mut m: u64 = SCORE_SCALE;
        let mut k: usize = 0;
        while k < olen
            invariant
                k <= olen,
                m as int == mult_at(k as nat),
                forall|w1: int, w2: int|
                    0 <= w1 < w2 < acc@.len() ==> (#[trigger] acc@[w1]).0 != (
                    #[trigger] acc@[w2]).0,
                forall|p: Pitch31|
                    acc_val(acc@, p) == score_upto(*self, midi_note, pt, am, p, k as nat),
                forall|w: int|
                    0 <= w < acc@.len() ==> is_candidate_upto(
                        *self,
                        midi_note,
                        pt,
                        (#[trigger] acc@[w]).0,
                        k as int,
                    ),
                forall|p: Pitch31|
                    is_candidate_upto(*self, midi_note, pt, p, k as int) ==> acc_has(acc@, p),
            decreases olen - k,
        {
            let nn = self.note_order[k];
            let ni = note_index_exec(nn);
            let ghost es = self.class_of(nn);
            let clen = self.notes[ni].len();
            proof {
                assert(es.len() > 0);
                lemma_class_len_bound(*self, ni as int);
                lemma_mult_at_bounds(k as nat);
            }
            let c64: u64 = clen as u64;
            let mut j: usize = 0;
            while j < clen
                invariant
                    j <= clen,
                    clen == es.len(),
                    forall|w1: int, w2: int|
                        0 <= w1 < w2 < acc@.len() ==> (#[trigger] acc@[w1]).0 != (
                        #[trigger] acc@[w2]).0,
                    forall|p: Pitch31|
                        acc_val(acc@, p) == score_upto(*self, midi_note, pt, am, p, k as nat)
                            + class_score(
                            es.take(j as int),
                            midi_note,
                            pt,
                            am,
                            p,
                            clen as int,
                            m as int,
                        ),
                    forall|w: int|
                        0 <= w < acc@.len() ==> is_candidate_upto(
                            *self,
                            midi_note,
                            pt,
                            (#[trigger] acc@[w]).0,
                            k as int + 1,
                        ),
                    forall|p: Pitch31|
                        (is_candidate_upto(*self, midi_note, pt, p, k as int) || exists|jj: int|
                            0 <= jj < j && candidate_pitches(#[trigger] es[jj], midi_note, pt)
                                .contains(p)) ==> acc_has(acc@, p),
                decreases clen - j,
            {
                let t = self.notes[ni][j];
                let cands = t.get_candidate_projections(midi_note, pt);
                let ghost cl = candidate_pitches(t, midi_note, pt);
                proof {
                    assert(t == es[j as int]);
                    assert(t.wf());
                    lemma_candidates_distinct(t, midi_note, pt);
                }
                let canlen = cands.len();
                let mut ci: usize = 0;
                while ci < canlen
                    invariant
                        ci <= canlen,
                        canlen == cl.len(),
                        forall|w1: int, w2: int|
                            0 <= w1 < w2 < acc@.len() ==> (#[trigger] acc@[w1]).0 != (
                            #[trigger] acc@[w2]).0,
                        forall|p: Pitch31|
                            acc_val(acc@, p) == score_upto(*self, midi_note, pt, am, p, k as nat)
                                + class_score(
                                es.take(j as int),
                                midi_note,
                                pt,
                                am,
                                p,
                                clen as int,
                                m as int,
                            ) + if cl.take(ci as int).contains(p) {
                                proj_term(t, midi_note, pt, am, p, clen as int, m as int)
                            } else {
                                0
                            },
                        forall|w: int|
                            0 <= w < acc@.len() ==> is_candidate_upto(
                                *self,
                                midi_note,
                                pt,
                                (#[trigger] acc@[w]).0,
                                k as int + 1,
                            ),
                        forall|p: Pitch31|
                            (is_candidate_upto(*self, midi_note, pt, p, k as int) || (exists|
                                jj: int,
                            |
                                0 <= jj < j && candidate_pitches(#[trigger] es[jj], midi_note, pt)
                                    .contains(p)) || cl.take(ci as int).contains(p)) ==> acc_has(
                                acc@,
                                p,
                            ),
                    decreases canlen - ci,
                {
                    let can = cands[ci];
                    let a: u8 = t.get_assonance_coefficient(can, am);
                    proof {
                        lemma_mult_at_bounds(k as nat);
                        assert(m <= SCORE_SCALE);
                        assert(a <= 15);
                        assert((a as u64 as int) * (m as int) <= 15 * SCORE_SCALE)
                            by (nonlinear_arith)
                            requires 0 <= a as u64 as int <= 15 && 0 <= m as int <= SCORE_SCALE;
                    }
                    let term: u64 = (a as u64) * m / c64;
                    let ghost accold = acc@;
                    let ghost clnext = cl.take(ci as int + 1);
                    proof {
                        assert(cl.contains(can)) by {
                            assert(cl[ci as int] == can);
                        }
                        assert(term as int == proj_term(
                            t,
                            midi_note,
                            pt,
                            am,
                            can,
                            clen as int,
                            m as int,
                        ));
                        assert(!cl.take(ci as int).contains(can)) by {
                            if cl.take(ci as int).contains(can) {
                                let jj = choose|jj: int|
                                    0 <= jj < ci && cl.take(ci as int)[jj] == can;
                                assert(cl[jj] == cl[ci as int]);
                            }
                        }
                        assert(clnext =~= cl.take(ci as int).push(can));
                        lemma_score_upto_bounds(*self, midi_note, pt, am, can, k as nat);
                        lemma_class_score_bounds(
                            es.take(j as int),
                            midi_note,
                            pt,
                            am,
                            can,
                            clen as int,
                            m as int,
                        );
                        assert(es.take(j as int).len() * (15 * SCORE_SCALE) <= 2001 * (
                        15 * SCORE_SCALE)) by (nonlinear_arith)
                            requires 0 <= es.take(j as int).len() <= 2001;
                        assert(k as int * 2001 * (15 * SCORE_SCALE) <= 31 * 2001 * (
                        15 * SCORE_SCALE)) by (nonlinear_arith)
                            requires 0 <= k as int <= 31;
                    }
                    bump_score(&mut acc, can, term);
                    proof {
                        assert forall|p: Pitch31|
                            acc_val(acc@, p) == score_upto(*self, midi_note, pt, am, p, k as nat)
                                + class_score(
                                es.take(j as int),
                                midi_note,
                                pt,
                                am,
                                p,
                                clen as int,
                                m as int,
                            ) + if clnext.contains(p) {
                                proj_term(t, midi_note, pt, am, p, clen as int, m as int)
                            } else {
                                0
                            } by {
                            assert(clnext.contains(p) <==> cl.take(ci as int).contains(p) || p
                                == can) by {
                                if clnext.contains(p) {
                                    let v = choose|v: int|
                                        0 <= v < clnext.len() && clnext[v] == p;
                                    if v < ci as int {
                                        assert(cl.take(ci as int)[v] == p);
                                    } else {
                                        assert(clnext[ci as int] == can);
                                    }
                                }
                                if cl.take(ci as int).contains(p) {
                                    let v = choose|v: int|
                                        0 <= v < ci as int && cl.take(ci as int)[v] == p;
                                    assert(clnext[v] == p);
                                }
                                assert(clnext[ci as int] == can);
                            }
                        }
                        assert forall|p: Pitch31|
                            (is_candidate_upto(*self, midi_note, pt, p, k as int) || (exists|
                                jj: int,
                            |
                                0 <= jj < j && candidate_pitches(#[trigger] es[jj], midi_note, pt)
                                    .contains(p)) || clnext.contains(p)) implies acc_has(
                            acc@,
                            p,
                        ) by {
                            if clnext.contains(p) {
                                let v = choose|v: int| 0 <= v < clnext.len() && clnext[v] == p;
                                if v < ci as int {
                                    assert(cl.take(ci as int)[v] == p);
                                    assert(acc_has(accold, p));
                                } else {
                                    assert(clnext[ci as int] == can);
                                    assert(p == can);
                                }
                            } else {
                                assert(acc_has(accold, p));
                            }
                        }
                        assert forall|w2: int| 0 <= w2 < acc@.len() implies is_candidate_upto(
                            *self,
                            midi_note,
                            pt,
                            (#[trigger] acc@[w2]).0,
                            k as int + 1,
                        ) by {
                            let p = acc@[w2].0;
                            assert(acc_has(acc@, p));
                            if p == can {
                                assert(candidate_pitches(
                                    self.class_of(self.note_order@[k as int])[j as int],
                                    midi_note,
                                    pt,
                                ).contains(p));
                            } else {
                                assert(acc_has(accold, p));
                                let v = choose|v: int|
                                    0 <= v < accold.len() && (#[trigger] accold[v]).0 == p;
                            }
                        }
                    }
                    ci = ci + 1;
                }
                proof {
                    assert(cl.take(canlen as int) =~= cl);
                    assert forall|p: Pitch31|
                        class_score(
                            es.take(j as int + 1),
                            midi_note,
                            pt,
                            am,
                            p,
                            clen as int,
                            m as int,
                        ) == class_score(
                            es.take(j as int),
                            midi_note,
                            pt,
                            am,
                            p,
                            clen as int,
                            m as int,
                        ) + proj_term(t, midi_note, pt, am, p, clen as int, m as int) by {
                        assert(es.take(j as int + 1).drop_last() =~= es.take(j as int));
                        assert(es.take(j as int + 1).last() == t);
                    }
                }
                j = j + 1;
            }
            proof {
                assert(es.take(clen as int) =~= es);
                assert forall|p: Pitch31|
                    score_upto(*self, midi_note, pt, am, p, (k + 1) as nat) == score_upto(
                        *self,
                        midi_note,
                        pt,
                        am,
                        p,
                        k as nat,
                    ) + class_score(es, midi_note, pt, am, p, clen as int, m as int) by {
                    assert(self.note_order@[k as int] == nn);
                }
                assert forall|p: Pitch31|
                    is_candidate_upto(*self, midi_note, pt, p, k as int + 1) implies (
                is_candidate_upto(*self, midi_note, pt, p, k as int) || exists|jj: int|
                    0 <= jj < clen && candidate_pitches(#[trigger] es[jj], midi_note, pt).contains(
                        p,
                    )) by {
                    let (kk, jj) = choose|kk: int, jj: int|
                        0 <= kk < k as int + 1 && 0 <= jj < self.class_of(
                            self.note_order@[kk],
                        ).len() && candidate_pitches(
                            #[trigger] self.class_of(self.note_order@[kk])[jj],
                            midi_note,
                            pt,
                        ).contains(p);
                    if kk == k as int {
                        assert(candidate_pitches(es[jj], midi_note, pt).contains(p));
                    }
                }
            }
            m = m * ORDER_PRECEDENCE_NUM / ORDER_PRECEDENCE_DEN;
            k = k + 1;
        }
        acc
    }
}

/// What the ranking returns: sorted ascending by score, exactly one entry
/// per candidate pitch, and each entry carrying that candidate's exact
/// accumulated score.
pub open spec fn ranked_ok(
    space: TonalSpace,
    key: u8,
    am: AssonanceMetric,
    pt: ProjectionType,
    r: Seq<(Pitch31, u128)>,
) -> bool {
    &&& forall|i1: int, i2: int|
        0 <= i1 < i2 < r.len() ==> (#[trigger] r[i1]).1 <= (#[trigger] r[i2]).1
    &&& forall|i1: int, i2: int|
        0 <= i1 < i2 < r.len() ==> (#[trigger] r[i1]).0 != (#[trigger] r[i2]).0
    &&& forall|i: int|
        0 <= i < r.len() ==> (#[trigger] r[i]).1 as int == spec_score(space, key, pt, am, r[i].0)
            && is_candidate(space, key, pt, r[i].0)
    &&& forall|p: Pitch31|
        is_candidate(space, key, pt, p) ==> exists|i: int|
            0 <= i < r.len() && (#[trigger] r[i]).0 == p
}

impl TonalSpace {
    /// Returns all candidate 31-EDO realizations of `midi_note` against the
    /// current space, each with its accumulated assonance score, sorted best
    /// (lowest score) first; ties stand in arbitrary order.
    ///
    /// Scores are exact integers in fixed-point units of `1 / SCORE_SCALE`:
    /// each sounding entry whose projections include the candidate
    /// contributes its assonance coefficient times the recency-decayed order
    /// multiplier of its class, divided by the entry count of that class.
    pub fn convert_to_31(&self, midi_note: u8, am: AssonanceMetric, pt: ProjectionType) -> (r: Vec<
        (Pitch31, u128),
    >)
        requires
            self.wf(),
        ensures
            ranked_ok(*self, midi_note, am, pt, r@),
    {
        let acc = self.accumulate_scores(midi_note, am, pt);
        let r = sort_by_score(acc);
        proof {
            assert forall|i: int| 0 <= i < r@.len() implies (#[trigger] r@[i]).1 as int
                == spec_score(*self, midi_note, pt, am, r@[i].0) && is_candidate(
                *self,
                midi_note,
                pt,
                r@[i].0,
            ) by {
                assert(acc@.contains(r@[i]));
                let w = choose|w: int| 0 <= w < acc@.len() && #[trigger] acc@[w] == r@[i];
                lemma_acc_val_at(acc@, w);
            }
            assert forall|p: Pitch31| is_candidate(*self, midi_note, pt, p) implies exists|i: int|
                0 <= i < r@.len() && (#[trigger] r@[i]).0 == p by {
                assert(acc_has(acc@, p));
                let w = choose|w: int| 0 <= w < acc@.len() && (#[trigger] acc@[w]).0 == p;
                assert(r@.contains(acc@[w]));
                let i = choose|i: int| 0 <= i < r@.len() && r@[i] == acc@[w];
                assert(r@[i].0 == p);
            }
        }
        r
    }
}

/// Sorts accumulated entries ascending by score (ties in arbitrary order),
/// keeping exactly the same entries.
#[verifier::loop_isolation(false)]
#[verifier::rlimit(100)]
fn sort_by_score(acc: Vec<(Pitch31, u128)>) -> (r: Vec<(Pitch31, u128)>)
    requires
        forall|w1: int, w2: int|
            0 <= w1 < w2 < acc@.len() ==> (#[trigger] acc@[w1]).0 != (#[trigger] acc@[w2]).0,
    ensures
        r@.len() == acc@.len(),
        forall|i1: int, i2: int|
            0 <= i1 < i2 < r@.len() ==> (#[trigger] r@[i1]).1 <= (#[trigger] r@[i2]).1,
        forall|i1: int, i2: int|
            0 <= i1 < i2 < r@.len() ==> (#[trigger] r@[i1]).0 != (#[trigger] r@[i2]).0,
        forall|i: int| 0 <= i < r@.len() ==> acc@.contains(#[trigger] r@[i]),
        forall|w: int| 0 <= w < acc@.len() ==> r@.contains(#[trigger] acc@[w]),
{
    let mut out: Vec<(Pitch31, u128)> = Vec::new();
    let mut q: usize = 0;
    let alen = acc.len();
    while q < alen
        invariant
            q <= alen,
            alen == acc@.len(),
            out@.len() == q,
            forall|i1: int, i2: int|
                0 <= i1 < i2 < out@.len() ==> (#[trigger] out@[i1]).1 <= (#[trigger] out@[i2]).1,
            forall|i: int| 0 <= i < out@.len() ==> acc@.take(q as int).contains(#[trigger] out@[i]),
            forall|w: int| 0 <= w < q ==> out@.contains(#[trigger] acc@[w]),
            forall|v1: int, v2: int|
                0 <= v1 < v2 < out@.len() ==> #[trigger] out@[v1] != #[trigger] out@[v2],
        decreases alen - q,
    {
        let e = acc[q];
        let olen2 = out.len();
        let mut pos: usize = 0;
        while pos < olen2 && out[pos].1 <= e.1
            invariant
                pos <= olen2,
                olen2 == out@.len(),
                forall|v: int| 0 <= v < pos ==> (#[trigger] out@[v]).1 <= e.1,
            decreases olen2 - pos,
        {
            pos = pos + 1;
        }
        let ghost outold = out@;
        out.insert(pos, e);
        proof {
            assert(out@ =~= outold.insert(pos as int, e));
            assert forall|i1: int, i2: int| 0 <= i1 < i2 < out@.len() implies (
            #[trigger] out@[i1]).1 <= (#[trigger] out@[i2]).1 by {
                let a1 = if i1 < pos as int { outold[i1] } else if i1 == pos as int { e } else {
                    outold[i1 - 1]
                };
                let a2 = if i2 < pos as int { outold[i2] } else if i2 == pos as int { e } else {
                    outold[i2 - 1]
                };
                assert(out@[i1] == a1 && out@[i2] == a2);
                if (pos as int) < outold.len() {
                    assert(outold[pos as int].1 > e.1);
                }
            }
            assert forall|i: int| 0 <= i < out@.len() implies acc@.take(q as int + 1).contains(
                #[trigger] out@[i],
            ) by {
                if i == pos as int {
                    assert(acc@.take(q as int + 1)[q as int] == e);
                } else {
                    let v = if i < pos as int { i } else { i - 1 };
                    assert(out@[i] == outold[v]);
                    assert(acc@.take(q as int).contains(outold[v]));
                    let w = choose|w: int|
                        0 <= w < q && #[trigger] acc@.take(q as int)[w] == outold[v];
                    assert(acc@.take(q as int + 1)[w] == outold[v]);
                }
            }
            assert forall|w: int| 0 <= w < q + 1 implies out@.contains(#[trigger] acc@[w]) by {
                if w == q as int {
                    assert(out@[pos as int] == acc@[w]);
                } else {
                    let v = choose|v: int| 0 <= v < outold.len() && outold[v] == acc@[w];
                    if v < pos as int {
                        assert(out@[v] == acc@[w]);
                    } else {
                        assert(out@[v + 1] == acc@[w]);
                    }
                }
            }
            assert(!outold.contains(e)) by {
                if outold.contains(e) {
                    let v = choose|v: int| 0 <= v < outold.len() && outold[v] == e;
                    assert(acc@.take(q as int).contains(outold[v]));
                    let w = choose|w: int|
                        0 <= w < q && #[trigger] acc@.take(q as int)[w] == outold[v];
                    assert(acc@[w] == acc@[q as int]);
                    assert(acc@[w].0 == acc@[q as int].0);
                }
            }
            assert forall|v1: int, v2: int| 0 <= v1 < v2 < out@.len() implies #[trigger] out@[v1]
                != #[trigger] out@[v2] by {
                let a1 = if v1 < pos as int { outold[v1] } else if v1 == pos as int { e } else {
                    outold[v1 - 1]
                };
                let a2 = if v2 < pos as int { outold[v2] } else if v2 == pos as int { e } else {
                    outold[v2 - 1]
                };
                assert(out@[v1] == a1 && out@[v2] == a2);
                if v1 != pos as int && v2 != pos as int {
                } else {
                    assert(!outold.contains(e));
                    if v1 == pos as int {
                        assert(outold[v2 - 1] == a2);
                        if a1 == a2 {
                            assert(outold.contains(e));
                        }
                    } else {
                        assert(outold[v1] == a1);
                        if a1 == a2 {
                            assert(outold.contains(e));
                        }
                    }
                }
            }
        }
        q = q + 1;
    }
    proof {
        assert(acc@.take(alen as int) =~= acc@);
        assert forall|i1: int, i2: int| 0 <= i1 < i2 < out@.len() implies (#[trigger] out@[i1]).0
            != (#[trigger] out@[i2]).0 by {
            if out@[i1].0 == out@[i2].0 {
                assert(acc@.contains(out@[i1]));
                assert(acc@.contains(out@[i2]));
                let w1 = choose|w: int| 0 <= w < acc@.len() && #[trigger] acc@[w] == out@[i1];
                let w2 = choose|w: int| 0 <= w < acc@.len() && #[trigger] acc@[w] == out@[i2];
                assert(acc@[w1].0 == acc@[w2].0);
                assert(w1 == w2);
                assert(out@[i1] == out@[i2]);
            }
        }
    }
    out
}

impl TonalSpace {
    /// What slot `i` holds after `release_key(key)`: the entries whose
    /// source key differs from `key`.
    pub open spec fn spec_release_class(self, key: u8, i: int) -> Seq<TSPitch> {
        self.class_at(i).filter(|e: TSPitch| e.midi_key != key)
    }

    /// What the recency order holds after `release_key(key)`: the classes
    /// still non-empty, in their old order.
    pub open spec fn spec_release_order(self, key: u8) -> Seq<Note> {
        self.note_order@.filter(|n: Note| self.spec_release_class(key, note_index(n)).len() > 0)
    }

    /// Relation between the space before and after `release_key(key)`.
    pub open spec fn spec_released(self, now: TonalSpace, key: u8) -> bool {
        &&& forall|i: int|
            0 <= i < 31 ==> #[trigger] now.class_at(i) == self.spec_release_class(key, i)
        &&& now.note_order@ == self.spec_release_order(key)
    }

    /// Releases every pitch that source key `midi_key` produced, dropping
    /// classes this empties from the recency order. This is the note-off
    /// eviction policy; under the default policy it is never invoked and
    /// entries decay by clash alone.
    #[verifier::loop_isolation(false)]
    pub fn release_key(&mut self, midi_key: u8)
        requires
            old(self).wf(),
        ensures
            final(self).wf(),
            old(self).spec_released(*final(self), midi_key),
    {
        let ghost orig = *self;
        let ghost pred = |e: TSPitch| e.midi_key != midi_key;
        let mut i: usize = 0;
        while i < 31
            invariant
                i <= 31,
                self.notes@.len() == 31,
                self.note_order@ == orig.note_order@,
                forall|v: int|
                    0 <= v < i ==> #[trigger] self.class_at(v) == orig.spec_release_class(
                        midi_key,
                        v,
                    ),
                forall|v: int| i <= v < 31 ==> #[trigger] self.class_at(v) == orig.class_at(v),
            decreases 31 - i,
        {
            proof {
                assert(self.class_at(i as int) == orig.class_at(i as int));
            }
            let len_i = self.notes[i].len();
            let mut nv: Vec<TSPitch> = Vec::new();
            let mut j: usize = 0;
            while j < len_i
                invariant
                    j <= len_i,
                    i < 31,
                    len_i == orig.class_at(i as int).len(),
                    self.notes@.len() == 31,
                    forall|v: int|
                        0 <= v < i ==> #[trigger] self.class_at(v) == orig.spec_release_class(
                            midi_key,
                            v,
                        ),
                    forall|v: int| i <= v < 31 ==> #[trigger] self.class_at(v) == orig.class_at(v),
                    nv@ =~= orig.class_at(i as int).take(j as int).filter(pred),
                decreases len_i - j,
            {
                let e = self.notes[i][j];
                proof {
                    reveal(Seq::filter);
                    assert(orig.class_at(i as int).take(j + 1).drop_last() =~= orig.class_at(
                        i as int,
                    ).take(j as int));
                    assert(orig.class_at(i as int).take(j + 1).last() == e);
                }
                if e.midi_key != midi_key {
                    nv.push(e);
                    proof {
                        assert(pred(e));
                        assert(nv@ =~= orig.class_at(i as int).take(j + 1).filter(pred));
                    }
                } else {
                    proof {
                        assert(!pred(e));
                        assert(nv@ =~= orig.class_at(i as int).take(j + 1).filter(pred));
                    }
                }
                j = j + 1;
            }
            proof {
                assert(orig.class_at(i as int).take(len_i as int) =~= orig.class_at(i as int));
            }
            let ghost pre = *self;
            let ghost nvv = nv@;
            self.notes[i] = nv;
            proof {
                assert(self.notes@ =~= pre.notes@.update(i as int, self.notes@[i as int]));
                assert(self.class_at(i as int) == nvv);
                assert(nvv == orig.class_at(i as int).filter(pred));
                assert forall|v: int| 0 <= v < i + 1 implies #[trigger] self.class_at(v)
                    == orig.spec_release_class(midi_key, v) by {
                    if v < i as int {
                        assert(self.notes@[v] == pre.notes@[v]);
                        assert(pre.class_at(v) == orig.spec_release_class(midi_key, v));
                    }
                }
                assert forall|v: int| i + 1 <= v < 31 implies #[trigger] self.class_at(v)
                    == orig.class_at(v) by {
                    assert(self.notes@[v] == pre.notes@[v]);
                    assert(pre.class_at(v) == orig.class_at(v));
                }
            }
            i = i + 1;
        }
        let ghost opred = |n: Note| orig.spec_release_class(midi_key, note_index(n)).len() > 0;
        let mut no: Vec<Note> = Vec::new();
        let olen = self.note_order.len();
        let mut k: usize = 0;
        while k < olen
            invariant
                k <= olen,
                olen == orig.note_order@.len(),
                self.note_order@ == orig.note_order@,
                self.notes@.len() == 31,
                forall|v: int|
                    0 <= v < 31 ==> #[trigger] self.class_at(v) == orig.spec_release_class(
                        midi_key,
                        v,
                    ),
                no@ =~= orig.note_order@.take(k as int).filter(opred),
            decreases olen - k,
        {
            let nn = self.note_order[k];
            proof {
                reveal(Seq::filter);
                assert(orig.note_order@.take(k + 1).drop_last() =~= orig.note_order@.take(
                    k as int,
                ));
                assert(orig.note_order@.take(k + 1).last() == nn);
            }
            let nni = note_index_exec(nn);
            proof {
                assert(self.class_at(nni as int) == orig.spec_release_class(
                    midi_key,
                    nni as int,
                ));
            }
            if self.notes[nni].len() > 0 {
                no.push(nn);
                proof {
                    assert(opred(nn));
                    assert(no@ =~= orig.note_order@.take(k + 1).filter(opred));
                }
            } else {
                proof {
                    assert(!opred(nn));
                    assert(no@ =~= orig.note_order@.take(k + 1).filter(opred));
                }
            }
            k = k + 1;
        }
        let ghost before_order = *self;
        self.note_order = no;
        proof {
            assert forall|v: int| 0 <= v < 31 implies #[trigger] self.class_at(v)
                == orig.spec_release_class(midi_key, v) by {
                assert(self.notes@[v] == before_order.notes@[v]);
                assert(before_order.class_at(v) == orig.spec_release_class(midi_key, v));
            }
            assert(orig.note_order@.take(olen as int) =~= orig.note_order@);
            lemma_release_preserves_wf(orig, *self, midi_key);
        }
    }
}

/// The release contract implies the structural invariant of the space.
proof fn lemma_release_preserves_wf(orig: TonalSpace, now: TonalSpace, key: u8)
    requires
        orig.wf(),
        now.notes@.len() == 31,
        forall|i: int|
            0 <= i < 31 ==> #[trigger] now.class_at(i) == orig.spec_release_class(key, i),
        now.note_order@ == orig.spec_release_order(key),
    ensures
        now.wf(),
{
    let pred = |e: TSPitch| e.midi_key != key;
    let opred = |n: Note| orig.spec_release_class(key, note_index(n)).len() > 0;
    let tail = orig.note_order@.filter(opred);

    assert forall|i: int| 0 <= i < 31 implies class_wf(#[trigger] now.class_at(i), i) by {
        assert(class_wf(orig.class_at(i), i));
        lemma_filter_class_wf(orig.class_at(i), pred, i);
    }

    lemma_filter_no_duplicates(orig.note_order@, opred);

    assert forall|k: int| 0 <= k < now.note_order@.len() implies now.class_of(
        #[trigger] now.note_order@[k],
    ).len() > 0 by {
        orig.note_order@.lemma_filter_pred(opred, k);
        let n = now.note_order@[k];
        assert(opred(n));
        assert(0 <= note_index(n) < 31) by {
            assert(-23 <= n.spec_steps_from_a() <= 7);
        }
    }

    assert forall|i: int| 0 <= i < 31 && #[trigger] now.class_at(i).len() > 0 implies now
        .note_order@.contains(note_from_index(i)) by {
        let n = note_from_index(i);
        assert(note_index(n) == i);
        assert(orig.class_at(i).len() > 0) by {
            if orig.class_at(i).len() == 0 {
                orig.class_at(i).lemma_filter_len(pred);
            }
        }
        assert(orig.note_order@.contains(n));
        assert(opred(n));
        lemma_filter_membership(orig.note_order@, opred, n);
    }
}

impl Default for TonalSpace {
    /// The default space is empty: no sounding pitches, no recency order.
    fn default() -> (r: TonalSpace)
        ensures
            r.wf(),
            r.note_order@ == Seq::<Note>::empty(),
            forall|i: int| 0 <= i < 31 ==> #[trigger] r.class_at(i).len() == 0,
    {
        TonalSpace::empty()
    }
}

/// Recency decay: between two classes listed in the recency order of a
/// well-formed space, the more recently struck one carries a strictly
/// larger order multiplier, and even the least recent multiplier stays
/// positive: the decay coefficient is applied once per class, in recency
/// order.
pub proof fn lemma_recency_decay(space: TonalSpace, k1: int, k2: int)
    requires
        space.wf(),
        0 <= k1 < k2 < space.note_order@.len(),
    ensures
        mult_at(k1 as nat) > mult_at(k2 as nat),
        mult_at(k2 as nat) >= 1,
{
    lemma_order_len_bound(space);
    lemma_mult_strict(k1 as nat, k2 as nat);
    lemma_mult_at_bounds(k2 as nat);
}

/// Filtering leaves a sequence unchanged when every member satisfies the
/// predicate.
proof fn lemma_filter_all_true<A>(s: Seq<A>, pred: spec_fn(A) -> bool)
    requires
        forall|i: int| 0 <= i < s.len() ==> pred(#[trigger] s[i]),
    ensures
        s.filter(pred) == s,
    decreases s.len(),
{
    reveal(Seq::filter);
    if s.len() > 0 {
        assert forall|i: int| 0 <= i < s.drop_last().len() implies pred(
            #[trigger] s.drop_last()[i],
        ) by {
            assert(s.drop_last()[i] == s[i]);
        }
        lemma_filter_all_true(s.drop_last(), pred);
        assert(pred(s.last()));
        assert(s.filter(pred) =~= s);
    }
}

/// Filtering twice with the same predicate is the same as filtering once.
proof fn lemma_filter_idempotent<A>(s: Seq<A>, pred: spec_fn(A) -> bool)
    ensures
        s.filter(pred).filter(pred) == s.filter(pred),
{
    assert forall|i: int| 0 <= i < s.filter(pred).len() implies pred(
        #[trigger] s.filter(pred)[i],
    ) by {
        s.lemma_filter_pred(pred, i);
    }
    lemma_filter_all_true(s.filter(pred), pred);
}

/// Idempotent insert: registering the identical `(pitch, source key)` pair
/// into the space a second time changes nothing — the duplicate is not
/// appended, the eviction sweep finds nothing further to remove, and the
/// recency order is already fronted by the pitch's class.
pub proof fn lemma_insert_idempotent(
    s: TonalSpace,
    s1: TonalSpace,
    s2: TonalSpace,
    p: Pitch31,
    key: u8,
)
    requires
        s.wf(),
        p.wf(),
        s1.wf(),
        s.spec_inserted(s1, p, key),
        s2.wf(),
        s1.spec_inserted(s2, p, key),
    ensures
        forall|i: int| 0 <= i < 31 ==> #[trigger] s2.class_at(i) == s1.class_at(i),
        s2.note_order@ == s1.note_order@,
{
    let idx = note_index(p.note);
    crate::theory::lemma_class_steps_roundtrip(p.note);
    let pred = |e: TSPitch| clash_keep(e, p);
    let entry = TSPitch { pitch: p, clash_counter: 0, midi_key: key };

    assert(contains_pitch(s1.class_at(idx), p)) by {
        if contains_pitch(s.class_at(idx), p) {
        } else {
            let es = s.class_at(idx).push(entry);
            assert(es[es.len() - 1].pitch == p);
        }
    }

    assert forall|i: int| 0 <= i < 31 implies #[trigger] s2.class_at(i) == s1.class_at(i) by {
        if i == idx {
        } else if is_clash_neighbor(i, p) {
            assert(s1.class_at(i) == s.class_at(i).filter(pred));
            lemma_filter_idempotent(s.class_at(i), pred);
        } else {
        }
    }

    let opred1 = |n: Note| n != p.note && s.spec_insert_class(p, key, note_index(n)).len() > 0;
    let opred2 = |n: Note| n != p.note && s1.spec_insert_class(p, key, note_index(n)).len() > 0;
    let tail1 = s.note_order@.filter(opred1);
    assert(s1.note_order@ == seq![p.note] + tail1);
    assert(s2.note_order@ == seq![p.note] + s1.note_order@.filter(opred2));
    assert(s1.note_order@.filter(opred2) == tail1) by {
        reveal(Seq::filter);
        assert(s1.note_order@.drop_first() =~= tail1);
        assert forall|v: int| 0 <= v < tail1.len() implies opred2(#[trigger] tail1[v]) by {
            s.note_order@.lemma_filter_pred(opred1, v);
            let n = tail1[v];
            assert(n != p.note);
            assert(0 <= note_index(n) < 31) by {
                assert(-23 <= n.spec_steps_from_a() <= 7);
            }
            assert(s1.note_order@[v + 1] == n);
            assert(s1.class_of(n).len() > 0);
            assert(s1.spec_insert_class(p, key, note_index(n)).len() > 0) by {
                if note_index(n) == idx {
                    assert(contains_pitch(s1.class_at(idx), p));
                } else if is_clash_neighbor(note_index(n), p) {
                    assert(s1.class_at(note_index(n)) == s.class_at(note_index(n)).filter(pred));
                    lemma_filter_idempotent(s.class_at(note_index(n)), pred);
                }
            }
        }
        lemma_filter_all_true(tail1, opred2);
        assert(!opred2(p.note));
        assert(s1.note_order@.len() > 0 && s1.note_order@[0] == p.note);
        lemma_filter_skip_head(s1.note_order@, opred2);
    }
}

/// Filtering a non-empty sequence whose head fails the predicate filters
/// only the tail.
proof fn lemma_filter_skip_head<A>(s: Seq<A>, pred: spec_fn(A) -> bool)
    requires
        s.len() > 0,
        !pred(s[0]),
    ensures
        s.filter(pred) == s.drop_first().filter(pred),
    decreases s.len(),
{
    reveal(Seq::filter);
    if s.len() == 1 {
        assert(s.drop_last().filter(pred) =~= Seq::<A>::empty().filter(pred));
        assert(s.filter(pred) =~= Seq::<A>::empty());
        assert(s.drop_first() =~= Seq::<A>::empty());
    } else {
        assert(s.drop_last()[0] == s[0]);
        lemma_filter_skip_head(s.drop_last(), pred);
        assert(s.drop_last().drop_first() =~= s.drop_first().drop_last());
        assert(s.drop_first().last() == s.last());
        if pred(s.last()) {
            assert(s.filter(pred) == s.drop_last().filter(pred).push(s.last()));
            assert(s.drop_first().filter(pred) == s.drop_first().drop_last().filter(pred).push(
                s.drop_first().last(),
            ));
        }
    }
}

/// Filtering keeps exactly the members that satisfy the predicate.
pub proof fn lemma_filter_membership<A>(s: Seq<A>, pred: spec_fn(A) -> bool, x: A)
    ensures
        s.filter(pred).contains(x) <==> s.contains(x) && pred(x),
    decreases s.len(),
{
    reveal(Seq::filter);
    if s.len() > 0 {
        lemma_filter_membership(s.drop_last(), pred, x);
        assert(s.contains(x) <==> s.drop_last().contains(x) || s.last() == x) by {
            if s.contains(x) {
                let j = choose|j: int| 0 <= j < s.len() && s[j] == x;
                if j < s.len() - 1 {
                    assert(s.drop_last()[j] == x);
                }
            }
            if s.drop_last().contains(x) {
                let j = choose|j: int| 0 <= j < s.drop_last().len() && s.drop_last()[j] == x;
                assert(s[j] == x);
            }
        }
        if pred(s.last()) {
            assert(s.filter(pred).contains(x) <==> s.drop_last().filter(pred).contains(x)
                || s.last() == x) by {
                let f = s.drop_last().filter(pred);
                assert(s.filter(pred) == f.push(s.last()));
                if s.filter(pred).contains(x) {
                    let j = choose|j: int| 0 <= j < s.filter(pred).len() && s.filter(pred)[j] == x;
                    if j < f.len() {
                        assert(f[j] == x);
                    }
                }
                if f.contains(x) {
                    let j = choose|j: int| 0 <= j < f.len() && f[j] == x;
                    assert(f.push(s.last())[j] == x);
                }
                assert(f.push(s.last())[f.len() as int] == s.last());
            }
        } else {
            assert(s.filter(pred) == s.drop_last().filter(pred));
        }
    }
}

/// Filtering a sequence without duplicate members leaves no duplicates.
pub proof fn lemma_filter_no_duplicates<A>(s: Seq<A>, pred: spec_fn(A) -> bool)
    requires
        s.no_duplicates(),
    ensures
        s.filter(pred).no_duplicates(),
    decreases s.len(),
{
    reveal(Seq::filter);
    if s.len() > 0 {
        assert(s.drop_last().no_duplicates());
        lemma_filter_no_duplicates(s.drop_last(), pred);
        if pred(s.last()) {
            let f = s.drop_last().filter(pred);
            assert(s.filter(pred) == f.push(s.last()));
            assert(!f.contains(s.last())) by {
                lemma_filter_membership(s.drop_last(), pred, s.last());
                if s.drop_last().contains(s.last()) {
                    let j = choose|j: int|
                        0 <= j < s.drop_last().len() && s.drop_last()[j] == s.last();
                    assert(s[j] == s[s.len() - 1]);
                }
            }
            assert forall|j1: int, j2: int| 0 <= j1 < j2 < f.push(s.last()).len() implies f.push(
                s.last(),
            )[j1] != f.push(s.last())[j2] by {
                if j2 < f.len() {
                } else {
                    assert(f.push(s.last())[j2] == s.last());
                    assert(f.contains(f[j1])) by {
                        assert(f.push(s.last())[j1] == f[j1]);
                    }
                }
            }
        }
    }
}

} // verus!
