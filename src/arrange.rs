//! Folding a score into the three-octave playable window.
//!
//! Timestamps are carried as the bit patterns of their `f64` values
//! (`f64::to_bits`): the arrangement copies them and never reads them.
use vstd::prelude::*;
use crate::pitch::{
    decode, encode, key_name_to_midi, lemma_decode_bounds, lemma_decode_encode, midi_note_to_key_name, MAX_PITCH,
    MIN_PITCH,
};

verus! {

/// Shifts a pitch by whole octaves into `[MIN_PITCH, MAX_PITCH]`: up by the
/// fewest octaves that reach the window from below, down by the fewest that
/// reach it from above, unchanged when it already lies inside.
pub open spec fn fold_pitch(p: int) -> int {
    if p < MIN_PITCH {
        MIN_PITCH + (p - MIN_PITCH) % 12
    } else if p > MAX_PITCH {
        (MAX_PITCH - 11) + (p - (MAX_PITCH - 11)) % 12
    } else {
        p
    }
}

fn fold_into_window(p: i64) -> (r: u8)
    requires
        p > i64::MIN + MIN_PITCH,
    ensures
        r == fold_pitch(p as int),
{
    if p < MIN_PITCH as i64 {
        let d: i64 = MIN_PITCH as i64 - p;
        let k: i64 = d % 12;
        assert((p - MIN_PITCH) % 12 == if k == 0 { 0 } else { 12 - k }) by (nonlinear_arith)
            requires
                d == MIN_PITCH - p,
                d > 0,
                k == d % 12,
        ;
        if k == 0 {
            MIN_PITCH
        } else {
            (MIN_PITCH as i64 + 12 - k) as u8
        }
    } else if p > MAX_PITCH as i64 {
        let low: i64 = MAX_PITCH as i64 - 11;
        ((low + (p - low) % 12)) as u8
    } else {
        p as u8
    }
}


/// One timed event of a score.
#[derive(Clone, Debug)]
pub struct ScoreNote {
    /// Names of the pitches sounding together; absent or empty for silence.
    pub keys: Option<Vec<String>>,
    /// Bit pattern of the start time (`f64::to_bits`).
    pub start_time: u64,
    /// Bit pattern of the end time (`f64::to_bits`).
    pub end_time: u64,
    /// `Some(true)` marks an explicit rest, whose keys are ignored.
    pub rest: Option<bool>,
}

/// A song: its title, its tempo, its notes in order and its total length.
#[derive(Clone, Debug)]
pub struct Score {
    pub song: String,
    pub bpm: u32,
    pub notes: Vec<ScoreNote>,
    /// Bit pattern of the total duration (`f64::to_bits`), if known.
    pub total_time: Option<u64>,
}

pub struct NoteView {
    pub keys: Option<Seq<Seq<char>>>,
    pub start_time: u64,
    pub end_time: u64,
    pub rest: Option<bool>,
}

pub struct ScoreView {
    pub song: Seq<char>,
    pub bpm: u32,
    pub notes: Seq<NoteView>,
    pub total_time: Option<u64>,
}

pub open spec fn names_view(keys: Seq<String>) -> Seq<Seq<char>> {
    keys.map_values(|k: String| k@)
}

impl View for ScoreNote {
    type V = NoteView;

    open spec fn view(&self) -> NoteView {
        NoteView {
            keys: match self.keys {
                Some(ks) => Some(names_view(ks@)),
                None => None,
            },
            start_time: self.start_time,
            end_time: self.end_time,
            rest: self.rest,
        }
    }
}

impl View for Score {
    type V = ScoreView;

    open spec fn view(&self) -> ScoreView {
        ScoreView {
            song: self.song@,
            bpm: self.bpm,
            notes: self.notes@.map_values(|n: ScoreNote| n@),
            total_time: self.total_time,
        }
    }
}

pub open spec fn is_rest(n: NoteView) -> bool {
    n.rest == Some(true)
}

/// A key name decoded, folded into the window and named again; `None` for a
/// name that does not decode.
pub open spec fn arrange_key(k: Seq<char>) -> Option<Seq<char>> {
    match decode(k) {
        Some(p) => Some(encode(fold_pitch(p))),
        None => None,
    }
}

/// The arranged names of the keys that decode, in their order.
pub open spec fn arrange_keys(ks: Seq<Seq<char>>) -> Seq<Seq<char>>
    decreases ks.len(),
{
    if ks.len() == 0 {
        Seq::empty()
    } else {
        let front = arrange_keys(ks.drop_last());
        match arrange_key(ks.last()) {
            Some(k) => front.push(k),
            None => front,
        }
    }
}

/// What a note becomes: a rest stays as it is; a note with keys gets its
/// arranged keys, or becomes a rest when none of them decodes; a note with
/// neither leaves the score.
pub open spec fn arrange_note(n: NoteView) -> Option<NoteView> {
    if is_rest(n) {
        Some(n)
    } else {
        match n.keys {
            None => None,
            Some(ks) => {
                let out = arrange_keys(ks);
                if out.len() > 0 {
                    Some(NoteView { keys: Some(out), start_time: n.start_time, end_time: n.end_time, rest: None })
                } else {
                    Some(NoteView { keys: None, start_time: n.start_time, end_time: n.end_time, rest: Some(true) })
                }
            },
        }
    }
}

pub open spec fn arrange_notes(ns: Seq<NoteView>) -> Seq<NoteView>
    decreases ns.len(),
{
    if ns.len() == 0 {
        Seq::empty()
    } else {
        let front = arrange_notes(ns.drop_last());
        match arrange_note(ns.last()) {
            Some(n) => front.push(n),
            None => front,
        }
    }
}

pub open spec fn arrange_score(s: ScoreView) -> ScoreView {
    ScoreView { song: s.song, bpm: s.bpm, notes: arrange_notes(s.notes), total_time: s.total_time }
}

fn copy_names(keys: &Vec<String>) -> (r: Vec<String>)
    ensures
        names_view(r@) == names_view(keys@),
{
    let mut out: Vec<String> = Vec::new();
    let mut i: usize = 0;
    while i < keys.len()
        invariant
            i <= keys@.len(),
            out@.len() == i,
            forall|j: int| 0 <= j < i ==> (#[trigger] out@[j])@ == keys@[j]@,
        decreases keys@.len() - i,
    {
        out.push(keys[i].clone());
        i = i + 1;
    }
    assert(names_view(out@) =~= names_view(keys@));
    out
}

impl ScoreNote {
    fn duplicate(&self) -> (r: ScoreNote)
        ensures
            r@ == self@,
    {
        ScoreNote {
            keys: match &self.keys {
                Some(ks) => Some(copy_names(ks)),
                None => None,
            },
            start_time: self.start_time,
            end_time: self.end_time,
            rest: self.rest,
        }
    }
}

fn arrange_key_names(keys: &Vec<String>) -> (r: Vec<String>)
    ensures
        names_view(r@) == arrange_keys(names_view(keys@)),
{
    let mut out: Vec<String> = Vec::new();
    let mut i: usize = 0;
    while i < keys.len()
        invariant
            i <= keys@.len(),
            names_view(out@) == arrange_keys(names_view(keys@.take(i as int))),
        decreases keys@.len() - i,
    {
        let ghost before = names_view(keys@.take(i as int));
        let ghost after = names_view(keys@.take(i + 1));
        assert(after.drop_last() =~= before);
        assert(after.last() == keys@[i as int]@);
        match key_name_to_midi(keys[i].as_str()) {
            Some(p) => {
                proof { lemma_decode_bounds(keys@[i as int]@); }
                let name = midi_note_to_key_name(fold_into_window(p));
                out.push(name);
                assert(names_view(out@) =~= arrange_keys(after));
            },
            None => {},
        }
        i = i + 1;
    }
    assert(keys@.take(i as int) =~= keys@);
    out
}

/// Folds every key of every note into `[MIN_PITCH, MAX_PITCH]` by whole
/// octaves, keeping title, tempo, total time, timings and note order.
///
/// Rests are copied as they are. Keys that do not decode are dropped, and a
/// note left with no key becomes a rest. A note that is neither a rest nor
/// has a key list does not appear in the result.
pub fn apply_three_octave_arrangement(score: &Score) -> (r: Score)
    ensures
        r@ == arrange_score(score@),
{
    let mut notes: Vec<ScoreNote> = Vec::new();
    let mut i: usize = 0;
    while i < score.notes.len()
        invariant
            i <= score.notes@.len(),
            notes@.map_values(|n: ScoreNote| n@) == arrange_notes(score@.notes.take(i as int)),
        decreases score.notes@.len() - i,
    {
        let ghost before = score@.notes.take(i as int);
        let ghost after = score@.notes.take(i + 1);
        assert(after.drop_last() =~= before);
        let note = &score.notes[i];
        assert(after.last() == note@);
        if note.rest == Some(true) {
            notes.push(note.duplicate());
        } else {
            match &note.keys {
                Some(keys) => {
                    let arranged = arrange_key_names(keys);
                    if arranged.len() > 0 {
                        notes.push(ScoreNote { keys: Some(arranged), start_time: note.start_time, end_time: note.end_time, rest: None });
                    } else {
                        notes.push(ScoreNote { keys: None, start_time: note.start_time, end_time: note.end_time, rest: Some(true) });
                    }
                },
                None => {},
            }
        }
        assert(notes@.map_values(|n: ScoreNote| n@) =~= arrange_notes(after));
        i = i + 1;
    }
    assert(score@.notes.take(i as int) =~= score@.notes);
    Score { song: score.song.clone(), bpm: score.bpm, notes, total_time: score.total_time }
}


pub open spec fn in_window(p: int) -> bool {
    MIN_PITCH <= p <= MAX_PITCH
}

/// Folding lands in the window, keeps the pitch class, and leaves a pitch
/// that already lies in the window as it is.
pub proof fn lemma_fold_pitch(p: int)
    ensures
        in_window(fold_pitch(p)),
        fold_pitch(p) % 12 == p % 12,
        in_window(p) ==> fold_pitch(p) == p,
{
}

/// A key that decodes is arranged to a name of a pitch in the window with the
/// same pitch class.
pub proof fn lemma_arrange_key(k: Seq<char>)
    requires
        decode(k) is Some,
    ensures
        arrange_key(k) is Some,
        decode(arrange_key(k)->0) == Some(fold_pitch(decode(k)->0)),
        in_window(decode(arrange_key(k)->0)->0),
        decode(arrange_key(k)->0)->0 % 12 == decode(k)->0 % 12,
{
    let p = decode(k)->0;
    lemma_fold_pitch(p);
    lemma_decode_encode(fold_pitch(p));
}

/// The key names a pitch that lies in the window.
pub open spec fn key_in_window(k: Seq<char>) -> bool {
    match decode(k) {
        Some(p) => in_window(p),
        None => false,
    }
}

pub open spec fn keys_in_window(ks: Seq<Seq<char>>) -> bool {
    forall|j: int| 0 <= j < ks.len() ==> key_in_window(#[trigger] ks[j])
}

/// `o` is what one of the keys `ks` is arranged to.
pub open spec fn arranged_from(ks: Seq<Seq<char>>, o: Seq<char>) -> bool {
    exists|jj: int| 0 <= jj < ks.len() && #[trigger] arrange_key(ks[jj]) == Some(o)
}

proof fn lemma_arrange_keys(ks: Seq<Seq<char>>)
    ensures
        keys_in_window(arrange_keys(ks)),
        forall|j: int| 0 <= j < arrange_keys(ks).len() ==> arranged_from(ks, #[trigger] arrange_keys(ks)[j]),
        keys_in_window(ks) ==> arrange_keys(ks).len() == ks.len() && forall|j: int| 0 <= j < ks.len()
            ==> decode(#[trigger] arrange_keys(ks)[j]) == decode(ks[j]),
    decreases ks.len(),
{
    if ks.len() > 0 {
        let init = ks.drop_last();
        lemma_arrange_keys(init);
        let front = arrange_keys(init);
        let out = arrange_keys(ks);
        assert forall|j: int| 0 <= j < front.len() implies arranged_from(ks, #[trigger] front[j]) by {
            let jj = choose|jj: int| 0 <= jj < init.len() && #[trigger] arrange_key(init[jj]) == Some(front[j]);
            assert(init[jj] == ks[jj]);
        }
        assert forall|j: int| 0 <= j < front.len() implies out[j] == front[j] by {}
        if decode(ks.last()) is Some {
            lemma_arrange_key(ks.last());
            assert(out[out.len() - 1] == arrange_key(ks[ks.len() - 1])->0);
            assert(arranged_from(ks, out[out.len() - 1]));
        }
        if keys_in_window(ks) {
            assert forall|j: int| 0 <= j < init.len() implies key_in_window(#[trigger] init[j]) by {
                assert(init[j] == ks[j]);
            }
            let p = decode(ks.last())->0;
            assert(key_in_window(ks[ks.len() - 1]));
            lemma_fold_pitch(p);
            assert forall|j: int| 0 <= j < ks.len() implies decode(#[trigger] out[j]) == decode(ks[j]) by {
                if j < init.len() {
                    assert(out[j] == front[j]);
                    assert(init[j] == ks[j]);
                }
            }
        }
    }
}


/// `n` carries the arranged keys of some note of `ns` that has keys.
pub open spec fn keyed_source(ns: Seq<NoteView>, n: NoteView) -> bool {
    exists|ii: int|
        0 <= ii < ns.len() && (#[trigger] ns[ii]).keys is Some && n.keys == Some(
            arrange_keys(ns[ii].keys->0),
        )
}

proof fn lemma_arrange_notes_sources(ns: Seq<NoteView>)
    ensures
        forall|i: int|
            0 <= i < arrange_notes(ns).len() && !is_rest(#[trigger] arrange_notes(ns)[i])
                ==> keyed_source(ns, arrange_notes(ns)[i]),
    decreases ns.len(),
{
    if ns.len() > 0 {
        let init = ns.drop_last();
        lemma_arrange_notes_sources(init);
        let front = arrange_notes(init);
        let out = arrange_notes(ns);
        assert forall|i: int| 0 <= i < out.len() && !is_rest(#[trigger] out[i]) implies keyed_source(ns, out[i]) by {
            if i < front.len() {
                assert(out[i] == front[i]);
                let ii = choose|ii: int| 0 <= ii < init.len() && (#[trigger] init[ii]).keys is Some
                    && front[i].keys == Some(arrange_keys(init[ii].keys->0));
                assert(init[ii] == ns[ii]);
            } else {
                assert(ns[ns.len() - 1] == ns.last());
            }
        }
    }
}

/// Every key of every arranged note that is not a rest names a pitch in
/// `[MIN_PITCH, MAX_PITCH]`.
pub proof fn lemma_range_containment(s: ScoreView)
    ensures
        forall|i: int|
            0 <= i < arrange_score(s).notes.len() && !is_rest(#[trigger] arrange_score(s).notes[i])
                ==> arrange_score(s).notes[i].keys is Some && keys_in_window(
                arrange_score(s).notes[i].keys->0,
            ),
{
    let out = arrange_notes(s.notes);
    lemma_arrange_notes_sources(s.notes);
    assert forall|i: int| 0 <= i < out.len() && !is_rest(#[trigger] out[i]) implies out[i].keys is Some
        && keys_in_window(out[i].keys->0) by {
        let ii = choose|ii: int| 0 <= ii < s.notes.len() && (#[trigger] s.notes[ii]).keys is Some
            && out[i].keys == Some(arrange_keys(s.notes[ii].keys->0));
        lemma_arrange_keys(s.notes[ii].keys->0);
    }
}

/// `o` names a pitch with the pitch class of some key of some note of `ns`.
pub open spec fn class_source(ns: Seq<NoteView>, o: Seq<char>) -> bool {
    exists|ii: int, jj: int|
        0 <= ii < ns.len() && ns[ii].keys is Some && 0 <= jj < ns[ii].keys->0.len()
            && decode(#[trigger] ns[ii].keys->0[jj]) is Some && decode(o) is Some
            && decode(o)->0 % 12 == decode(ns[ii].keys->0[jj])->0 % 12
}

/// Every key kept in an arranged note that is not a rest has the pitch class
/// of a key of the original score.
pub proof fn lemma_pitch_class_kept(s: ScoreView, i: int, j: int)
    requires
        0 <= i < arrange_score(s).notes.len(),
        !is_rest(arrange_score(s).notes[i]),
        arrange_score(s).notes[i].keys is Some,
        0 <= j < arrange_score(s).notes[i].keys->0.len(),
    ensures
        class_source(s.notes, arrange_score(s).notes[i].keys->0[j]),
{
    let out = arrange_notes(s.notes);
    lemma_arrange_notes_sources(s.notes);
    assert(keyed_source(s.notes, out[i]));
    let ii = choose|ii: int| 0 <= ii < s.notes.len() && (#[trigger] s.notes[ii]).keys is Some
        && out[i].keys == Some(arrange_keys(s.notes[ii].keys->0));
    let ks = s.notes[ii].keys->0;
    lemma_arrange_keys(ks);
    let o = out[i].keys->0[j];
    assert(arranged_from(ks, o));
    let jj = choose|jj: int| 0 <= jj < ks.len() && #[trigger] arrange_key(ks[jj]) == Some(o);
    lemma_arrange_key(ks[jj]);
    assert(decode(s.notes[ii].keys->0[jj]) is Some);
}

/// The note is a rest or carries a key list, so the arrangement keeps it.
pub open spec fn is_emitted(n: NoteView) -> bool {
    is_rest(n) || n.keys is Some
}

pub open spec fn count_emitted(ns: Seq<NoteView>) -> nat
    decreases ns.len(),
{
    if ns.len() == 0 {
        0
    } else {
        count_emitted(ns.drop_last()) + if is_emitted(ns.last()) { 1nat } else { 0 }
    }
}

/// The arranged score has one note for each rest and each note with a key list.
pub proof fn lemma_count_preserved(s: ScoreView)
    ensures
        arrange_score(s).notes.len() == count_emitted(s.notes),
    decreases s.notes.len(),
{
    if s.notes.len() > 0 {
        lemma_count_preserved(ScoreView { notes: s.notes.drop_last(), ..s });
    }
}

/// When every note is a rest or has a key list, the `i`-th arranged note is
/// what the `i`-th note becomes, for every `i`.
pub proof fn lemma_one_for_one(s: ScoreView)
    requires
        forall|i: int| 0 <= i < s.notes.len() ==> is_emitted(#[trigger] s.notes[i]),
    ensures
        arrange_score(s).notes.len() == s.notes.len(),
        forall|i: int|
            0 <= i < s.notes.len() ==> arrange_note(s.notes[i]) == Some(
                #[trigger] arrange_score(s).notes[i],
            ),
    decreases s.notes.len(),
{
    if s.notes.len() > 0 {
        let init = ScoreView { notes: s.notes.drop_last(), ..s };
        assert forall|i: int| 0 <= i < init.notes.len() implies is_emitted(#[trigger] init.notes[i]) by {
            assert(init.notes[i] == s.notes[i]);
        }
        lemma_one_for_one(init);
        assert(is_emitted(s.notes[s.notes.len() - 1]));
        assert forall|i: int| 0 <= i < s.notes.len() implies arrange_note(s.notes[i]) == Some(
            #[trigger] arrange_score(s).notes[i]) by {
            if i < init.notes.len() {
                assert(init.notes[i] == s.notes[i]);
                assert(arrange_score(s).notes[i] == arrange_score(init).notes[i]);
            }
        }
    }
}

/// Every note is a rest, or has a non-empty key list of names of pitches that
/// lie in the window.
pub open spec fn score_in_window(s: ScoreView) -> bool {
    forall|i: int|
        0 <= i < s.notes.len() ==> is_rest(#[trigger] s.notes[i]) || (s.notes[i].keys is Some
            && s.notes[i].keys->0.len() > 0 && keys_in_window(s.notes[i].keys->0))
}

/// A score that already lies in the window comes back as it was, up to the
/// spelling of its key names: the same notes in the same order, rests as they
/// were, and every key naming the same pitch.
pub proof fn lemma_in_window_unchanged(s: ScoreView)
    requires
        score_in_window(s),
    ensures
        arrange_score(s).song == s.song,
        arrange_score(s).bpm == s.bpm,
        arrange_score(s).total_time == s.total_time,
        arrange_score(s).notes.len() == s.notes.len(),
        forall|i: int|
            0 <= i < s.notes.len() && is_rest(s.notes[i]) ==> #[trigger] arrange_score(s).notes[i]
                == s.notes[i],
        forall|i: int|
            0 <= i < s.notes.len() && !is_rest(s.notes[i]) ==> {
                let n = #[trigger] arrange_score(s).notes[i];
                &&& n.start_time == s.notes[i].start_time
                &&& n.end_time == s.notes[i].end_time
                &&& n.keys is Some
                &&& n.keys->0.len() == s.notes[i].keys->0.len()
                &&& forall|j: int|
                    0 <= j < n.keys->0.len() ==> decode(#[trigger] n.keys->0[j]) == decode(
                        s.notes[i].keys->0[j],
                    )
            },
{
    assert forall|i: int| 0 <= i < s.notes.len() implies is_emitted(#[trigger] s.notes[i]) by {}
    lemma_one_for_one(s);
    assert forall|i: int| 0 <= i < s.notes.len() && !is_rest(s.notes[i]) implies {
        let n = #[trigger] arrange_score(s).notes[i];
        &&& n.start_time == s.notes[i].start_time
        &&& n.end_time == s.notes[i].end_time
        &&& n.keys is Some
        &&& n.keys->0.len() == s.notes[i].keys->0.len()
        &&& forall|j: int|
            0 <= j < n.keys->0.len() ==> decode(#[trigger] n.keys->0[j]) == decode(
                s.notes[i].keys->0[j],
            )
    } by {
        lemma_arrange_keys(s.notes[i].keys->0);
    }
}


proof fn lemma_arrange_keys_fixed(ks: Seq<Seq<char>>)
    requires
        forall|j: int| 0 <= j < ks.len() ==> arrange_key(#[trigger] ks[j]) == Some(ks[j]),
    ensures
        arrange_keys(ks) == ks,
    decreases ks.len(),
{
    if ks.len() > 0 {
        let init = ks.drop_last();
        assert forall|j: int| 0 <= j < init.len() implies arrange_key(#[trigger] init[j]) == Some(init[j]) by {
            assert(init[j] == ks[j]);
        }
        lemma_arrange_keys_fixed(init);
        assert(arrange_key(ks[ks.len() - 1]) == Some(ks[ks.len() - 1]));
        assert(ks =~= init.push(ks.last()));
    }
}

proof fn lemma_arrange_note_fixed(n: NoteView)
    requires
        arrange_note(n) is Some,
    ensures
        arrange_note(arrange_note(n)->0) == arrange_note(n),
{
    if !is_rest(n) {
        let ks = n.keys->0;
        let out = arrange_keys(ks);
        lemma_arrange_keys(ks);
        assert forall|j: int| 0 <= j < out.len() implies arrange_key(#[trigger] out[j]) == Some(out[j]) by {
            assert(arranged_from(ks, out[j]));
            let jj = choose|jj: int| 0 <= jj < ks.len() && #[trigger] arrange_key(ks[jj]) == Some(out[j]);
            let p = decode(ks[jj])->0;
            lemma_fold_pitch(p);
            lemma_fold_pitch(fold_pitch(p));
            lemma_decode_encode(fold_pitch(p));
        }
        lemma_arrange_keys_fixed(out);
    }
}

/// Arranging an arranged score changes nothing.
pub proof fn lemma_arrange_idempotent(s: ScoreView)
    ensures
        arrange_score(arrange_score(s)) == arrange_score(s),
    decreases s.notes.len(),
{
    if s.notes.len() > 0 {
        let init = ScoreView { notes: s.notes.drop_last(), ..s };
        lemma_arrange_idempotent(init);
        let front = arrange_notes(init.notes);
        let last = s.notes.last();
        if arrange_note(last) is Some {
            let n = arrange_note(last)->0;
            lemma_arrange_note_fixed(last);
            let out = front.push(n);
            assert(out.drop_last() =~= front);
        }
    }
}

} // verus!
