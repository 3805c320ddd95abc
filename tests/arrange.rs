use three_octave::arrange::{apply_three_octave_arrangement, Score, ScoreNote};
use three_octave::keys::get_virtual_key_code;
use three_octave::pitch::{key_name_to_midi, midi_note_to_key_name};

fn keyed(keys: &[&str], start: f64, end: f64) -> ScoreNote {
    ScoreNote {
        keys: Some(keys.iter().map(|k| k.to_string()).collect()),
        start_time: start.to_bits(),
        end_time: end.to_bits(),
        rest: None,
    }
}

fn score_of(notes: Vec<ScoreNote>, total: f64) -> Score {
    Score { song: "Test".to_string(), bpm: 120, notes, total_time: Some(total.to_bits()) }
}

fn names(v: &[&str]) -> Option<Vec<String>> {
    Some(v.iter().map(|k| k.to_string()).collect())
}

#[test]
fn test_midi_note_to_key_name() {
    assert_eq!(midi_note_to_key_name(36), "c2");
    assert_eq!(midi_note_to_key_name(60), "c4");
    assert_eq!(midi_note_to_key_name(61), "c4b");
    assert_eq!(midi_note_to_key_name(72), "c5");
}

#[test]
fn test_key_name_to_midi() {
    assert_eq!(key_name_to_midi("c2"), Some(36));
    assert_eq!(key_name_to_midi("c4"), Some(60));
    assert_eq!(key_name_to_midi("c4b"), Some(61));
    assert_eq!(key_name_to_midi("c5"), Some(72));
}

#[test]
fn test_apply_three_octave_arrangement() {
    let score = score_of(vec![keyed(&["c6"], 0.0, 500.0), keyed(&["c1"], 500.0, 1000.0)], 1000.0);
    let arranged = apply_three_octave_arrangement(&score);
    assert_eq!(arranged.notes.len(), 2);
    assert_eq!(arranged.notes[0].keys, Some(vec!["c5".to_string()]));
    assert_eq!(arranged.notes[1].keys, Some(vec!["c2".to_string()]));
}

#[test]
fn test_apply_three_octave_arrangement_already_in_range() {
    let score = score_of(vec![keyed(&["c4"], 0.0, 500.0)], 500.0);
    let arranged = apply_three_octave_arrangement(&score);
    assert_eq!(arranged.notes.len(), 1);
    assert_eq!(arranged.notes[0].keys, Some(vec!["c4".to_string()]));
}

#[test]
fn encode_names_every_pitch_class() {
    let expected = ["c", "cb", "d", "db", "e", "f", "fb", "g", "gb", "a", "ab", "b"];
    for (pc, letter) in expected.iter().enumerate() {
        let name = midi_note_to_key_name(48 + pc as u8);
        let (head, tail) = letter.split_at(1);
        assert_eq!(name, format!("{}3{}", head, tail));
    }
    assert_eq!(midi_note_to_key_name(0), "c-1");
    assert_eq!(midi_note_to_key_name(11), "b-1");
    assert_eq!(midi_note_to_key_name(127), "g9");
    assert_eq!(midi_note_to_key_name(255), "d20b");
}

#[test]
fn decode_edge_cases() {
    assert_eq!(key_name_to_midi("c-1"), Some(0));
    assert_eq!(key_name_to_midi("c-2"), Some(-12));
    assert_eq!(key_name_to_midi("b4b"), Some(72));
    assert_eq!(key_name_to_midi("a0"), Some(21));
    assert_eq!(key_name_to_midi("c+3"), Some(48));
    assert_eq!(key_name_to_midi("g10"), Some(139));
    assert_eq!(key_name_to_midi(""), None);
    assert_eq!(key_name_to_midi("c"), None);
    assert_eq!(key_name_to_midi("x4"), None);
    assert_eq!(key_name_to_midi("C4"), None);
    assert_eq!(key_name_to_midi("c4x"), None);
    assert_eq!(key_name_to_midi("c-"), None);
    assert_eq!(key_name_to_midi("cb"), None);
    assert_eq!(key_name_to_midi("c-b"), None);
    assert_eq!(key_name_to_midi("c2147483647"), Some(25769803776));
    assert_eq!(key_name_to_midi("c2147483648"), None);
    assert_eq!(key_name_to_midi("c-2147483648"), Some(-25769803764));
    assert_eq!(key_name_to_midi("c99999999999999999999"), None);
}

#[test]
fn round_trip_over_all_pitches() {
    for p in 0..=255u8 {
        assert_eq!(key_name_to_midi(&midi_note_to_key_name(p)), Some(p as i64));
    }
}

#[test]
fn fold_edges_and_far_pitches() {
    let score = score_of(
        vec![keyed(&["c2", "c5", "b1", "c5b", "c-2", "g9", "c10"], 0.0, 1.0)],
        1.0,
    );
    let arranged = apply_three_octave_arrangement(&score);
    assert_eq!(arranged.notes[0].keys, names(&["c2", "c5", "b2", "c4b", "c2", "g4", "c5"]));
}

#[test]
fn rest_is_copied_unchanged() {
    let rest = ScoreNote {
        keys: names(&["c9", "zz"]),
        start_time: 3.5f64.to_bits(),
        end_time: 4.0f64.to_bits(),
        rest: Some(true),
    };
    let arranged = apply_three_octave_arrangement(&score_of(vec![rest], 4.0));
    assert_eq!(arranged.notes.len(), 1);
    assert_eq!(arranged.notes[0].keys, names(&["c9", "zz"]));
    assert_eq!(arranged.notes[0].rest, Some(true));
    assert_eq!(f64::from_bits(arranged.notes[0].start_time), 3.5);
    assert_eq!(f64::from_bits(arranged.notes[0].end_time), 4.0);
}

#[test]
fn bad_keys_are_dropped_and_all_bad_becomes_rest() {
    let score = score_of(vec![keyed(&["q1", "d3", "c"], 0.0, 1.0), keyed(&["x", ""], 1.0, 2.0)], 2.0);
    let arranged = apply_three_octave_arrangement(&score);
    assert_eq!(arranged.notes.len(), 2);
    assert_eq!(arranged.notes[0].keys, names(&["d3"]));
    assert_eq!(arranged.notes[0].rest, None);
    assert_eq!(arranged.notes[1].keys, None);
    assert_eq!(arranged.notes[1].rest, Some(true));
    assert_eq!(f64::from_bits(arranged.notes[1].start_time), 1.0);
    assert_eq!(f64::from_bits(arranged.notes[1].end_time), 2.0);
}

#[test]
fn empty_key_list_becomes_rest() {
    let arranged = apply_three_octave_arrangement(&score_of(vec![keyed(&[], 0.0, 1.0)], 1.0));
    assert_eq!(arranged.notes.len(), 1);
    assert_eq!(arranged.notes[0].keys, None);
    assert_eq!(arranged.notes[0].rest, Some(true));
}

#[test]
fn note_without_keys_or_rest_flag_leaves_the_score() {
    let silent = ScoreNote { keys: None, start_time: 0, end_time: 0, rest: Some(false) };
    let score = score_of(vec![keyed(&["e7"], 0.0, 1.0), silent, keyed(&["f0"], 2.0, 3.0)], 3.0);
    let arranged = apply_three_octave_arrangement(&score);
    assert_eq!(arranged.notes.len(), 2);
    assert_eq!(arranged.notes[0].keys, names(&["e4"]));
    assert_eq!(arranged.notes[1].keys, names(&["f2"]));
}

#[test]
fn metadata_and_timing_are_kept() {
    let score = Score {
        song: "Menuet".to_string(),
        bpm: 96,
        notes: vec![keyed(&["a6", "c1b"], 12.25, 80.5)],
        total_time: None,
    };
    let arranged = apply_three_octave_arrangement(&score);
    assert_eq!(arranged.song, "Menuet");
    assert_eq!(arranged.bpm, 96);
    assert_eq!(arranged.total_time, None);
    assert_eq!(f64::from_bits(arranged.notes[0].start_time), 12.25);
    assert_eq!(f64::from_bits(arranged.notes[0].end_time), 80.5);
    assert_eq!(arranged.notes[0].keys, names(&["a4", "c2b"]));
}

#[test]
fn score_in_window_keeps_its_pitches() {
    let score = score_of(
        vec![keyed(&["c2", "f3b", "c5"], 0.0, 1.0), keyed(&["b4b"], 1.0, 2.0)],
        2.0,
    );
    let arranged = apply_three_octave_arrangement(&score);
    assert_eq!(arranged.notes.len(), 2);
    assert_eq!(arranged.notes[0].keys, names(&["c2", "f3b", "c5"]));
    assert_eq!(arranged.notes[1].keys, names(&["c5"]));
    let again = apply_three_octave_arrangement(&arranged);
    assert_eq!(again.notes[0].keys, arranged.notes[0].keys);
    assert_eq!(again.notes[1].keys, arranged.notes[1].keys);
}

#[test]
fn arranged_keys_keep_class_and_lie_in_window() {
    let inputs = ["c0", "d-1b", "e8", "f9b", "g2", "a7b", "b-1", "c10b"];
    let score = score_of(vec![keyed(&inputs, 0.0, 1.0)], 1.0);
    let arranged = apply_three_octave_arrangement(&score);
    let out = arranged.notes[0].keys.clone().unwrap();
    assert_eq!(out.len(), inputs.len());
    for (o, i) in out.iter().zip(inputs.iter()) {
        let q = key_name_to_midi(o).unwrap();
        let p = key_name_to_midi(i).unwrap();
        assert!((36..=72).contains(&q));
        assert_eq!(q.rem_euclid(12), p.rem_euclid(12));
    }
}

#[test]
fn one_output_note_per_rest_or_keyed_note() {
    let rest = ScoreNote { keys: None, start_time: 0, end_time: 0, rest: Some(true) };
    let bare = ScoreNote { keys: None, start_time: 0, end_time: 0, rest: None };
    let score = score_of(
        vec![keyed(&["c3"], 0.0, 1.0), rest, bare, keyed(&["zz"], 1.0, 2.0), keyed(&["d9"], 2.0, 3.0)],
        3.0,
    );
    let arranged = apply_three_octave_arrangement(&score);
    assert_eq!(arranged.notes.len(), 4);
    assert_eq!(arranged.notes[0].keys, names(&["c3"]));
    assert_eq!(arranged.notes[1].rest, Some(true));
    assert_eq!(arranged.notes[2].rest, Some(true));
    assert_eq!(arranged.notes[3].keys, names(&["d4"]));
}

#[test]
fn virtual_key_codes() {
    assert_eq!(get_virtual_key_code('0'), Some(0x30));
    assert_eq!(get_virtual_key_code('9'), Some(0x39));
    assert_eq!(get_virtual_key_code('a'), Some(0x41));
    assert_eq!(get_virtual_key_code('Z'), Some(0x5A));
    assert_eq!(get_virtual_key_code(','), Some(0xBC));
    assert_eq!(get_virtual_key_code('.'), Some(0xBE));
    assert_eq!(get_virtual_key_code('/'), Some(0xBF));
    assert_eq!(get_virtual_key_code(';'), Some(0xBA));
    assert_eq!(get_virtual_key_code('['), Some(0xDB));
    assert_eq!(get_virtual_key_code(']'), Some(0xDD));
    assert_eq!(get_virtual_key_code('-'), Some(0xBD));
    assert_eq!(get_virtual_key_code('='), Some(0xBB));
    assert_eq!(get_virtual_key_code('!'), None);
    assert_eq!(get_virtual_key_code(' '), None);
    assert_eq!(get_virtual_key_code('é'), None);
}
