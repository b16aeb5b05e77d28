use ukulele_chords::chords::Chord;
use ukulele_chords::window::select_window;

#[test]
fn select_window_empty_batch() {
    let batch: Vec<Chord> = Vec::new();
    assert_eq!(select_window(&batch), None);
}

#[test]
fn select_window_open_string_forces_start_one() {
    // one chord with no fretted strings, one fretted at 2
    let batch = vec![
        Chord::from_string("C", "0 0 0 0").unwrap(),
        Chord::from_string("Am", "2 0 0 0").unwrap(),
    ];
    assert_eq!(select_window(&batch), Some((1, 5)));
}

#[test]
fn select_window_high_position() {
    let batch = vec![Chord::from_string("C", "x x 7 9").unwrap()];
    assert_eq!(select_window(&batch), Some((7, 11)));
}

#[test]
fn select_window_low_minimum_starts_at_one() {
    let batch = vec![Chord::from_string("C", "1 x x x").unwrap()];
    assert_eq!(select_window(&batch), Some((1, 5)));
}

#[test]
fn select_window_minimum_two_keeps_start() {
    let batch = vec![Chord::from_string("C", "2 2 2 2").unwrap()];
    assert_eq!(select_window(&batch), Some((2, 6)));
}

#[test]
fn select_window_wide_span() {
    let batch = vec![Chord::from_string("C", "x 3 x 12").unwrap()];
    assert_eq!(select_window(&batch), Some((3, 12)));
}

#[test]
fn select_window_all_muted_gets_default() {
    let batch = vec![Chord::from_string("C", "x x x x").unwrap()];
    assert_eq!(select_window(&batch), Some((1, 5)));
}

#[test]
fn select_window_saturates_at_top_of_range() {
    let batch = vec![Chord::from_string("C", "x x x 254").unwrap()];
    assert_eq!(select_window(&batch), Some((254, 255)));
}
