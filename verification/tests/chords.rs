use ukulele_chords::chords::{lookup, Chord};

#[test]
fn from_string_basic() {
    let c = Chord::from_string("C", "0 0 0 3").unwrap();
    assert_eq!(c.name, "C");
    assert_eq!(c.frets, [Some(0), Some(0), Some(0), Some(3)]);
    assert!(c.alias_names.is_empty());
}

#[test]
fn from_string_accidental_has_one_alias() {
    let c = Chord::from_string("C#dim", "0 1 0 4").unwrap();
    assert_eq!(c.name, "C#dim");
    assert_eq!(c.alias_names, vec!["Dbdim".to_string()]);
    let d = Chord::from_string("Dbdim", "0 1 0 4").unwrap();
    assert_eq!(d.alias_names, vec!["C#dim".to_string()]);
}

#[test]
fn from_string_muted_tokens() {
    let c = Chord::from_string("F", "x X 1 0").unwrap();
    assert_eq!(c.frets, [None, None, Some(1), Some(0)]);
}

#[test]
fn from_string_wrong_token_count() {
    assert!(Chord::from_string("C", "0 0 0").is_none());
    assert!(Chord::from_string("C", "0 0 0 3 1").is_none());
    assert!(Chord::from_string("C", "").is_none());
}

#[test]
fn from_string_invalid_token_drops_line() {
    // strict policy: a token that is neither X nor an integer
    // invalidates the whole definition
    assert!(Chord::from_string("C", "0 0 q 3").is_none());
    assert!(Chord::from_string("C", "0 -1 0 3").is_none());
    assert!(Chord::from_string("C", "0 2.5 0 3").is_none());
}

#[test]
fn from_string_fret_value_range() {
    assert!(Chord::from_string("C", "0 0 0 256").is_none());
    let c = Chord::from_string("C", "0 0 0 255").unwrap();
    assert_eq!(c.frets[3], Some(255));
}

#[test]
fn from_string_unknown_root() {
    assert!(Chord::from_string("H7", "0 0 0 0").is_none());
    assert!(Chord::from_string("", "0 0 0 0").is_none());
    assert!(Chord::from_string("#m", "0 0 0 0").is_none());
}

#[test]
fn from_string_trims_name() {
    let c = Chord::from_string("  C  ", "0 0 0 3").unwrap();
    assert_eq!(c.name, "C");
}

#[test]
fn split_name_longest_first() {
    assert_eq!(
        Chord::split_name("C#dim"),
        Some(("C#".to_string(), "dim".to_string()))
    );
    assert_eq!(
        Chord::split_name("Cdim"),
        Some(("C".to_string(), "dim".to_string()))
    );
    assert_eq!(
        Chord::split_name("Bb"),
        Some(("Bb".to_string(), "".to_string()))
    );
    assert_eq!(Chord::split_name("Q7"), None);
}

#[test]
fn alias_roots_covers_the_table_both_ways() {
    let pairs = [
        ("A#", "Bb"),
        ("C#", "Db"),
        ("D#", "Eb"),
        ("F#", "Gb"),
        ("G#", "Ab"),
    ];
    for (sharp, flat) in pairs {
        assert_eq!(Chord::alias_roots(sharp), vec![flat]);
        assert_eq!(Chord::alias_roots(flat), vec![sharp]);
    }
    for natural in ["A", "B", "C", "D", "E", "F", "G"] {
        assert!(Chord::alias_roots(natural).is_empty());
    }
    assert!(Chord::alias_roots("C#x").is_empty());
}

#[test]
fn matches_name_is_case_insensitive() {
    let c = Chord::from_string("C#dim", "0 1 0 4").unwrap();
    assert!(c.matches_name("C#dim"));
    assert!(c.matches_name("c#dim"));
    assert!(c.matches_name("C#DIM"));
    assert!(c.matches_name("Dbdim"));
    assert!(c.matches_name("DBDIM"));
    assert!(c.matches_name("dbdim"));
    assert!(!c.matches_name("Ddim"));
    assert!(!c.matches_name("C#dim7"));
}

#[test]
fn lookup_finds_first_match_case_insensitively() {
    let catalog = vec![
        Chord::from_string("C", "0 0 0 3").unwrap(),
        Chord::from_string("Am", "2 0 0 0").unwrap(),
    ];
    assert_eq!(lookup(&catalog, "am").unwrap().name, "Am");
    assert_eq!(lookup(&catalog, "AM").unwrap().name, "Am");
    assert_eq!(lookup(&catalog, "Am").unwrap().name, "Am");
    assert!(lookup(&catalog, "zzz").is_none());
}

#[test]
fn from_lines_skips_comments_blanks_and_malformed() {
    let lines: Vec<String> = vec![
        "# ukulele chords".into(),
        "".into(),
        "   ".into(),
        "C = 0 0 0 3".into(),
        "nonsense without equals".into(),
        "Q = 0 0 0 0".into(),
        "G = 0 2 3 2".into(),
        "Am = 2 0 0".into(),
        "  F  =  2 0 1 0  ".into(),
    ];
    let catalog = Chord::from_lines(&lines);
    let names: Vec<&str> = catalog.iter().map(|c| c.name.as_str()).collect();
    assert_eq!(names, vec!["C", "G", "F"]);
}

#[test]
fn fret_bounds_ignores_open_and_muted() {
    let c = Chord::from_string("C", "0 0 0 3").unwrap();
    assert_eq!(c.fret_bounds(), Some((3, 3)));
    let g = Chord::from_string("G", "0 2 3 2").unwrap();
    assert_eq!(g.fret_bounds(), Some((2, 3)));
    let all_open = Chord::from_string("C", "0 0 0 0").unwrap();
    assert_eq!(all_open.fret_bounds(), None);
    let all_muted = Chord::from_string("C", "x x X X").unwrap();
    assert_eq!(all_muted.fret_bounds(), None);
}
