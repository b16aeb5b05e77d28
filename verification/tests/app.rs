use ukulele_chords::app::{render_batch, App};
use ukulele_chords::chords::Chord;

fn small_catalog() -> Vec<Chord> {
    let lines: Vec<String> = vec![
        "C = 0 0 0 3".into(),
        "G = 0 2 3 2".into(),
        "Am = 2 0 0 0".into(),
        "C#dim = 0 1 0 4".into(),
    ];
    Chord::from_lines(&lines)
}

#[test]
fn app_new_shows_the_prompt() {
    let app = App::new(small_catalog());
    assert_eq!(app.input, "");
    assert_eq!(
        app.diagrams,
        vec!["Type comma separated chords and press Enter.".to_string()]
    );
    assert_eq!(app.scroll, 0);
    assert!(!app.help_shown);
    assert_eq!(app.help_scroll, 0);
}

#[test]
fn empty_query_asks_for_input() {
    let catalog = small_catalog();
    assert_eq!(
        render_batch(&catalog, ""),
        vec!["Please enter one or more chords, separated by commas".to_string()]
    );
    assert_eq!(
        render_batch(&catalog, "   "),
        vec!["Please enter one or more chords, separated by commas".to_string()]
    );
}

#[test]
fn unknown_chord_reports_not_found() {
    let catalog = small_catalog();
    assert_eq!(
        render_batch(&catalog, "zzz"),
        vec!["Chord not found: zzz".to_string()]
    );
}

#[test]
fn single_chord_renders_one_diagram() {
    let catalog = small_catalog();
    let out = render_batch(&catalog, "C");
    assert_eq!(out.len(), 1);
    let expected = "Chord: C\n\
                    \x20    1  2  3  4  5\n\
                    ------------------\n\
                    A  | -  -  ●  -  -  \n\
                    E O| -  -  -  -  -  \n\
                    C O| -  -  -  -  -  \n\
                    G O| -  -  -  -  -  \n";
    assert_eq!(out[0], expected);
}

#[test]
fn alias_query_is_titled_with_the_typed_label() {
    let catalog = small_catalog();
    let out = render_batch(&catalog, "Dbdim");
    assert_eq!(out.len(), 1);
    assert!(out[0].starts_with("Chord: Dbdim\n"));
    // the fret data is that of the C#dim entry
    let direct = render_batch(&catalog, "C#dim");
    let rest = out[0].split_once('\n').unwrap().1;
    let direct_rest = direct[0].split_once('\n').unwrap().1;
    assert_eq!(rest, direct_rest);
}

#[test]
fn mixed_batch_lists_misses_before_diagrams() {
    let catalog = small_catalog();
    let out = render_batch(&catalog, "C, zzz, Am");
    assert_eq!(out.len(), 3);
    assert_eq!(out[0], "Chord not found: zzz");
    assert!(out[1].starts_with("Chord: C\n"));
    assert!(out[2].starts_with("Chord: Am\n"));
}

#[test]
fn batch_shares_one_window() {
    // G reaches fret 3, so the C diagram shows the same five columns
    let catalog = small_catalog();
    let out = render_batch(&catalog, "C, G");
    let header_c: &str = out[0].lines().nth(1).unwrap();
    let header_g: &str = out[1].lines().nth(1).unwrap();
    assert_eq!(header_c, header_g);
    assert_eq!(header_c, "     1  2  3  4  5");
}

#[test]
fn empty_entries_between_commas_are_skipped() {
    let catalog = small_catalog();
    let out = render_batch(&catalog, " , C ,, ");
    assert_eq!(out.len(), 1);
    assert!(out[0].starts_with("Chord: C\n"));
}

#[test]
fn app_lookup_replaces_diagrams_and_clears_input() {
    let mut app = App::new(small_catalog());
    app.input = "am".to_string();
    app.scroll = 7;
    app.help_shown = true;
    app.help_scroll = 3;
    app.lookup();
    assert_eq!(app.input, "");
    assert_eq!(app.scroll, 0);
    assert!(!app.help_shown);
    assert_eq!(app.help_scroll, 0);
    assert_eq!(app.diagrams.len(), 1);
    assert!(app.diagrams[0].starts_with("Chord: am\n"));
}
