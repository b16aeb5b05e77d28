use ukulele_chords::chords::Chord;

#[test]
fn render_default_window() {
    let c = Chord::from_string("C", "0 0 0 3").unwrap();
    let expected = "Chord: C\n\
                    \x20    1  2  3  4  5\n\
                    ------------------\n\
                    A  | -  -  ●  -  -  \n\
                    E O| -  -  -  -  -  \n\
                    C O| -  -  -  -  -  \n\
                    G O| -  -  -  -  -  \n";
    assert_eq!(c.render(), expected);
}

#[test]
fn render_range_shifts_the_window() {
    let c = Chord::from_string("Am", "2 0 0 0").unwrap();
    let out = c.render_range(2, 6);
    let expected = "Chord: Am\n\
                    \x20    2  3  4  5  6\n\
                    ------------------\n\
                    A O| -  -  -  -  -  \n\
                    E O| -  -  -  -  -  \n\
                    C O| -  -  -  -  -  \n\
                    G  | ●  -  -  -  -  \n";
    assert_eq!(out, expected);
}

#[test]
fn render_range_labeled_uses_the_typed_label() {
    let c = Chord::from_string("C#dim", "0 1 0 4").unwrap();
    let canonical = c.render_range(1, 5);
    let labeled = c.render_range_labeled("Dbdim", 1, 5);
    assert!(canonical.starts_with("Chord: C#dim\n"));
    assert!(labeled.starts_with("Chord: Dbdim\n"));
    // everything below the title line is identical
    let canonical_rest = canonical.split_once('\n').unwrap().1;
    let labeled_rest = labeled.split_once('\n').unwrap().1;
    assert_eq!(canonical_rest, labeled_rest);
}

#[test]
fn render_marks_muted_strings() {
    let c = Chord::from_string("D7", "x 2 2 3").unwrap();
    let out = c.render_range(1, 5);
    let lines: Vec<&str> = out.lines().collect();
    assert_eq!(lines[3], "A  | -  -  ●  -  -  ");
    assert_eq!(lines[4], "E  | -  ●  -  -  -  ");
    assert_eq!(lines[5], "C  | -  ●  -  -  -  ");
    assert_eq!(lines[6], "G X| -  -  -  -  -  ");
}

#[test]
fn render_handles_three_digit_frets() {
    let c = Chord::from_string("C", "x x x 255").unwrap();
    let out = c.render_range(254, 255);
    let lines: Vec<&str> = out.lines().collect();
    assert_eq!(lines[1], "   254255");
    assert_eq!(lines[2], "---------");
    assert_eq!(lines[3], "A  | -  ●  ");
}
