//! The chord data model: parsing definition lines, enharmonic
//! aliasing, name matching, fret bounds and diagram rendering.

use vstd::prelude::*;

use crate::text::{
    chars_to_string, eq_ignore_case, parse_u8, seq_eq_ignore_case, spec_parse_u8, spec_split_once,
    spec_tokens, spec_trim, split_once_char, split_whitespace_chars, str_chars, trim_chars,
};

verus! {

/// One chord: its canonical name, the fret of each of the four
/// strings (`None` = muted, `Some(0)` = open), and the full alternate
/// names derived from the enharmonic table.
pub struct Chord {
    /// The canonical chord name as written in the definitions source,
    /// e.g. `C#dim`.
    pub name: String,
    /// Fret definitions, one per string (`Some(n)` = fret `n`,
    /// `None` = muted).
    pub frets: [Option<u8>; 4],
    /// Full alternate names, e.g. `["Dbdim"]` for a `C#dim` chord;
    /// derived from `name` at construction, used only for matching.
    pub alias_names: Vec<String>,
}

/// The mathematical value of a `Chord`.
pub struct ChordView {
    pub name: Seq<char>,
    pub frets: Seq<Option<u8>>,
    pub alias_names: Seq<Seq<char>>,
}

impl View for Chord {
    type V = ChordView;

    open spec fn view(&self) -> ChordView {
        ChordView {
            name: self.name@,
            frets: self.frets@,
            alias_names: self.alias_names.deep_view(),
        }
    }
}

/// The views of a catalog of chords, in order.
pub open spec fn catalog_view(s: Seq<Chord>) -> Seq<ChordView> {
    s.map_values(|c: Chord| c@)
}

/// Whether `c0 c1` spell one of the ten accidental root tokens
/// (`A# Bb C# Db D# Eb F# Gb G# Ab`).
pub open spec fn is_accidental_root(c0: char, c1: char) -> bool {
    (c1 == '#' && (c0 == 'A' || c0 == 'C' || c0 == 'D' || c0 == 'F' || c0 == 'G')) || (c1 == 'b'
        && (c0 == 'A' || c0 == 'B' || c0 == 'D' || c0 == 'E' || c0 == 'G'))
}

/// Whether `c` is one of the seven natural root letters `A`-`G`.
pub open spec fn is_natural_root(c: char) -> bool {
    c == 'A' || c == 'B' || c == 'C' || c == 'D' || c == 'E' || c == 'F' || c == 'G'
}

/// Splits a chord name into its root token and quality suffix. Roots
/// are matched longest-first: the ten two-character accidental
/// spellings before the seven natural letters, so `C#dim` splits to
/// `C#` + `dim` while `Cdim` splits to `C` + `dim`. A name starting
/// with no root token does not split.
pub open spec fn spec_split_name(name: Seq<char>) -> Option<(Seq<char>, Seq<char>)> {
    if name.len() >= 2 && is_accidental_root(name[0], name[1]) {
        Some((name.subrange(0, 2), name.subrange(2, name.len() as int)))
    } else if name.len() >= 1 && is_natural_root(name[0]) {
        Some((name.subrange(0, 1), name.subrange(1, name.len() as int)))
    } else {
        None
    }
}

/// The enharmonic partner of an accidental root, from the closed
/// ten-entry table `C#-Db, D#-Eb, F#-Gb, G#-Ab, A#-Bb`.
pub open spec fn spec_partner_letter(c0: char, c1: char) -> char {
    if c1 == '#' {
        // sharp root: partner is the next letter, flattened
        if c0 == 'A' {
            'B'
        } else if c0 == 'C' {
            'D'
        } else if c0 == 'D' {
            'E'
        } else if c0 == 'F' {
            'G'
        } else {
            'A'
        }
    } else {
        // flat root: partner is the previous letter, sharpened
        if c0 == 'B' {
            'A'
        } else if c0 == 'D' {
            'C'
        } else if c0 == 'E' {
            'D'
        } else if c0 == 'G' {
            'F'
        } else {
            'G'
        }
    }
}

/// The enharmonic equivalents of a root token: exactly one for each
/// of the ten accidental roots, none for anything else.
pub open spec fn spec_alias_roots(root: Seq<char>) -> Seq<Seq<char>> {
    if root.len() == 2 && is_accidental_root(root[0], root[1]) {
        seq![
            seq![
                spec_partner_letter(root[0], root[1]),
                if root[1] == '#' {
                    'b'
                } else {
                    '#'
                },
            ],
        ]
    } else {
        seq![]
    }
}

impl Chord {
    /// Splits a name like `C#dim` into root `C#` and quality `dim`.
    pub fn split_name(name: &str) -> (r: Option<(String, String)>)
        ensures
            match r {
                Some(p) => spec_split_name(name@) == Some((p.0@, p.1@)),
                None => spec_split_name(name@) is None,
            },
    {
        let chars = str_chars(name);
        let root_len: usize = if chars.len() >= 2 && is_accidental_root_chars(chars[0], chars[1]) {
            2
        } else if chars.len() >= 1 && is_natural_root_chars(chars[0]) {
            1
        } else {
            return None;
        };
        let mut root: Vec<char> = Vec::new();
        let mut i: usize = 0;
        while i < root_len
            invariant
                root_len <= chars@.len(),
                i <= root_len,
                root@ == chars@.subrange(0, i as int),
            decreases root_len - i,
        {
            root.push(chars[i]);
            i = i + 1;
            proof {
                assert(root@ =~= chars@.subrange(0, i as int));
            }
        }
        let mut quality: Vec<char> = Vec::new();
        let mut j: usize = root_len;
        while j < chars.len()
            invariant
                root_len <= j <= chars@.len(),
                quality@ == chars@.subrange(root_len as int, j as int),
            decreases chars@.len() - j,
        {
            quality.push(chars[j]);
            j = j + 1;
            proof {
                assert(quality@ =~= chars@.subrange(root_len as int, j as int));
            }
        }
        Some((chars_to_string(&root), chars_to_string(&quality)))
    }

    /// The enharmonic equivalents of a root token, from the closed
    /// ten-entry table.
    pub fn alias_roots(root: &str) -> (r: Vec<&'static str>)
        ensures
            r.deep_view() == spec_alias_roots(root@),
    {
        let chars = str_chars(root);
        let mut r: Vec<&'static str> = Vec::new();
        if chars.len() == 2 {
            let c0 = chars[0];
            let c1 = chars[1];
            if c1 == '#' {
                if c0 == 'A' {
                    r.push("Bb");
                } else if c0 == 'C' {
                    r.push("Db");
                } else if c0 == 'D' {
                    r.push("Eb");
                } else if c0 == 'F' {
                    r.push("Gb");
                } else if c0 == 'G' {
                    r.push("Ab");
                }
            } else if c1 == 'b' {
                if c0 == 'A' {
                    r.push("G#");
                } else if c0 == 'B' {
                    r.push("A#");
                } else if c0 == 'D' {
                    r.push("C#");
                } else if c0 == 'E' {
                    r.push("D#");
                } else if c0 == 'G' {
                    r.push("F#");
                }
            }
        }
        proof {
            reveal_strlit("Bb");
            reveal_strlit("Db");
            reveal_strlit("Eb");
            reveal_strlit("Gb");
            reveal_strlit("Ab");
            reveal_strlit("G#");
            reveal_strlit("A#");
            reveal_strlit("C#");
            reveal_strlit("D#");
            reveal_strlit("F#");
            assert(r.deep_view() =~~= spec_alias_roots(root@));
        }
        r
    }
}

/// Whether a fret token spells a muted string: the literal `X` or
/// `x`, as `eq_ignore_ascii_case("X")` accepts it.
pub open spec fn is_muted_token(t: Seq<char>) -> bool {
    t.len() == 1 && (t[0] == 'X' || t[0] == 'x')
}

/// The fret value of one token: muted, a fret number, or invalid.
/// Any token that is neither `X`/`x` nor a valid non-negative integer
/// is invalid and makes the whole definition line invalid.
pub open spec fn spec_fret_token(t: Seq<char>) -> Option<Option<u8>> {
    if is_muted_token(t) {
        Some(None)
    } else {
        match spec_parse_u8(t) {
            Some(v) => Some(Some(v)),
            None => None,
        }
    }
}

/// The full alias names of a chord: each enharmonic equivalent of the
/// root, with the quality suffix unchanged.
pub open spec fn spec_alias_names(root: Seq<char>, quality: Seq<char>) -> Seq<Seq<char>> {
    if spec_alias_roots(root).len() == 1 {
        seq![spec_alias_roots(root)[0] + quality]
    } else {
        seq![]
    }
}

/// What parsing one definition (a name part and a fret part) yields:
/// the trimmed name with its four fret values and derived aliases, or
/// nothing if the fret part does not hold exactly four valid tokens
/// or the name starts with no root token.
pub open spec fn spec_from_string(full_name: Seq<char>, frets_str: Seq<char>) -> Option<
    ChordView,
> {
    let name = spec_trim(full_name);
    let tokens = spec_tokens(frets_str);
    if tokens.len() != 4 {
        None
    } else if spec_fret_token(tokens[0]) is None || spec_fret_token(tokens[1]) is None
        || spec_fret_token(tokens[2]) is None || spec_fret_token(tokens[3]) is None {
        None
    } else {
        match spec_split_name(name) {
            None => None,
            Some((root, quality)) => Some(
                ChordView {
                    name: name,
                    frets: seq![
                        spec_fret_token(tokens[0])->0,
                        spec_fret_token(tokens[1])->0,
                        spec_fret_token(tokens[2])->0,
                        spec_fret_token(tokens[3])->0,
                    ],
                    alias_names: spec_alias_names(root, quality),
                },
            ),
        }
    }
}

impl Chord {
    /// Parses one definition, e.g. name `C#dim` with frets `0 1 0 4`.
    pub fn from_string(full_name: &str, frets_str: &str) -> (r: Option<Self>)
        ensures
            match r {
                Some(c) => spec_from_string(full_name@, frets_str@) == Some(c@),
                None => spec_from_string(full_name@, frets_str@) is None,
            },
    {
        let name_chars = trim_chars(&str_chars(full_name));
        let name = chars_to_string(&name_chars);

        let tokens = split_whitespace_chars(&str_chars(frets_str));
        proof {
            assert(tokens.deep_view().len() == tokens@.len());
            assert(forall|k: int|
                0 <= k < tokens@.len() ==> tokens.deep_view()[k] =~= #[trigger] tokens@[k]@);
        }
        if tokens.len() != 4 {
            return None;
        }
        let f0 = match parse_fret_token(&tokens[0]) {
            Some(f) => f,
            None => {
                return None;
            },
        };
        let f1 = match parse_fret_token(&tokens[1]) {
            Some(f) => f,
            None => {
                return None;
            },
        };
        let f2 = match parse_fret_token(&tokens[2]) {
            Some(f) => f,
            None => {
                return None;
            },
        };
        let f3 = match parse_fret_token(&tokens[3]) {
            Some(f) => f,
            None => {
                return None;
            },
        };

        let (root, quality) = match Self::split_name(name.as_str()) {
            Some(p) => p,
            None => {
                return None;
            },
        };

        let alias_roots = Self::alias_roots(root.as_str());
        let mut alias_names: Vec<String> = Vec::new();
        if alias_roots.len() == 1 {
            let full = String::from_str(alias_roots[0]).concat(quality.as_str());
            alias_names.push(full);
        }

        let c = Chord { name, frets: [f0, f1, f2, f3], alias_names };
        proof {
            assert(c.frets@ =~= seq![f0, f1, f2, f3]);
            assert(c.alias_names.deep_view() =~~= spec_alias_names(root@, quality@));
        }
        Some(c)
    }
}

/// What one line of the definitions source yields: nothing for a
/// blank line, a `#` comment or a malformed definition, else the
/// parsed chord.
pub open spec fn spec_parse_line(line: Seq<char>) -> Option<ChordView> {
    let t = spec_trim(line);
    if t.len() == 0 || t[0] == '#' {
        None
    } else {
        match spec_split_once(t, '=') {
            None => None,
            Some((name_part, frets_part)) => spec_from_string(name_part, frets_part),
        }
    }
}

/// The catalog built from a sequence of definition lines: the chords
/// of the well-formed lines, in order; malformed lines are dropped.
pub open spec fn spec_catalog(lines: Seq<Seq<char>>) -> Seq<ChordView>
    decreases lines.len(),
{
    if lines.len() == 0 {
        Seq::empty()
    } else {
        let rest = spec_catalog(lines.drop_last());
        match spec_parse_line(lines.last()) {
            Some(c) => rest.push(c),
            None => rest,
        }
    }
}

/// The index of the first catalog entry whose name or alias matches
/// the input case-insensitively, if any.
pub open spec fn spec_lookup(cat: Seq<ChordView>, input: Seq<char>) -> Option<int>
    decreases cat.len(),
{
    if cat.len() == 0 {
        None
    } else if spec_matches(cat[0], input) {
        Some(0)
    } else {
        match spec_lookup(cat.drop_first(), input) {
            Some(i) => Some(i + 1),
            None => None,
        }
    }
}

/// Whether a chord's canonical name or any of its alias names equals
/// the input up to ASCII case.
pub open spec fn spec_matches(c: ChordView, input: Seq<char>) -> bool {
    seq_eq_ignore_case(c.name, input) || exists|i: int|
        0 <= i < c.alias_names.len() && seq_eq_ignore_case(c.alias_names[i], input)
}

/// Folds one string's fret value into running bounds over the
/// fretted (non-zero, non-muted) values.
pub open spec fn spec_bounds_add(b: Option<(u8, u8)>, f: Option<u8>) -> Option<(u8, u8)> {
    match f {
        None => b,
        Some(v) => if v == 0 {
            b
        } else {
            match b {
                None => Some((v, v)),
                Some(p) => Some(
                    (
                        if v < p.0 {
                            v
                        } else {
                            p.0
                        },
                        if v > p.1 {
                            v
                        } else {
                            p.1
                        },
                    ),
                ),
            }
        },
    }
}

/// The minimum and maximum fretted value among a chord's strings,
/// ignoring muted strings and open strings; nothing when no string is
/// fretted.
pub open spec fn spec_fret_bounds(frets: Seq<Option<u8>>) -> Option<(u8, u8)>
    decreases frets.len(),
{
    if frets.len() == 0 {
        None
    } else {
        spec_bounds_add(spec_fret_bounds(frets.drop_last()), frets.last())
    }
}

/// Whether an entry is a fretted string: played, above the nut.
pub open spec fn is_fretted(f: Option<u8>) -> bool {
    f is Some && f->0 != 0
}

/// The fret bounds are the least and greatest fretted values: both
/// are attained, every fretted value lies between them, and they
/// exist exactly when some string is fretted.
pub proof fn lemma_fret_bounds(frets: Seq<Option<u8>>)
    ensures
        spec_fret_bounds(frets) is None <==> (forall|i: int|
            0 <= i < frets.len() ==> !is_fretted(frets[i])),
        spec_fret_bounds(frets) matches Some(p) ==> {
            &&& 1 <= p.0 <= p.1
            &&& exists|i: int| 0 <= i < frets.len() && frets[i] == Some(p.0)
            &&& exists|i: int| 0 <= i < frets.len() && frets[i] == Some(p.1)
            &&& forall|i: int|
                0 <= i < frets.len() && is_fretted(frets[i]) ==> p.0 <= frets[i]->0 <= p.1
        },
    decreases frets.len(),
{
    if frets.len() > 0 {
        let rest = frets.drop_last();
        let last = frets.last();
        let n = frets.len() as int;
        lemma_fret_bounds(rest);
        assert(forall|i: int| 0 <= i < n - 1 ==> frets[i] == #[trigger] rest[i]);
        assert(frets[n - 1] == last);
        match spec_fret_bounds(rest) {
            None => {
                if is_fretted(last) {
                    let v = last->0;
                    assert(last == Some(v));
                    assert(spec_fret_bounds(frets) == Some((v, v)));
                    assert(frets[n - 1] == Some(v));
                    assert forall|i: int| 0 <= i < n && is_fretted(frets[i]) implies v
                        <= frets[i]->0 <= v by {
                        if i < n - 1 {
                            assert(frets[i] == rest[i]);
                            assert(!is_fretted(rest[i]));
                        }
                    };
                } else {
                    assert(spec_fret_bounds(frets) is None);
                    assert forall|i: int| 0 <= i < n implies !is_fretted(frets[i]) by {
                        if i < n - 1 {
                            assert(frets[i] == rest[i]);
                            assert(!is_fretted(rest[i]));
                        } else {
                            assert(frets[i] == last);
                        }
                    };
                }
            },
            Some(p) => {
                let w0 = choose|i: int| 0 <= i < rest.len() && rest[i] == Some(p.0);
                let w1 = choose|i: int| 0 <= i < rest.len() && rest[i] == Some(p.1);
                assert(frets[w0] == Some(p.0));
                assert(frets[w1] == Some(p.1));
                assert(is_fretted(frets[w0]));
                let q = spec_fret_bounds(frets)->0;
                if is_fretted(last) {
                    let v = last->0;
                    assert(last == Some(v));
                    assert(frets[n - 1] == Some(v));
                }
                assert forall|i: int| 0 <= i < n && is_fretted(frets[i]) implies q.0 <= frets[i]->0
                    <= q.1 by {
                    if i < n - 1 {
                        assert(frets[i] == rest[i]);
                        assert(is_fretted(rest[i]));
                        assert(p.0 <= rest[i]->0 <= p.1);
                    }
                };
            },
        }
    }
}

impl Chord {
    /// Builds the catalog from the lines of a definitions source:
    /// blank lines and `#` comments are skipped, malformed lines are
    /// dropped, well-formed lines become entries in order.
    pub fn from_lines(lines: &Vec<String>) -> (r: Vec<Chord>)
        ensures
            catalog_view(r@) == spec_catalog(lines.deep_view()),
    {
        let mut r: Vec<Chord> = Vec::new();
        proof {
            assert(catalog_view(r@) =~= spec_catalog(lines.deep_view().subrange(0, 0)));
        }
        let mut i: usize = 0;
        while i < lines.len()
            invariant
                i <= lines@.len(),
                catalog_view(r@) == spec_catalog(lines.deep_view().subrange(0, i as int)),
            decreases lines@.len() - i,
        {
            let ghost prefix = lines.deep_view().subrange(0, i as int);
            let ghost cur = lines.deep_view().subrange(0, i + 1);
            proof {
                assert(cur.drop_last() =~= prefix);
                assert(cur.last() =~= lines.deep_view()[i as int]);
                assert(lines.deep_view()[i as int] =~= lines@[i as int]@);
            }
            if let Some(c) = Self::parse_line(lines[i].as_str()) {
                let ghost old_cat = catalog_view(r@);
                let ghost cv = c@;
                r.push(c);
                proof {
                    assert(catalog_view(r@) =~= old_cat.push(cv));
                }
            }
            i = i + 1;
        }
        proof {
            assert(lines.deep_view().subrange(0, i as int) =~= lines.deep_view());
        }
        r
    }

    /// Parses one line of the definitions source.
    pub fn parse_line(line: &str) -> (r: Option<Self>)
        ensures
            match r {
                Some(c) => spec_parse_line(line@) == Some(c@),
                None => spec_parse_line(line@) is None,
            },
    {
        let t = trim_chars(&str_chars(line));
        if t.len() == 0 {
            return None;
        }
        if t[0] == '#' {
            return None;
        }
        match split_once_char(&t, '=') {
            None => None,
            Some((name_part, frets_part)) => {
                let name_str = chars_to_string(&name_part);
                let frets_str = chars_to_string(&frets_part);
                Self::from_string(name_str.as_str(), frets_str.as_str())
            },
        }
    }

    /// The minimum and maximum fretted value among this chord's four
    /// strings, ignoring muted and open strings; nothing when no
    /// string is fretted.
    pub fn fret_bounds(&self) -> (r: Option<(u8, u8)>)
        ensures
            r == spec_fret_bounds(self@.frets),
    {
        let mut acc: Option<(u8, u8)> = None;
        let mut i: usize = 0;
        while i < 4
            invariant
                i <= 4,
                self@.frets.len() == 4,
                acc == spec_fret_bounds(self@.frets.subrange(0, i as int)),
            decreases 4 - i,
        {
            let ghost prefix = self@.frets.subrange(0, i as int);
            let ghost cur = self@.frets.subrange(0, i + 1);
            proof {
                assert(cur.drop_last() =~= prefix);
                assert(cur.last() == self@.frets[i as int]);
            }
            let f = self.frets[i];
            acc = match f {
                None => acc,
                Some(v) => if v == 0 {
                    acc
                } else {
                    match acc {
                        None => Some((v, v)),
                        Some(p) => Some(
                            (
                                if v < p.0 {
                                    v
                                } else {
                                    p.0
                                },
                                if v > p.1 {
                                    v
                                } else {
                                    p.1
                                },
                            ),
                        ),
                    }
                },
            };
            i = i + 1;
        }
        proof {
            assert(self@.frets.subrange(0, 4) =~= self@.frets);
        }
        acc
    }

    /// Whether this chord's name or any alias matches the input,
    /// case-insensitively.
    pub fn matches_name(&self, input: &str) -> (r: bool)
        ensures
            r == spec_matches(self@, input@),
    {
        let input_chars = str_chars(input);
        let name_chars = str_chars(self.name.as_str());
        if eq_ignore_case(&name_chars, &input_chars) {
            return true;
        }
        let mut i: usize = 0;
        while i < self.alias_names.len()
            invariant
                i <= self.alias_names@.len(),
                input_chars@ == input@,
                forall|j: int|
                    0 <= j < i ==> !seq_eq_ignore_case(
                        self@.alias_names[j],
                        input@,
                    ),
            decreases self.alias_names@.len() - i,
        {
            let alias_chars = str_chars(self.alias_names[i].as_str());
            if eq_ignore_case(&alias_chars, &input_chars) {
                proof {
                    assert(self@.alias_names[i as int] =~= alias_chars@);
                }
                return true;
            }
            proof {
                assert(self@.alias_names[i as int] =~= alias_chars@);
            }
            i = i + 1;
        }
        false
    }
}

proof fn lemma_lookup_at(cat: Seq<ChordView>, input: Seq<char>, i: int)
    requires
        0 <= i <= cat.len(),
        forall|j: int| 0 <= j < i ==> !spec_matches(cat[j], input),
        i < cat.len() ==> spec_matches(cat[i], input),
    ensures
        spec_lookup(cat, input) == if i < cat.len() {
            Some(i)
        } else {
            None::<int>
        },
    decreases i,
{
    if i == 0 {
    } else {
        lemma_lookup_at(cat.drop_first(), input, i - 1);
    }
}

/// The first catalog entry whose name or any alias matches the input
/// case-insensitively, if any; absence is a normal result.
pub fn lookup<'a>(catalog: &'a Vec<Chord>, name: &str) -> (r: Option<&'a Chord>)
    ensures
        r is Some <==> spec_lookup(catalog_view(catalog@), name@) is Some,
        r matches Some(c) ==> c@ == catalog_view(catalog@)[spec_lookup(
            catalog_view(catalog@),
            name@,
        )->0],
{
    match lookup_index(catalog, name) {
        Some(i) => Some(&catalog[i]),
        None => None,
    }
}

/// The index of the first matching catalog entry, if any.
pub fn lookup_index(catalog: &Vec<Chord>, name: &str) -> (r: Option<usize>)
    ensures
        match r {
            Some(i) => spec_lookup(catalog_view(catalog@), name@) == Some(i as int) && i
                < catalog@.len(),
            None => spec_lookup(catalog_view(catalog@), name@) is None,
        },
{
    let ghost cat = catalog_view(catalog@);
    let mut i: usize = 0;
    while i < catalog.len()
        invariant
            i <= catalog@.len(),
            cat == catalog_view(catalog@),
            cat.len() == catalog@.len(),
            forall|j: int| 0 <= j < i ==> !spec_matches(cat[j], name@),
        decreases catalog@.len() - i,
    {
        if catalog[i].matches_name(name) {
            proof {
                lemma_lookup_at(cat, name@, i as int);
            }
            return Some(i);
        }
        i = i + 1;
    }
    proof {
        lemma_lookup_at(cat, name@, i as int);
    }
    None
}

/// Parsing round-trip: a well-formed definition yields exactly the
/// name written before the `=` (trimmed) and one fret entry per
/// token written after it, each the value of its token.
pub proof fn lemma_parse_round_trip(full_name: Seq<char>, frets_str: Seq<char>)
    requires
        spec_from_string(full_name, frets_str) is Some,
    ensures
        spec_from_string(full_name, frets_str)->0.name == spec_trim(full_name),
        spec_from_string(full_name, frets_str)->0.frets.len() == 4,
        spec_tokens(frets_str).len() == 4,
        forall|i: int|
            0 <= i < 4 ==> spec_from_string(full_name, frets_str)->0.frets[i] == spec_fret_token(
                spec_tokens(frets_str)[i],
            )->0,
{
}

/// Alias symmetry over the closed enharmonic table: a name with an
/// accidental root has exactly one alias, built from the partner
/// root and the unchanged quality suffix; the partner's partner is
/// the root again, so the aliased name's one alias is the original
/// name; a natural-root name has no alias.
pub proof fn lemma_alias_symmetry(root: Seq<char>, quality: Seq<char>)
    requires
        root.len() == 2 && is_accidental_root(root[0], root[1]) || root.len() == 1
            && is_natural_root(root[0]),
    ensures
        root.len() == 2 ==> {
            &&& spec_alias_names(root, quality).len() == 1
            &&& spec_alias_names(root, quality)[0] == spec_alias_roots(root)[0] + quality
            &&& spec_alias_roots(spec_alias_roots(root)[0]) == seq![root]
            &&& spec_alias_names(spec_alias_roots(root)[0], quality) == seq![root + quality]
        },
        root.len() == 1 ==> spec_alias_names(root, quality).len() == 0,
{
    if root.len() == 2 {
        let partner = spec_alias_roots(root)[0];
        assert(partner.len() == 2);
        assert(is_accidental_root(partner[0], partner[1]));
        assert(spec_alias_roots(partner)[0] =~= root);
        assert(spec_alias_roots(partner) =~= seq![root]);
        assert(spec_alias_names(partner, quality) =~= seq![root + quality]);
    }
}

/// Lookup is insensitive to ASCII case: two inputs equal up to ASCII
/// case — in particular a name, its upper-casing and its
/// lower-casing — resolve to the same catalog entry.
pub proof fn lemma_lookup_case_insensitive(cat: Seq<ChordView>, a: Seq<char>, b: Seq<char>)
    requires
        seq_eq_ignore_case(a, b),
    ensures
        spec_lookup(cat, a) == spec_lookup(cat, b),
    decreases cat.len(),
{
    if cat.len() > 0 {
        lemma_matches_case_insensitive(cat[0], a, b);
        lemma_lookup_case_insensitive(cat.drop_first(), a, b);
    }
}

/// Name matching is insensitive to ASCII case of the input.
pub proof fn lemma_matches_case_insensitive(c: ChordView, a: Seq<char>, b: Seq<char>)
    requires
        seq_eq_ignore_case(a, b),
    ensures
        spec_matches(c, a) == spec_matches(c, b),
{
    if spec_matches(c, a) {
        if seq_eq_ignore_case(c.name, a) {
            assert(seq_eq_ignore_case(c.name, b));
        } else {
            let i = choose|i: int|
                0 <= i < c.alias_names.len() && seq_eq_ignore_case(c.alias_names[i], a);
            assert(seq_eq_ignore_case(c.alias_names[i], b));
        }
    }
    if spec_matches(c, b) {
        if seq_eq_ignore_case(c.name, b) {
            assert(seq_eq_ignore_case(c.name, a));
        } else {
            let i = choose|i: int|
                0 <= i < c.alias_names.len() && seq_eq_ignore_case(c.alias_names[i], b);
            assert(seq_eq_ignore_case(c.alias_names[i], a));
        }
    }
}

/// The fret value of one token, or nothing for an invalid token.
fn parse_fret_token(t: &Vec<char>) -> (r: Option<Option<u8>>)
    ensures
        r == spec_fret_token(t@),
{
    if t.len() == 1 && (t[0] == 'X' || t[0] == 'x') {
        Some(None)
    } else {
        match parse_u8(t) {
            Some(v) => Some(Some(v)),
            None => None,
        }
    }
}

/// The one-character status of a string: `O` open, `X` muted, blank
/// for a fretted string.
pub open spec fn spec_indicator(fv: Option<u8>) -> char {
    match fv {
        None => 'X',
        Some(v) => if v == 0 {
            'O'
        } else {
            ' '
        },
    }
}

/// One three-column cell of a string row: a marker if the string is
/// played at this fret, else a dash placeholder.
pub open spec fn spec_cell(fv: Option<u8>, f: int) -> Seq<char> {
    if fv is Some && fv->0 == f {
        seq!['●', ' ', ' ']
    } else {
        seq!['-', ' ', ' ']
    }
}

/// The cells of one string row over the fret columns `start..=end`.
pub open spec fn spec_cells(fv: Option<u8>, start: int, end: int) -> Seq<char>
    decreases end - start + 1,
{
    if end < start {
        Seq::empty()
    } else {
        spec_cells(fv, start, end - 1) + spec_cell(fv, end)
    }
}

/// The fret numbers of the header, each right-aligned in three
/// columns, over `start..=end`.
pub open spec fn spec_header_nums(start: int, end: int) -> Seq<char>
    decreases end - start + 1,
{
    if end < start {
        Seq::empty()
    } else {
        spec_header_nums(start, end - 1) + crate::text::spec_pad3(end as u8)
    }
}

/// One string row: display letter, status indicator, separator, then
/// one cell per fret column.
pub open spec fn spec_string_row(letter: char, fv: Option<u8>, start: int, end: int) -> Seq<
    char,
> {
    seq![letter, ' ', spec_indicator(fv), '|', ' '] + spec_cells(fv, start, end) + seq!['\n']
}

/// The full diagram text: title line, fret-number header, divider,
/// then one row per string from the highest-pitched (`A`) down to the
/// lowest (`G`).
pub open spec fn spec_render(label: Seq<char>, frets: Seq<Option<u8>>, start: u8, end: u8) -> Seq<
    char,
> {
    "Chord: "@ + label + seq!['\n'] + seq![' ', ' ', ' '] + spec_header_nums(
        start as int,
        end as int,
    ) + seq!['\n'] + crate::text::spec_repeat('-', (3 + 3 * (end - start + 1)) as nat) + seq![
        '\n',
    ] + spec_string_row('A', frets[3], start as int, end as int) + spec_string_row(
        'E',
        frets[2],
        start as int,
        end as int,
    ) + spec_string_row('C', frets[1], start as int, end as int) + spec_string_row(
        'G',
        frets[0],
        start as int,
        end as int,
    )
}

/// Appends the cells of one string row over `start..=end`.
fn push_cells(out: &mut Vec<char>, fv: Option<u8>, start: u8, end: u8)
    requires
        start <= end,
    ensures
        final(out)@ == old(out)@ + spec_cells(fv, start as int, end as int),
{
    let ghost base = out@;
    let mut f: u16 = start as u16;
    proof {
        assert(out@ =~= base + spec_cells(fv, start as int, start as int - 1));
    }
    while f <= end as u16
        invariant
            start as u16 <= f <= end as u16 + 1,
            out@ == base + spec_cells(fv, start as int, f as int - 1),
        decreases end as u16 + 1 - f,
    {
        let fu = f as u8;
        let hit = match fv {
            Some(v) => v == fu,
            None => false,
        };
        if hit {
            out.push('●');
        } else {
            out.push('-');
        }
        out.push(' ');
        out.push(' ');
        f = f + 1;
        proof {
            assert(out@ =~= base + spec_cells(fv, start as int, f as int - 1));
        }
    }
}

/// Appends the header fret numbers over `start..=end`.
fn push_header_nums(out: &mut Vec<char>, start: u8, end: u8)
    requires
        start <= end,
    ensures
        final(out)@ == old(out)@ + spec_header_nums(start as int, end as int),
{
    let ghost base = out@;
    let mut f: u16 = start as u16;
    proof {
        assert(out@ =~= base + spec_header_nums(start as int, start as int - 1));
    }
    while f <= end as u16
        invariant
            start as u16 <= f <= end as u16 + 1,
            out@ == base + spec_header_nums(start as int, f as int - 1),
        decreases end as u16 + 1 - f,
    {
        crate::text::push_pad3(out, f as u8);
        f = f + 1;
        proof {
            assert(out@ =~= base + spec_header_nums(start as int, f as int - 1));
        }
    }
}

/// Appends one string row.
fn push_string_row(out: &mut Vec<char>, letter: char, fv: Option<u8>, start: u8, end: u8)
    requires
        start <= end,
    ensures
        final(out)@ == old(out)@ + spec_string_row(letter, fv, start as int, end as int),
{
    let ghost base = out@;
    out.push(letter);
    out.push(' ');
    let ind = match fv {
        None => 'X',
        Some(v) => if v == 0 {
            'O'
        } else {
            ' '
        },
    };
    out.push(ind);
    out.push('|');
    out.push(' ');
    push_cells(out, fv, start, end);
    out.push('\n');
    proof {
        assert(out@ =~= base + spec_string_row(letter, fv, start as int, end as int));
    }
}

impl Chord {
    /// Renders this chord over the fret window `start..=end`, with
    /// the given display label as the title (normally what the user
    /// typed, not necessarily the canonical name).
    pub fn render_range_labeled(&self, label: &str, start_fret: u8, end_fret: u8) -> (r: String)
        requires
            start_fret <= end_fret,
        ensures
            r@ == spec_render(label@, self@.frets, start_fret, end_fret),
    {
        let mut out = str_chars("Chord: ");
        let mut label_chars = str_chars(label);
        out.append(&mut label_chars);
        out.push('\n');

        out.push(' ');
        out.push(' ');
        out.push(' ');
        let ghost after_margin = out@;
        push_header_nums(&mut out, start_fret, end_fret);
        out.push('\n');

        let cols: usize = (end_fret - start_fret) as usize + 1;
        crate::text::push_repeat(&mut out, '-', 3 + 3 * cols);
        out.push('\n');

        push_string_row(&mut out, 'A', self.frets[3], start_fret, end_fret);
        push_string_row(&mut out, 'E', self.frets[2], start_fret, end_fret);
        push_string_row(&mut out, 'C', self.frets[1], start_fret, end_fret);
        push_string_row(&mut out, 'G', self.frets[0], start_fret, end_fret);

        proof {
            assert(out@ =~= spec_render(label@, self@.frets, start_fret, end_fret));
        }
        chars_to_string(&out)
    }

    /// Renders this chord over the fret window `start..=end`, titled
    /// with its canonical name.
    pub fn render_range(&self, start_fret: u8, end_fret: u8) -> (r: String)
        requires
            start_fret <= end_fret,
        ensures
            r@ == spec_render(self@.name, self@.frets, start_fret, end_fret),
    {
        self.render_range_labeled(self.name.as_str(), start_fret, end_fret)
    }

    /// Renders this chord over the default five-column window,
    /// frets 1 to 5.
    pub fn render(&self) -> (r: String)
        ensures
            r@ == spec_render(self@.name, self@.frets, 1, 5),
    {
        self.render_range(1, 5)
    }
}

/// Executable test for `is_accidental_root`.
fn is_accidental_root_chars(c0: char, c1: char) -> (r: bool)
    ensures
        r == is_accidental_root(c0, c1),
{
    (c1 == '#' && (c0 == 'A' || c0 == 'C' || c0 == 'D' || c0 == 'F' || c0 == 'G')) || (c1 == 'b'
        && (c0 == 'A' || c0 == 'B' || c0 == 'D' || c0 == 'E' || c0 == 'G'))
}

/// Executable test for `is_natural_root`.
fn is_natural_root_chars(c: char) -> (r: bool)
    ensures
        r == is_natural_root(c),
{
    c == 'A' || c == 'B' || c == 'C' || c == 'D' || c == 'E' || c == 'F' || c == 'G'
}

} // verus!
