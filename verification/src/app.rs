//! The interactive application state and the batch query entry
//! point: a comma-separated query is resolved against the catalog,
//! a shared fret window is selected, and one diagram per resolved
//! chord is rendered, titled with the label the user typed.

use vstd::prelude::*;

use crate::chords::{
    catalog_view, spec_lookup, spec_render, Chord, ChordView, lookup_index,
};
use crate::text::{chars_to_string, spec_split, spec_trim, split_char, str_chars, trim_chars};
use crate::window::{spec_any_open, spec_batch_bounds, spec_window};

verus! {

/// The non-empty trimmed entries of a comma-separated query, in
/// order: the keys looked up against the catalog.
pub open spec fn spec_query_keys(parts: Seq<Seq<char>>) -> Seq<Seq<char>>
    decreases parts.len(),
{
    if parts.len() == 0 {
        Seq::empty()
    } else {
        let rest = spec_query_keys(parts.drop_last());
        let k = spec_trim(parts.last());
        if k.len() == 0 {
            rest
        } else {
            rest.push(k)
        }
    }
}

/// The keys of the query that match no catalog entry, in order.
pub open spec fn spec_missing_keys(cat: Seq<ChordView>, keys: Seq<Seq<char>>) -> Seq<Seq<char>>
    decreases keys.len(),
{
    if keys.len() == 0 {
        Seq::empty()
    } else {
        let rest = spec_missing_keys(cat, keys.drop_last());
        if spec_lookup(cat, keys.last()) is None {
            rest.push(keys.last())
        } else {
            rest
        }
    }
}

/// The keys that resolved, each with the catalog entry it resolved
/// to, in order.
pub open spec fn spec_found_pairs(cat: Seq<ChordView>, keys: Seq<Seq<char>>) -> Seq<
    (Seq<char>, ChordView),
>
    decreases keys.len(),
{
    if keys.len() == 0 {
        Seq::empty()
    } else {
        let rest = spec_found_pairs(cat, keys.drop_last());
        match spec_lookup(cat, keys.last()) {
            Some(i) => rest.push((keys.last(), cat[i])),
            None => rest,
        }
    }
}

/// The chords of the resolved pairs, in order.
pub open spec fn spec_pairs_chords(pairs: Seq<(Seq<char>, ChordView)>) -> Seq<ChordView>
    decreases pairs.len(),
{
    if pairs.len() == 0 {
        Seq::empty()
    } else {
        spec_pairs_chords(pairs.drop_last()).push(pairs.last().1)
    }
}

/// One "not found" message per unresolved key, in order.
pub open spec fn spec_not_found_msgs(keys: Seq<Seq<char>>) -> Seq<Seq<char>>
    decreases keys.len(),
{
    if keys.len() == 0 {
        Seq::empty()
    } else {
        spec_not_found_msgs(keys.drop_last()).push("Chord not found: "@ + keys.last())
    }
}

/// One diagram per resolved pair over the shared window, each titled
/// with the key the user typed.
pub open spec fn spec_pair_diagrams(
    pairs: Seq<(Seq<char>, ChordView)>,
    ws: u8,
    we: u8,
) -> Seq<Seq<char>>
    decreases pairs.len(),
{
    if pairs.len() == 0 {
        Seq::empty()
    } else {
        spec_pair_diagrams(pairs.drop_last(), ws, we).push(
            spec_render(pairs.last().0, pairs.last().1.frets, ws, we),
        )
    }
}

/// What one submitted query yields: a prompt for an empty query;
/// otherwise one "not found" message per unresolved key followed by
/// one diagram per resolved key, all diagrams sharing one fret
/// window.
pub open spec fn spec_batch(cat: Seq<ChordView>, query: Seq<char>) -> Seq<Seq<char>> {
    let raw = spec_trim(query);
    if raw.len() == 0 {
        seq!["Please enter one or more chords, separated by commas"@]
    } else {
        let keys = spec_query_keys(spec_split(raw, ','));
        let msgs = spec_not_found_msgs(spec_missing_keys(cat, keys));
        let pairs = spec_found_pairs(cat, keys);
        if pairs.len() == 0 {
            msgs
        } else {
            let w = spec_window(spec_pairs_chords(pairs));
            msgs + spec_pair_diagrams(pairs, w.0, w.1)
        }
    }
}

/// Resolves a comma-separated query against the catalog and renders
/// the result: the single entry point a presentation shell calls per
/// user submission.
#[verifier::loop_isolation(false)]
pub fn render_batch(catalog: &Vec<Chord>, query: &str) -> (r: Vec<String>)
    ensures
        r.deep_view() == spec_batch(catalog_view(catalog@), query@),
{
    let ghost cat = catalog_view(catalog@);
    let raw = trim_chars(&str_chars(query));
    let mut out: Vec<String> = Vec::new();
    if raw.len() == 0 {
        out.push(String::from_str("Please enter one or more chords, separated by commas"));
        proof {
            assert(out.deep_view() =~~= spec_batch(cat, query@));
        }
        return out;
    }
    let parts = split_char(&raw, ',');
    let ghost pdv = parts.deep_view();
    proof {
        assert(forall|k: int| 0 <= k < parts@.len() ==> pdv[k] =~= #[trigger] parts@[k]@);
    }

    let mut keys: Vec<Vec<char>> = Vec::new();
    let mut i: usize = 0;
    proof {
        assert(keys.deep_view() =~~= spec_query_keys(pdv.subrange(0, 0)));
    }
    while i < parts.len()
        invariant
            i <= parts@.len(),
            keys.deep_view() == spec_query_keys(pdv.subrange(0, i as int)),
        decreases parts@.len() - i,
    {
        proof {
            assert(pdv.subrange(0, i + 1).drop_last() =~= pdv.subrange(0, i as int));
            assert(pdv.subrange(0, i + 1).last() == pdv[i as int]);
        }
        let k = trim_chars(&parts[i]);
        if k.len() > 0 {
            let ghost old_dv = keys.deep_view();
            let ghost kv = k@;
            keys.push(k);
            proof {
                assert(keys.deep_view() =~~= old_dv.push(kv));
            }
        }
        i = i + 1;
    }
    proof {
        assert(pdv.subrange(0, i as int) =~= pdv);
    }
    let ghost kdv = keys.deep_view();
    proof {
        assert(forall|k: int| 0 <= k < keys@.len() ==> kdv[k] =~= #[trigger] keys@[k]@);
    }

    // resolve each key, reporting the unresolved ones in order
    let mut found: Vec<Option<usize>> = Vec::new();
    let mut i: usize = 0;
    proof {
        assert(out.deep_view() =~~= spec_not_found_msgs(
            spec_missing_keys(cat, kdv.subrange(0, 0)),
        ));
    }
    while i < keys.len()
        invariant
            i <= keys@.len(),
            found@.len() == i,
            forall|j: int|
                0 <= j < i ==> match #[trigger] found@[j] {
                    Some(ci) => spec_lookup(cat, kdv[j]) == Some(ci as int) && ci < catalog@.len(),
                    None => spec_lookup(cat, kdv[j]) is None,
                },
            out.deep_view() == spec_not_found_msgs(
                spec_missing_keys(cat, kdv.subrange(0, i as int)),
            ),
        decreases keys@.len() - i,
    {
        proof {
            assert(kdv.subrange(0, i + 1).drop_last() =~= kdv.subrange(0, i as int));
            assert(kdv.subrange(0, i + 1).last() == kdv[i as int]);
        }
        let key_str = chars_to_string(&keys[i]);
        proof {
            assert(key_str@ == kdv[i as int]);
        }
        let ghost m = spec_missing_keys(cat, kdv.subrange(0, i as int));
        let fi = lookup_index(catalog, key_str.as_str());
        if fi.is_none() {
            let ghost old_dv = out.deep_view();
            let msg = String::from_str("Chord not found: ").concat(key_str.as_str());
            out.push(msg);
            proof {
                assert(spec_missing_keys(cat, kdv.subrange(0, i + 1)) == m.push(kdv[i as int]));
                assert(m.push(kdv[i as int]).drop_last() =~= m);
                assert(spec_not_found_msgs(m.push(kdv[i as int])) == spec_not_found_msgs(m).push(
                    "Chord not found: "@ + kdv[i as int],
                ));
                assert(out.deep_view() =~~= old_dv.push("Chord not found: "@ + kdv[i as int]));
            }
        } else {
            proof {
                assert(spec_missing_keys(cat, kdv.subrange(0, i + 1)) == m);
            }
        }
        found.push(fi);
        i = i + 1;
    }
    proof {
        assert(kdv.subrange(0, i as int) =~= kdv);
    }
    let ghost pairs = spec_found_pairs(cat, kdv);

    // the shared fret window over the resolved chords
    let mut has_open = false;
    let mut bounds: Option<(u8, u8)> = None;
    let mut n_found: usize = 0;
    let mut i: usize = 0;
    proof {
        assert(spec_found_pairs(cat, kdv.subrange(0, 0)) =~= Seq::<(Seq<char>, ChordView)>::empty());
        assert(spec_pairs_chords(spec_found_pairs(cat, kdv.subrange(0, 0))) =~= Seq::<
            ChordView,
        >::empty());
    }
    while i < keys.len()
        invariant
            i <= keys@.len(),
            found@.len() == keys@.len(),
            forall|j: int|
                0 <= j < keys@.len() ==> match #[trigger] found@[j] {
                    Some(ci) => spec_lookup(cat, kdv[j]) == Some(ci as int) && ci < catalog@.len(),
                    None => spec_lookup(cat, kdv[j]) is None,
                },
            n_found <= i,
            n_found == spec_found_pairs(cat, kdv.subrange(0, i as int)).len(),
            has_open == spec_any_open(spec_pairs_chords(spec_found_pairs(cat, kdv.subrange(0, i as int)))),
            bounds == spec_batch_bounds(spec_pairs_chords(spec_found_pairs(cat, kdv.subrange(0, i as int)))),
        decreases keys@.len() - i,
    {
        let ghost pfx = spec_found_pairs(cat, kdv.subrange(0, i as int));
        let ghost cur = spec_found_pairs(cat, kdv.subrange(0, i + 1));
        proof {
            assert(kdv.subrange(0, i + 1).drop_last() =~= kdv.subrange(0, i as int));
            assert(kdv.subrange(0, i + 1).last() == kdv[i as int]);
        }
        if let Some(ci) = found[i] {
            proof {
                assert(cur == pfx.push((kdv[i as int], cat[found@[i as int]->0 as int])));
                assert(cur.drop_last() =~= pfx);
                assert(spec_pairs_chords(cur) == spec_pairs_chords(pfx).push(cat[found@[i as int]->0 as int]));
                assert(spec_pairs_chords(cur).drop_last() =~= spec_pairs_chords(pfx));
                assert(cat[ci as int] == catalog@[ci as int]@);
            }
            let c = &catalog[ci];
            if c.has_open_string() {
                has_open = true;
            }
            let b = c.fret_bounds();
            bounds = match (bounds, b) {
                (None, None) => None,
                (Some(x), None) => Some(x),
                (None, Some(y)) => Some(y),
                (Some(x), Some(y)) => Some(
                    (
                        if y.0 < x.0 {
                            y.0
                        } else {
                            x.0
                        },
                        if y.1 > x.1 {
                            y.1
                        } else {
                            x.1
                        },
                    ),
                ),
            };
            n_found = n_found + 1;
        } else {
            proof {
                assert(cur == pfx);
            }
        }
        i = i + 1;
    }
    proof {
        assert(kdv.subrange(0, i as int) =~= kdv);
    }
    let (ws, we) = match bounds {
        None => (1u8, 5u8),
        Some(b) => {
            let start: u8 = if has_open || b.0 < 2 {
                1
            } else {
                b.0
            };
            let reach: u8 = if start <= 251 {
                start + 4
            } else {
                255
            };
            let end: u8 = if b.1 > reach {
                b.1
            } else {
                reach
            };
            (start, end)
        },
    };
    proof {
        assert((ws, we) == spec_window(spec_pairs_chords(pairs)));
        assert(ws <= we);
    }

    // one diagram per resolved key, titled with what was typed
    let ghost msgs = out.deep_view();
    let mut i: usize = 0;
    proof {
        assert(spec_pair_diagrams(spec_found_pairs(cat, kdv.subrange(0, 0)), ws, we) =~= Seq::<
            Seq<char>,
        >::empty());
        assert(out.deep_view() =~~= msgs + spec_pair_diagrams(
            spec_found_pairs(cat, kdv.subrange(0, 0)),
            ws,
            we,
        ));
    }
    while i < keys.len()
        invariant
            i <= keys@.len(),
            found@.len() == keys@.len(),
            forall|j: int|
                0 <= j < keys@.len() ==> match #[trigger] found@[j] {
                    Some(ci) => spec_lookup(cat, kdv[j]) == Some(ci as int) && ci < catalog@.len(),
                    None => spec_lookup(cat, kdv[j]) is None,
                },
            out.deep_view() == msgs + spec_pair_diagrams(
                spec_found_pairs(cat, kdv.subrange(0, i as int)),
                ws,
                we,
            ),
        decreases keys@.len() - i,
    {
        let ghost pfx = spec_found_pairs(cat, kdv.subrange(0, i as int));
        let ghost cur = spec_found_pairs(cat, kdv.subrange(0, i + 1));
        proof {
            assert(kdv.subrange(0, i + 1).drop_last() =~= kdv.subrange(0, i as int));
            assert(kdv.subrange(0, i + 1).last() == kdv[i as int]);
        }
        if let Some(ci) = found[i] {
            proof {
                assert(cur == pfx.push((kdv[i as int], cat[found@[i as int]->0 as int])));
                assert(cur.drop_last() =~= pfx);
                assert(cat[ci as int] == catalog@[ci as int]@);
            }
            let label = chars_to_string(&keys[i]);
            let d = catalog[ci].render_range_labeled(label.as_str(), ws, we);
            let ghost old_dv = out.deep_view();
            out.push(d);
            proof {
                assert(out.deep_view() =~~= old_dv.push(
                    spec_render(kdv[i as int], cat[ci as int].frets, ws, we),
                ));
            }
        } else {
            proof {
                assert(cur == pfx);
            }
        }
        i = i + 1;
    }
    proof {
        assert(kdv.subrange(0, i as int) =~= kdv);
        if pairs.len() == 0 {
            assert(spec_pair_diagrams(pairs, ws, we) =~= Seq::<Seq<char>>::empty());
            assert(out.deep_view() =~~= spec_batch(cat, query@));
        } else {
            assert(out.deep_view() =~~= spec_batch(cat, query@));
        }
    }
    out
}

/// The interactive application state: the input line being typed,
/// the loaded catalog, the diagram texts last produced, and the
/// scroll and help-overlay state of the presentation shell.
pub struct App {
    pub input: String,
    pub chords: Vec<Chord>,
    pub diagrams: Vec<String>,
    pub scroll: u16,
    pub help_shown: bool,
    pub help_scroll: u16,
}

impl App {
    /// A fresh application over the given catalog, showing the
    /// initial prompt.
    pub fn new(chords: Vec<Chord>) -> (r: Self)
        ensures
            r.input@ == Seq::<char>::empty(),
            r.chords == chords,
            r.diagrams.deep_view() == seq!["Type comma separated chords and press Enter."@],
            r.scroll == 0,
            r.help_shown == false,
            r.help_scroll == 0,
    {
        let mut diagrams: Vec<String> = Vec::new();
        diagrams.push(String::from_str("Type comma separated chords and press Enter."));
        let r = Self {
            input: String::new(),
            chords,
            diagrams,
            scroll: 0,
            help_shown: false,
            help_scroll: 0,
        };
        proof {
            assert(r.diagrams.deep_view() =~~= seq![
                "Type comma separated chords and press Enter."@,
            ]);
        }
        r
    }

    /// Resolves the current input as a batch query: replaces the
    /// diagrams with the query's results, clears the input, resets
    /// scrolling and hides the help overlay.
    pub fn lookup(&mut self)
        ensures
            final(self).diagrams.deep_view() == spec_batch(
                catalog_view(old(self).chords@),
                old(self).input@,
            ),
            final(self).chords == old(self).chords,
            final(self).input@ == Seq::<char>::empty(),
            final(self).scroll == 0,
            final(self).help_shown == false,
            final(self).help_scroll == 0,
    {
        self.help_shown = false;
        self.help_scroll = 0;
        let d = render_batch(&self.chords, self.input.as_str());
        self.diagrams = d;
        self.input = String::new();
        self.scroll = 0;
    }
}

} // verus!
