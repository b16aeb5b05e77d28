//! Fret-window selection: one shared `[start, end]` window for a
//! batch of chords displayed together, so all diagrams render at a
//! comparable visual scale.

use vstd::prelude::*;

use crate::chords::{catalog_view, spec_fret_bounds, Chord, ChordView};

verus! {

/// Whether a chord has at least one open string (fret value 0).
pub open spec fn spec_chord_has_open(c: ChordView) -> bool {
    exists|j: int| 0 <= j < c.frets.len() && c.frets[j] == Some(0u8)
}

/// Whether any chord of the batch has an open string.
pub open spec fn spec_any_open(chords: Seq<ChordView>) -> bool
    decreases chords.len(),
{
    if chords.len() == 0 {
        false
    } else {
        spec_any_open(chords.drop_last()) || spec_chord_has_open(chords.last())
    }
}

/// Merges the fret bounds of two sources: the least minimum and the
/// greatest maximum of whichever are present.
pub open spec fn spec_merge_bounds(a: Option<(u8, u8)>, b: Option<(u8, u8)>) -> Option<(u8, u8)> {
    match (a, b) {
        (None, None) => None,
        (Some(x), None) => Some(x),
        (None, Some(y)) => Some(y),
        (Some(x), Some(y)) => Some(
            (
                if y.0 < x.0 {
                    y.0
                } else {
                    x.0
                },
                if y.1 > x.1 {
                    y.1
                } else {
                    x.1
                },
            ),
        ),
    }
}

/// The global fret bounds of a batch: the least per-chord minimum and
/// the greatest per-chord maximum, over the chords that have fretted
/// strings; nothing when none has.
pub open spec fn spec_batch_bounds(chords: Seq<ChordView>) -> Option<(u8, u8)>
    decreases chords.len(),
{
    if chords.len() == 0 {
        None
    } else {
        spec_merge_bounds(
            spec_batch_bounds(chords.drop_last()),
            spec_fret_bounds(chords.last().frets),
        )
    }
}

/// The shared window of a batch. The start is 1 when any chord has an
/// open string or the global minimum is below 2, else the global
/// minimum; the end extends the window to at least five columns,
/// saturating at the top of the `u8` fret range. A batch with no
/// fretted strings gets the default window, frets 1 to 5.
pub open spec fn spec_window(chords: Seq<ChordView>) -> (u8, u8) {
    match spec_batch_bounds(chords) {
        None => (1, 5),
        Some(b) => {
            let start: int = if spec_any_open(chords) || b.0 < 2 {
                1
            } else {
                b.0 as int
            };
            let reach: int = if start + 4 <= 255 {
                start + 4
            } else {
                255
            };
            let end: int = if b.1 as int > reach {
                b.1 as int
            } else {
                reach
            };
            (start as u8, end as u8)
        },
    }
}

/// For a batch holding one chord with fretted bounds `(mn, mx)` and
/// no open strings, the window starts at `mn` when `mn >= 2` and at 1
/// otherwise, and ends at the greater of `mx` and `start + 4`. Stated
/// away from the top of the fret range, where the window end
/// saturates at 255 instead.
pub proof fn lemma_window_single_chord(c: ChordView, mn: u8, mx: u8)
    requires
        spec_fret_bounds(c.frets) == Some((mn, mx)),
        !spec_chord_has_open(c),
        mn < 2 || mn + 4 <= 255,
    ensures
        spec_window(seq![c]).0 == if mn >= 2 {
            mn as int
        } else {
            1
        },
        spec_window(seq![c]).1 == ({
            let start: int = if mn >= 2 {
                mn as int
            } else {
                1
            };
            if mx as int > start + 4 {
                mx as int
            } else {
                start + 4
            }
        }),
{
    let s = seq![c];
    assert(s.drop_last() =~= Seq::<ChordView>::empty());
    assert(s.last() == c);
    assert(spec_batch_bounds(Seq::<ChordView>::empty()) is None);
    assert(!spec_any_open(Seq::<ChordView>::empty()));
    assert(spec_batch_bounds(s) == Some((mn, mx)));
    assert(!spec_any_open(s));
}

impl Chord {
    /// Whether this chord has at least one open string.
    pub fn has_open_string(&self) -> (r: bool)
        ensures
            r == spec_chord_has_open(self@),
    {
        let mut i: usize = 0;
        while i < 4
            invariant
                i <= 4,
                self@.frets.len() == 4,
                forall|j: int| 0 <= j < i ==> self@.frets[j] != Some(0u8),
            decreases 4 - i,
        {
            if let Some(v) = self.frets[i] {
                if v == 0 {
                    return true;
                }
            }
            i = i + 1;
        }
        false
    }
}

/// The shared fret window for a batch of chords, or nothing for an
/// empty batch.
pub fn select_window(chords: &Vec<Chord>) -> (r: Option<(u8, u8)>)
    ensures
        r is Some <==> chords@.len() > 0,
        r matches Some(w) ==> w == spec_window(catalog_view(chords@)) && w.0 <= w.1,
{
    if chords.len() == 0 {
        return None;
    }
    let ghost cat = catalog_view(chords@);
    let mut has_open = false;
    let mut bounds: Option<(u8, u8)> = None;
    let mut i: usize = 0;
    proof {
        assert(cat.subrange(0, 0) =~= Seq::<ChordView>::empty());
    }
    while i < chords.len()
        invariant
            i <= chords@.len(),
            cat == catalog_view(chords@),
            cat.len() == chords@.len(),
            has_open == spec_any_open(cat.subrange(0, i as int)),
            bounds == spec_batch_bounds(cat.subrange(0, i as int)),
        decreases chords@.len() - i,
    {
        let ghost prefix = cat.subrange(0, i as int);
        let ghost cur = cat.subrange(0, i + 1);
        proof {
            assert(cur.drop_last() =~= prefix);
            assert(cur.last() == cat[i as int]);
        }
        let c = &chords[i];
        if c.has_open_string() {
            has_open = true;
        }
        let b = c.fret_bounds();
        bounds = match (bounds, b) {
            (None, None) => None,
            (Some(x), None) => Some(x),
            (None, Some(y)) => Some(y),
            (Some(x), Some(y)) => Some(
                (
                    if y.0 < x.0 {
                        y.0
                    } else {
                        x.0
                    },
                    if y.1 > x.1 {
                        y.1
                    } else {
                        x.1
                    },
                ),
            ),
        };
        i = i + 1;
    }
    proof {
        assert(cat.subrange(0, i as int) =~= cat);
    }
    let (start, end) = match bounds {
        None => (1u8, 5u8),
        Some(b) => {
            let start: u8 = if has_open || b.0 < 2 {
                1
            } else {
                b.0
            };
            let reach: u8 = if start <= 251 {
                start + 4
            } else {
                255
            };
            let end: u8 = if b.1 > reach {
                b.1
            } else {
                reach
            };
            (start, end)
        },
    };
    Some((start, end))
}

} // verus!
