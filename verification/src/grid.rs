//! Greedy grid layout: packs rendered text blocks into rows under a
//! maximum line width, Unicode-aware, and pads cells so columns align.

use vstd::prelude::*;

use crate::text::{chars_to_string, spec_repeat, spec_split, split_char, str_chars};

verus! {

/// The terminal display width of a character sequence, as the
/// Unicode rules count it (wide and combining characters by their
/// rendered column count).
pub uninterp spec fn display_width(s: Seq<char>) -> nat;

/// Relies on `unicode_width::UnicodeWidthStr::width`: the display
/// width of a string in terminal columns, a function of its
/// characters alone.
#[verifier::external_body]
fn str_width(s: &str) -> (r: usize)
    ensures
        r == display_width(s@),
{
    unicode_width::UnicodeWidthStr::width(s)
}

/// A line stripped of one trailing carriage return, as `str::lines`
/// strips it before a line feed.
pub open spec fn spec_strip_cr(p: Seq<char>) -> Seq<char> {
    if p.len() > 0 && p.last() == '\r' {
        p.drop_last()
    } else {
        p
    }
}

/// The lines of a text block, as `str::lines` yields them: split at
/// line feeds, each carriage return before a line feed stripped, and
/// no final empty line for text ending in a line feed.
pub open spec fn spec_lines(s: Seq<char>) -> Seq<Seq<char>> {
    let parts = spec_split(s, '\n');
    let main = Seq::new((parts.len() - 1) as nat, |i: int| spec_strip_cr(parts[i]));
    if parts.last().len() == 0 {
        main
    } else {
        main.push(parts.last())
    }
}

/// The lines of a text block.
fn lines_of(s: &str) -> (r: Vec<String>)
    ensures
        r.deep_view() == spec_lines(s@),
{
    let chars = str_chars(s);
    let parts = split_char(&chars, '\n');
    let ghost pdv = parts.deep_view();
    proof {
        assert(forall|k: int| 0 <= k < parts@.len() ==> pdv[k] =~= #[trigger] parts@[k]@);
    }
    let n = parts.len();
    let mut r: Vec<String> = Vec::new();
    let mut i: usize = 0;
    while i < n - 1
        invariant
            1 <= n == parts@.len(),
            pdv == parts.deep_view(),
            pdv.len() == parts@.len(),
            forall|k: int| 0 <= k < parts@.len() ==> pdv[k] == #[trigger] parts@[k]@,
            i <= n - 1,
            r.deep_view() == Seq::new(i as nat, |k: int| spec_strip_cr(pdv[k])),
        decreases n - 1 - i,
    {
        let ghost old_dv = r.deep_view();
        let mut part: Vec<char> = Vec::new();
        let mut j: usize = 0;
        while j < parts[i].len()
            invariant
                i < parts@.len(),
                j <= parts@[i as int]@.len(),
                part@ == parts@[i as int]@.subrange(0, j as int),
            decreases parts@[i as int]@.len() - j,
        {
            part.push(parts[i][j]);
            j = j + 1;
            proof {
                assert(part@ =~= parts@[i as int]@.subrange(0, j as int));
            }
        }
        proof {
            assert(part@ =~= parts@[i as int]@);
        }
        if part.len() > 0 && part[part.len() - 1] == '\r' {
            part.pop();
        }
        proof {
            assert(part@ =~= spec_strip_cr(pdv[i as int]));
        }
        r.push(chars_to_string(&part));
        i = i + 1;
        proof {
            assert(r.deep_view() =~~= old_dv.push(part@));
            assert(r.deep_view() =~~= Seq::new(i as nat, |k: int| spec_strip_cr(pdv[k])));
        }
    }
    let last = &parts[n - 1];
    if last.len() > 0 {
        let ghost old_dv = r.deep_view();
        r.push(chars_to_string(last));
        proof {
            assert(r.deep_view() =~~= old_dv.push(last@));
        }
    }
    proof {
        assert(r.deep_view() =~~= spec_lines(s@));
    }
    r
}

/// The display width of a block: the greatest display width among
/// its lines, zero for an empty block.
pub open spec fn spec_block_width(lines: Seq<Seq<char>>) -> nat
    decreases lines.len(),
{
    if lines.len() == 0 {
        0
    } else {
        let rest = spec_block_width(lines.drop_last());
        let w = display_width(lines.last());
        if w > rest {
            w
        } else {
            rest
        }
    }
}

/// The display width of a block of lines.
fn block_width(lines: &Vec<String>) -> (r: usize)
    ensures
        r == spec_block_width(lines.deep_view()),
{
    let ghost dv = lines.deep_view();
    let mut r: usize = 0;
    let mut i: usize = 0;
    proof {
        assert(dv.subrange(0, 0) =~= Seq::<Seq<char>>::empty());
    }
    while i < lines.len()
        invariant
            i <= lines@.len(),
            dv == lines.deep_view(),
            dv.len() == lines@.len(),
            r == spec_block_width(dv.subrange(0, i as int)),
        decreases lines@.len() - i,
    {
        let ghost prefix = dv.subrange(0, i as int);
        let ghost cur = dv.subrange(0, i + 1);
        proof {
            assert(cur.drop_last() =~= prefix);
            assert(cur.last() == dv[i as int]);
            assert(dv[i as int] =~= lines@[i as int]@);
        }
        let w = str_width(lines[i].as_str());
        if w > r {
            r = w;
        }
        i = i + 1;
    }
    proof {
        assert(dv.subrange(0, i as int) =~= dv);
    }
    r
}

/// Packer state machine behind `spec_pack`: `cur` is the row being
/// filled, `used` its total width so far, `acc` the rows already
/// closed. A block joins the current row when it fits within the
/// width limit, else it opens a new row; the first block of a row is
/// never rejected.
pub open spec fn spec_pack_go(
    widths: Seq<int>,
    maxw: int,
    sp: int,
    i: int,
    cur: Seq<usize>,
    used: int,
    acc: Seq<Seq<usize>>,
) -> Seq<Seq<usize>>
    decreases widths.len() - i,
{
    if i < 0 || i >= widths.len() {
        if cur.len() > 0 {
            acc.push(cur)
        } else {
            acc
        }
    } else {
        let w = widths[i];
        if cur.len() == 0 {
            spec_pack_go(widths, maxw, sp, i + 1, seq![i as usize], w, acc)
        } else if used + sp + w > maxw {
            spec_pack_go(widths, maxw, sp, i + 1, seq![i as usize], w, acc.push(cur))
        } else {
            spec_pack_go(widths, maxw, sp, i + 1, cur.push(i as usize), used + sp + w, acc)
        }
    }
}

/// The rows of block indices the greedy packer produces, in input
/// order.
pub open spec fn spec_pack(widths: Seq<int>, maxw: int, sp: int) -> Seq<Seq<usize>> {
    spec_pack_go(widths, maxw, sp, 0, Seq::empty(), 0, Seq::empty())
}

/// The total rendered width of a row: the widths of its blocks plus
/// the spacing between adjacent blocks.
pub open spec fn spec_row_sum(widths: Seq<int>, sp: int, row: Seq<usize>) -> int
    decreases row.len(),
{
    if row.len() == 0 {
        0
    } else if row.len() == 1 {
        widths[row[0] as int]
    } else {
        spec_row_sum(widths, sp, row.drop_last()) + sp + widths[row.last() as int]
    }
}

/// Whether one packed row is well-formed for `widths` and bounded by
/// `maxw`: never empty, its indices in range, and, unless it holds a
/// single block that alone exceeds the limit, its total rendered
/// width within `maxw`.
pub open spec fn spec_row_ok(widths: Seq<int>, maxw: int, sp: int, row: Seq<usize>) -> bool {
    &&& row.len() >= 1
    &&& forall|k: int| 0 <= k < row.len() ==> row[k] < widths.len()
    &&& row.len() > 1 ==> spec_row_sum(widths, sp, row) <= maxw
}

proof fn lemma_pack_go_ok(
    widths: Seq<int>,
    maxw: int,
    sp: int,
    i: int,
    cur: Seq<usize>,
    used: int,
    acc: Seq<Seq<usize>>,
)
    requires
        0 <= i <= widths.len(),
        widths.len() <= usize::MAX,
        sp >= 0,
        forall|k: int| 0 <= k < widths.len() ==> widths[k] >= 0,
        forall|k: int| 0 <= k < cur.len() ==> cur[k] < i,
        cur.len() > 0 ==> used == spec_row_sum(widths, sp, cur),
        cur.len() > 1 ==> used <= maxw,
        forall|r: int| 0 <= r < acc.len() ==> spec_row_ok(widths, maxw, sp, #[trigger] acc[r]),
    ensures
        forall|r: int|
            0 <= r < spec_pack_go(widths, maxw, sp, i, cur, used, acc).len() ==> spec_row_ok(
                widths,
                maxw,
                sp,
                #[trigger] spec_pack_go(widths, maxw, sp, i, cur, used, acc)[r],
            ),
    decreases widths.len() - i,
{
    let res = spec_pack_go(widths, maxw, sp, i, cur, used, acc);
    if i >= widths.len() {
        if cur.len() > 0 {
            assert(spec_row_ok(widths, maxw, sp, cur));
            assert forall|r: int| 0 <= r < res.len() implies spec_row_ok(
                widths,
                maxw,
                sp,
                #[trigger] res[r],
            ) by {
                if r < acc.len() {
                    assert(res[r] == acc[r]);
                } else {
                    assert(res[r] == cur);
                }
            };
        } else {
            assert forall|r: int| 0 <= r < res.len() implies spec_row_ok(
                widths,
                maxw,
                sp,
                #[trigger] res[r],
            ) by {
                assert(res[r] == acc[r]);
            };
        }
    } else {
        let w = widths[i];
        if cur.len() == 0 {
            assert(spec_row_sum(widths, sp, seq![i as usize]) == w);
            lemma_pack_go_ok(widths, maxw, sp, i + 1, seq![i as usize], w, acc);
            assert(res == spec_pack_go(widths, maxw, sp, i + 1, seq![i as usize], w, acc));
        } else if used + sp + w > maxw {
            assert(spec_row_ok(widths, maxw, sp, cur));
            assert forall|r: int| 0 <= r < acc.push(cur).len() implies spec_row_ok(
                widths,
                maxw,
                sp,
                #[trigger] acc.push(cur)[r],
            ) by {
                if r < acc.len() {
                    assert(acc.push(cur)[r] == acc[r]);
                } else {
                    assert(acc.push(cur)[r] == cur);
                }
            };
            assert(spec_row_sum(widths, sp, seq![i as usize]) == w);
            lemma_pack_go_ok(widths, maxw, sp, i + 1, seq![i as usize], w, acc.push(cur));
            assert(res == spec_pack_go(widths, maxw, sp, i + 1, seq![i as usize], w, acc.push(cur)));
        } else {
            let cur2 = cur.push(i as usize);
            assert(cur2.drop_last() =~= cur);
            assert(cur2.last() == i as usize);
            assert(spec_row_sum(widths, sp, cur2) == used + sp + w);
            lemma_pack_go_ok(widths, maxw, sp, i + 1, cur2, used + sp + w, acc);
            assert(res == spec_pack_go(widths, maxw, sp, i + 1, cur2, used + sp + w, acc));
        }
    }
}

/// Every row the packer produces is well-formed: non-empty, indices
/// in range, and within the width limit unless it holds one block
/// that alone exceeds it.
pub proof fn lemma_pack_rows_ok(widths: Seq<int>, maxw: int, sp: int)
    requires
        widths.len() <= usize::MAX,
        sp >= 0,
        forall|k: int| 0 <= k < widths.len() ==> widths[k] >= 0,
    ensures
        forall|r: int|
            0 <= r < spec_pack(widths, maxw, sp).len() ==> spec_row_ok(
                widths,
                maxw,
                sp,
                #[trigger] spec_pack(widths, maxw, sp)[r],
            ),
{
    lemma_pack_go_ok(widths, maxw, sp, 0, Seq::empty(), 0, Seq::empty());
}

/// The packed rows of block indices for the given block widths.
fn pack_rows(widths: &Vec<usize>, max_width: usize, spacing: usize) -> (r: Vec<Vec<usize>>)
    ensures
        r.deep_view() == spec_pack(widths@.map_values(|w: usize| w as int), max_width as int, spacing as int),
{
    let ghost sw = widths@.map_values(|w: usize| w as int);
    let mut rows: Vec<Vec<usize>> = Vec::new();
    let mut cur: Vec<usize> = Vec::new();
    let mut used: usize = 0;
    proof {
        assert(rows.deep_view() =~~= Seq::<Seq<usize>>::empty());
        assert(cur@ =~= Seq::<usize>::empty());
    }
    let mut i: usize = 0;
    while i < widths.len()
        invariant
            i <= widths@.len(),
            sw == widths@.map_values(|w: usize| w as int),
            sw.len() == widths@.len(),
            cur@.len() > 0 ==> used as int == spec_row_sum(sw, spacing as int, cur@),
            spec_pack_go(sw, max_width as int, spacing as int, i as int, cur@, used as int, rows.deep_view())
                == spec_pack(sw, max_width as int, spacing as int),
        decreases widths@.len() - i,
    {
        let w = widths[i];
        let ghost old_rows = rows.deep_view();
        let ghost old_cur = cur@;
        if cur.len() == 0 {
            cur.push(i);
            used = w;
            proof {
                assert(cur@ =~= seq![i as usize]);
            }
        } else {
            // whether used + spacing + w > max_width, tested without overflow
            let over = used > max_width || spacing > max_width - used || w > max_width - used
                - spacing;
            if over {
                rows.push(cur);
                cur = Vec::new();
                cur.push(i);
                used = w;
                proof {
                    assert(rows.deep_view() =~~= old_rows.push(old_cur));
                    assert(cur@ =~= seq![i as usize]);
                }
            } else {
                cur.push(i);
                used = used + spacing + w;
                proof {
                    assert(cur@ =~= old_cur.push(i as usize));
                    assert(cur@.drop_last() =~= old_cur);
                    assert(spec_row_sum(sw, spacing as int, cur@) == used as int);
                }
            }
        }
        i = i + 1;
    }
    if cur.len() > 0 {
        let ghost old_rows = rows.deep_view();
        let ghost old_cur = cur@;
        rows.push(cur);
        proof {
            assert(rows.deep_view() =~~= old_rows.push(old_cur));
        }
    }
    rows
}

/// Layout determinism: two runs of the grid layout over the same
/// diagrams, width limit and spacing yield identical output.
pub proof fn lemma_grid_deterministic(
    diagrams: Seq<Seq<char>>,
    maxw: int,
    sp: int,
    r1: Seq<Seq<char>>,
    r2: Seq<Seq<char>>,
)
    requires
        r1 == spec_grid(diagrams, maxw, sp),
        r2 == spec_grid(diagrams, maxw, sp),
    ensures
        r1 == r2,
{
}

/// `a - b`, floored at zero.
pub open spec fn spec_sat_sub(a: int, b: int) -> nat {
    if a > b {
        (a - b) as nat
    } else {
        0
    }
}

/// One cell of an output line: the block's line at this index (empty
/// when the block is shorter), right-padded with spaces to the
/// block's width.
pub open spec fn spec_cell_text(
    blocks: Seq<Seq<Seq<char>>>,
    widths: Seq<int>,
    bi: int,
    li: int,
) -> Seq<char> {
    let block = blocks[bi];
    let cell = if 0 <= li < block.len() {
        block[li]
    } else {
        Seq::<char>::empty()
    };
    cell + spec_repeat(' ', spec_sat_sub(widths[bi], display_width(cell) as int))
}

/// One output line of a row: the padded cells of its blocks, with
/// `sp` blank columns between adjacent blocks.
pub open spec fn spec_row_line(
    blocks: Seq<Seq<Seq<char>>>,
    widths: Seq<int>,
    sp: int,
    row: Seq<usize>,
    li: int,
) -> Seq<char>
    decreases row.len(),
{
    if row.len() == 0 {
        Seq::empty()
    } else if row.len() == 1 {
        spec_cell_text(blocks, widths, row[0] as int, li)
    } else {
        spec_row_line(blocks, widths, sp, row.drop_last(), li) + spec_repeat(' ', sp as nat)
            + spec_cell_text(blocks, widths, row.last() as int, li)
    }
}

/// The height of a row: the greatest line count among its blocks.
pub open spec fn spec_row_height(blocks: Seq<Seq<Seq<char>>>, row: Seq<usize>) -> nat
    decreases row.len(),
{
    if row.len() == 0 {
        0
    } else {
        let rest = spec_row_height(blocks, row.drop_last());
        let h = blocks[row.last() as int].len();
        if h > rest {
            h
        } else {
            rest
        }
    }
}

/// The first `h` output lines of a row, in order.
pub open spec fn spec_row_lines(
    blocks: Seq<Seq<Seq<char>>>,
    widths: Seq<int>,
    sp: int,
    row: Seq<usize>,
    h: int,
) -> Seq<Seq<char>>
    decreases h,
{
    if h <= 0 {
        Seq::empty()
    } else {
        spec_row_lines(blocks, widths, sp, row, h - 1).push(
            spec_row_line(blocks, widths, sp, row, h - 1),
        )
    }
}

/// The output lines of all rows in order, each row followed by one
/// blank separator line.
pub open spec fn spec_rows_out(
    blocks: Seq<Seq<Seq<char>>>,
    widths: Seq<int>,
    sp: int,
    rows: Seq<Seq<usize>>,
) -> Seq<Seq<char>>
    decreases rows.len(),
{
    if rows.len() == 0 {
        Seq::empty()
    } else {
        spec_rows_out(blocks, widths, sp, rows.drop_last()) + spec_row_lines(
            blocks,
            widths,
            sp,
            rows.last(),
            spec_row_height(blocks, rows.last()) as int,
        ) + seq![Seq::<char>::empty()]
    }
}

/// The blocks of the input diagrams: each split into its lines.
pub open spec fn spec_blocks(diagrams: Seq<Seq<char>>) -> Seq<Seq<Seq<char>>> {
    Seq::new(diagrams.len(), |i: int| spec_lines(diagrams[i]))
}

/// The display widths of the blocks.
pub open spec fn spec_block_widths(blocks: Seq<Seq<Seq<char>>>) -> Seq<int> {
    Seq::new(blocks.len(), |i: int| spec_block_width(blocks[i]) as int)
}

/// What the grid layout yields for the given diagrams, width limit
/// and spacing: the diagrams split into line blocks, packed greedily
/// into rows in input order, and emitted row by row with aligned,
/// space-padded columns and a blank line after each row.
pub open spec fn spec_grid(diagrams: Seq<Seq<char>>, maxw: int, sp: int) -> Seq<Seq<char>> {
    let blocks = spec_blocks(diagrams);
    let widths = spec_block_widths(blocks);
    spec_rows_out(blocks, widths, sp, spec_pack(widths, maxw, sp))
}

/// Arranges rendered diagram blocks into rows that wrap at
/// `max_width`, spacing them by `spacing` blank columns, padding each
/// cell to its block's display width, with a blank line after each
/// row. Blocks appear left to right, top to bottom, in input order;
/// the first block of a row is never rejected, so a row can hold one
/// block wider than `max_width`.
#[verifier::loop_isolation(false)]
pub fn combine_diagrams_grid(diagrams: &Vec<String>, max_width: usize, spacing: usize) -> (r: Vec<
    String,
>)
    requires
        max_width >= 1,
    ensures
        r.deep_view() == spec_grid(diagrams.deep_view(), max_width as int, spacing as int),
{
    let ghost ddv = diagrams.deep_view();
    let ghost sblocks = spec_blocks(ddv);
    let ghost swidths = spec_block_widths(sblocks);

    let mut blocks: Vec<Vec<String>> = Vec::new();
    let mut widths: Vec<usize> = Vec::new();
    let mut i: usize = 0;
    while i < diagrams.len()
        invariant
            i <= diagrams@.len(),
            blocks@.len() == i,
            widths@.len() == i,
            forall|k: int| 0 <= k < i ==> #[trigger] blocks@[k].deep_view() == sblocks[k],
            forall|k: int| 0 <= k < i ==> #[trigger] widths@[k] as int == swidths[k],
        decreases diagrams@.len() - i,
    {
        proof {
            assert(ddv[i as int] =~= diagrams@[i as int]@);
        }
        let b = lines_of(diagrams[i].as_str());
        let w = block_width(&b);
        blocks.push(b);
        widths.push(w);
        i = i + 1;
    }

    let rows = pack_rows(&widths, max_width, spacing);
    let ghost rdv = rows.deep_view();
    proof {
        assert(widths@.map_values(|w: usize| w as int) =~= swidths);
        assert(rdv == spec_pack(swidths, max_width as int, spacing as int));
        lemma_pack_rows_ok(swidths, max_width as int, spacing as int);
        assert(forall|k: int| 0 <= k < rows@.len() ==> rdv[k] =~= #[trigger] rows@[k]@);
    }

    let empty_line = String::new();
    let mut out: Vec<String> = Vec::new();
    let mut ri: usize = 0;
    while ri < rows.len()
        invariant
            ri <= rows@.len(),
            out.deep_view() == spec_rows_out(
                sblocks,
                swidths,
                spacing as int,
                rdv.subrange(0, ri as int),
            ),
        decreases rows@.len() - ri,
    {
        let ghost row_seq = rdv[ri as int];
        proof {
            assert(spec_row_ok(swidths, max_width as int, spacing as int, row_seq));
            assert(rdv.subrange(0, ri + 1).drop_last() =~= rdv.subrange(0, ri as int));
            assert(rdv.subrange(0, ri + 1).last() == row_seq);
        }
        let ghost out_before_row = out.deep_view();

        // row height: the tallest block in the row
        let mut rh: usize = 0;
        let mut j: usize = 0;
        while j < rows[ri].len()
            invariant
                j <= row_seq.len(),
                rh == spec_row_height(sblocks, row_seq.subrange(0, j as int)),
            decreases row_seq.len() - j,
        {
            proof {
                assert(row_seq.subrange(0, j + 1).drop_last() =~= row_seq.subrange(0, j as int));
                assert(row_seq.subrange(0, j + 1).last() == row_seq[j as int]);
            }
            let bi = rows[ri][j];
            proof {
                assert(bi == row_seq[j as int]);
                assert((bi as int) < sblocks.len());
                assert(blocks@[bi as int].deep_view() == sblocks[bi as int]);
                assert(sblocks[bi as int].len() == blocks@[bi as int]@.len());
            }
            let h = blocks[bi].len();
            if h > rh {
                rh = h;
            }
            j = j + 1;
        }
        proof {
            assert(row_seq.subrange(0, row_seq.len() as int) =~= row_seq);
        }

        let mut li: usize = 0;
        while li < rh
            invariant
                li <= rh,
                out.deep_view() == out_before_row + spec_row_lines(
                    sblocks,
                    swidths,
                    spacing as int,
                    row_seq,
                    li as int,
                ),
            decreases rh - li,
        {
            let mut line: Vec<char> = Vec::new();
            let mut j: usize = 0;
            while j < rows[ri].len()
                invariant
                    j <= row_seq.len(),
                    line@ == spec_row_line(
                        sblocks,
                        swidths,
                        spacing as int,
                        row_seq.subrange(0, j as int),
                        li as int,
                    ),
                decreases row_seq.len() - j,
            {
                let ghost line_before = line@;
                proof {
                    assert(row_seq.subrange(0, j + 1).drop_last() =~= row_seq.subrange(
                        0,
                        j as int,
                    ));
                    assert(row_seq.subrange(0, j + 1).last() == row_seq[j as int]);
                }
                if j > 0 {
                    crate::text::push_repeat(&mut line, ' ', spacing);
                }
                let bi = rows[ri][j];
                proof {
                    assert(bi == row_seq[j as int]);
                    assert((bi as int) < sblocks.len());
                    assert(blocks@[bi as int].deep_view() == sblocks[bi as int]);
                    assert(sblocks[bi as int].len() == blocks@[bi as int]@.len());
                }
                let cell: &String = if li < blocks[bi].len() {
                    &blocks[bi][li]
                } else {
                    &empty_line
                };
                proof {
                    if li < blocks@[bi as int]@.len() {
                        assert(cell@ =~= sblocks[bi as int][li as int]);
                    } else {
                        assert(cell@ =~= Seq::<char>::empty());
                    }
                }
                let disp = str_width(cell.as_str());
                let wbi = widths[bi];
                let pad: usize = if disp < wbi {
                    wbi - disp
                } else {
                    0
                };
                let mut cell_chars = str_chars(cell.as_str());
                line.append(&mut cell_chars);
                crate::text::push_repeat(&mut line, ' ', pad);
                j = j + 1;
                proof {
                    assert(line@ =~= spec_row_line(
                        sblocks,
                        swidths,
                        spacing as int,
                        row_seq.subrange(0, j as int),
                        li as int,
                    ));
                }
            }
            proof {
                assert(row_seq.subrange(0, row_seq.len() as int) =~= row_seq);
            }
            let ghost out_dv = out.deep_view();
            out.push(chars_to_string(&line));
            li = li + 1;
            proof {
                assert(out.deep_view() =~~= out_dv.push(line@));
            }
        }

        let ghost out_dv = out.deep_view();
        out.push(empty_line.clone());
        ri = ri + 1;
        proof {
            assert(empty_line@ =~= Seq::<char>::empty());
            assert(out.deep_view() =~~= out_dv.push(Seq::<char>::empty()));
            assert(out.deep_view() =~~= spec_rows_out(
                sblocks,
                swidths,
                spacing as int,
                rdv.subrange(0, ri as int),
            ));
        }
    }
    proof {
        assert(rdv.subrange(0, ri as int) =~= rdv);
        assert(out.deep_view() =~~= spec_grid(ddv, max_width as int, spacing as int));
    }
    out
}

} // verus!
