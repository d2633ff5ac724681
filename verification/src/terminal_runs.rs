//! The paint snapshot of a terminal row: its cells, read left to right,
//! merged into runs of one style that the renderer draws in one go.

use vstd::prelude::*;
use vstd::string::*;

verus! {

/// One cell of a terminal row as the renderer reads it: its text, its
/// width in columns as the terminal counts it, its colours as `0xRRGGBB`
/// when set, and its style.
#[derive(Clone, Debug, PartialEq, Eq)]
pub struct CellView {
    pub text: String,
    pub width: u16,
    pub fg: Option<u32>,
    pub bg: Option<u32>,
    pub bold: bool,
    pub italic: bool,
    pub underline: bool,
    pub inverse: bool,
}

/// How a run is painted: its foreground, its background when it has one,
/// and its style.
#[derive(Clone, Copy, Debug, PartialEq, Eq, Structural)]
pub struct RunStyle {
    pub fg: u32,
    pub bg: Option<u32>,
    pub bold: bool,
    pub italic: bool,
    pub underline: bool,
}

/// A run of cells painted alike: their text, the column it starts at, the
/// columns it spans, and its style.
#[derive(Clone, Debug, PartialEq, Eq)]
pub struct RunView {
    pub text: String,
    pub col_start: u16,
    pub cols: u16,
    pub style: RunStyle,
}

impl View for RunView {
    type V = (Seq<char>, int, int, RunStyle);

    open spec fn view(&self) -> (Seq<char>, int, int, RunStyle) {
        (self.text@, self.col_start as int, self.cols as int, self.style)
    }
}

/// The columns a cell spans: its width, at least one.
pub open spec fn cell_width(c: CellView) -> int {
    if c.width == 0 {
        1
    } else {
        c.width as int
    }
}

/// How a cell is painted with the terminal's colours `fg` and `bg`: an
/// inverse cell swaps its colours, falling back to the terminal's swapped
/// ones, and always paints its background.
pub open spec fn cell_style(c: CellView, fg: u32, bg: u32) -> RunStyle {
    RunStyle {
        fg: if c.inverse {
            match c.bg {
                Some(x) => x,
                None => bg,
            }
        } else {
            match c.fg {
                Some(x) => x,
                None => fg,
            }
        },
        bg: if c.inverse {
            Some(
                match c.fg {
                    Some(x) => x,
                    None => fg,
                },
            )
        } else {
            c.bg
        },
        bold: c.bold,
        italic: c.italic,
        underline: c.underline,
    }
}

/// The columns the cells span together.
pub open spec fn cells_width(cells: Seq<CellView>) -> int
    decreases cells.len(),
{
    if cells.len() == 0 {
        0
    } else {
        cells_width(cells.drop_last()) + cell_width(cells.last())
    }
}

/// The runs of a row: each cell, in turn, joins the last run when it is
/// painted alike and starts where that run ends, else it opens a run.
pub open spec fn runs_of(cells: Seq<CellView>, fg: u32, bg: u32) -> Seq<(Seq<char>, int, int, RunStyle)>
    decreases cells.len(),
{
    if cells.len() == 0 {
        seq![]
    } else {
        let prev = runs_of(cells.drop_last(), fg, bg);
        let c = cells.last();
        let col = cells_width(cells.drop_last());
        let st = cell_style(c, fg, bg);
        if prev.len() > 0 && prev.last().3 == st && prev.last().1 + prev.last().2 == col {
            prev.update(
                prev.len() - 1,
                (prev.last().0 + c.text@, prev.last().1, prev.last().2 + cell_width(c), st),
            )
        } else {
            prev.push((c.text@, col, cell_width(c), st))
        }
    }
}

/// The first cells span no more columns than all of them.
proof fn lemma_width_prefix(cells: Seq<CellView>, i: int)
    requires
        0 <= i <= cells.len(),
    ensures
        0 <= cells_width(cells.take(i)) <= cells_width(cells),
        i < cells.len() ==> cells_width(cells.take(i)) + cell_width(cells[i]) <= cells_width(cells),
    decreases cells.len() - i,
{
    if i < cells.len() {
        lemma_width_prefix(cells, i + 1);
        let t = cells.take(i + 1);
        assert(t.drop_last() == cells.take(i));
        assert(t.last() == cells[i]);
        lemma_width_nonneg(cells.take(i));
    } else {
        assert(cells.take(i) == cells);
        lemma_width_nonneg(cells);
    }
}

proof fn lemma_width_nonneg(cells: Seq<CellView>)
    ensures
        cells_width(cells) >= 0,
    decreases cells.len(),
{
    if cells.len() > 0 {
        lemma_width_nonneg(cells.drop_last());
    }
}

/// Every run ends at or before the columns the cells span.
proof fn lemma_runs_end(cells: Seq<CellView>, fg: u32, bg: u32)
    ensures
        forall|k: int|
            0 <= k < runs_of(cells, fg, bg).len() ==> 0 <= #[trigger] runs_of(cells, fg, bg)[k].1 && 0
                <= runs_of(cells, fg, bg)[k].2 && runs_of(cells, fg, bg)[k].1 + runs_of(cells, fg, bg)[k].2
                <= cells_width(cells),
    decreases cells.len(),
{
    if cells.len() > 0 {
        let d = cells.drop_last();
        lemma_runs_end(d, fg, bg);
        lemma_width_nonneg(d);
        let prev = runs_of(d, fg, bg);
        let r = runs_of(cells, fg, bg);
        let c = cells.last();
        let col = cells_width(d);
        let st = cell_style(c, fg, bg);
        assert(cells_width(cells) == col + cell_width(c));
        if prev.len() > 0 && prev.last().3 == st && prev.last().1 + prev.last().2 == col {
            assert(r == prev.update(
                prev.len() - 1,
                (prev.last().0 + c.text@, prev.last().1, prev.last().2 + cell_width(c), st),
            ));
            assert forall|k: int| 0 <= k < r.len() implies 0 <= #[trigger] r[k].1 && 0 <= r[k].2 && r[k].1 + r[k].2
                <= cells_width(cells) by {
                if k < prev.len() - 1 {
                    assert(r[k] == prev[k]);
                }
            }
        } else {
            assert(r == prev.push((c.text@, col, cell_width(c), st)));
            assert forall|k: int| 0 <= k < r.len() implies 0 <= #[trigger] r[k].1 && 0 <= r[k].2 && r[k].1 + r[k].2
                <= cells_width(cells) by {
                if k < prev.len() {
                    assert(r[k] == prev[k]);
                }
            }
        }
    }
}

/// How a cell is painted.
fn style_of(c: &CellView, fg: u32, bg: u32) -> (r: RunStyle)
    ensures
        r == cell_style(*c, fg, bg),
{
    let own_fg = match c.fg {
        Some(x) => x,
        None => fg,
    };
    if c.inverse {
        let f = match c.bg {
            Some(x) => x,
            None => bg,
        };
        RunStyle { fg: f, bg: Some(own_fg), bold: c.bold, italic: c.italic, underline: c.underline }
    } else {
        RunStyle { fg: own_fg, bg: c.bg, bold: c.bold, italic: c.italic, underline: c.underline }
    }
}

/// Merge a row's cells into runs painted alike (see `runs_of`), with the
/// terminal's colours `fg` and `bg`. The row's columns fit a `u16`.
pub fn coalesce_cells(cells: &Vec<CellView>, fg: u32, bg: u32) -> (r: Vec<RunView>)
    requires
        cells_width(cells@) <= u16::MAX,
    ensures
        r@.map_values(|v: RunView| v@) == runs_of(cells@, fg, bg),
{
    let mut runs: Vec<RunView> = Vec::new();
    let mut col: u16 = 0;
    let n = cells.len();
    let mut i: usize = 0;
    assert(cells@.take(0) == Seq::<CellView>::empty());
    while i < n
        invariant
            n == cells@.len(),
            i <= n,
            cells_width(cells@) <= u16::MAX,
            col as int == cells_width(cells@.take(i as int)),
            runs@.map_values(|v: RunView| v@) == runs_of(cells@.take(i as int), fg, bg),
        decreases n - i,
    {
        let c = &cells[i];
        proof {
            lemma_width_prefix(cells@, i as int);
            lemma_runs_end(cells@.take(i as int), fg, bg);
        }
        let w: u16 = if c.width == 0 {
            1
        } else {
            c.width
        };
        let st = style_of(c, fg, bg);
        let ghost prev = runs@.map_values(|v: RunView| v@);
        let ghost t = cells@.take(i as int + 1);
        proof {
            assert(t.drop_last() == cells@.take(i as int));
            assert(t.last() == cells@[i as int]);
        }
        let k = runs.len();
        let mut merged = false;
        if k > 0 {
            let joins = runs[k - 1].style == st && runs[k - 1].col_start as u32 + runs[k - 1].cols as u32 == col as u32;
            if joins {
                assert(prev[k - 1] == runs@[k - 1]@);
                let mut last = runs.pop().unwrap();
                last.text.append(c.text.as_str());
                last.cols = last.cols + w;
                runs.push(last);
                merged = true;
                proof {
                    assert(runs@.map_values(|v: RunView| v@) =~= prev.update(
                        prev.len() - 1,
                        (prev.last().0 + c.text@, prev.last().1, prev.last().2 + cell_width(*c), st),
                    ));
                }
            } else {
                assert(prev[k - 1] == runs@[k - 1]@);
            }
        }
        if !merged {
            let text = c.text.clone();
            runs.push(RunView { text, col_start: col, cols: w, style: st });
            proof {
                assert(runs@.map_values(|v: RunView| v@) =~= prev.push((c.text@, col as int, cell_width(*c), st)));
            }
        }
        col = col + w;
        i = i + 1;
    }
    assert(cells@.take(n as int) == cells@);
    runs
}


/// Whether a run spans column `col`.
pub open spec fn covers(r: (Seq<char>, int, int, RunStyle), col: int) -> bool {
    r.1 <= col < r.1 + r.2
}

/// The column cell `i` of a row starts at.
pub open spec fn cell_col(cells: Seq<CellView>, i: int) -> int {
    cells_width(cells.take(i))
}

/// Whether a run style paints cell `c` as it asks, with the terminal's
/// colours `fg` and `bg`: the cell's bold, italic and underline; its own
/// foreground or else the terminal's, and its own background if any; an
/// inverse cell the other way round, with a background always.
pub open spec fn paints(st: RunStyle, c: CellView, fg: u32, bg: u32) -> bool {
    let own_fg = match c.fg {
        Some(x) => x,
        None => fg,
    };
    let own_bg = match c.bg {
        Some(x) => x,
        None => bg,
    };
    &&& st.bold == c.bold
    &&& st.italic == c.italic
    &&& st.underline == c.underline
    &&& (!c.inverse ==> st.fg == own_fg && st.bg == c.bg)
    &&& (c.inverse ==> st.fg == own_bg && st.bg == Some(own_fg))
}

/// The runs of a row tile its columns from zero, one after another, each
/// at least one column wide, two neighbours never painted alike.
#[verifier::spinoff_prover]
#[verifier::rlimit(100)]
pub proof fn lemma_runs_tile(cells: Seq<CellView>, fg: u32, bg: u32)
    ensures
        ({
            let runs = runs_of(cells, fg, bg);
            &&& (runs.len() == 0 <==> cells.len() == 0)
            &&& cells.len() > 0 ==> runs[0].1 == 0 && runs.last().1 + runs.last().2 == cells_width(cells)
            &&& forall|k: int| 0 <= k < runs.len() ==> #[trigger] runs[k].2 >= 1
            &&& forall|k: int|
                #![trigger runs[k]]
                0 <= k < runs.len() - 1 ==> runs[k + 1].1 == runs[k].1 + runs[k].2 && runs[k + 1].3 != runs[k].3
        }),
    decreases cells.len(),
{
    let runs = runs_of(cells, fg, bg);
    if cells.len() > 0 {
        let d = cells.drop_last();
        lemma_runs_tile(d, fg, bg);
        lemma_width_nonneg(d);
        let prev = runs_of(d, fg, bg);
        let c = cells.last();
        let col = cells_width(d);
        let w = cell_width(c);
        let st = cell_style(c, fg, bg);
        let l = prev.len() as int;
        if l > 0 && prev.last().3 == st && prev.last().1 + prev.last().2 == col {
            assert(runs == prev.update(l - 1, (prev.last().0 + c.text@, prev.last().1, prev.last().2 + w, st)));
            assert forall|k: int| #![trigger runs[k]] 0 <= k < runs.len() - 1 implies runs[k + 1].1 == runs[k].1
                + runs[k].2 && runs[k + 1].3 != runs[k].3 by {
                assert(runs[k] == prev[k]);
                if k + 1 < l - 1 {
                    assert(runs[k + 1] == prev[k + 1]);
                }
                assert(prev[k + 1].3 != prev[k].3);
            }
        } else {
            assert(runs == prev.push((c.text@, col, w, st)));
            if l == 0 {
                assert(d.len() == 0);
            }
            assert forall|k: int| #![trigger runs[k]] 0 <= k < runs.len() - 1 implies runs[k + 1].1 == runs[k].1
                + runs[k].2 && runs[k + 1].3 != runs[k].3 by {
                assert(runs[k] == prev[k]);
                if k + 1 < l {
                    assert(runs[k + 1] == prev[k + 1]);
                    assert(prev[k + 1].3 != prev[k].3);
                }
            }
        }
    }
}

/// Every cell of a row lies within the row's columns, which the runs tile
/// (see `lemma_runs_tile`), and every run paints each cell it spans as
/// that cell asks.
#[verifier::spinoff_prover]
#[verifier::rlimit(100)]
pub proof fn lemma_runs_paint_cells(cells: Seq<CellView>, fg: u32, bg: u32)
    ensures
        ({
            let runs = runs_of(cells, fg, bg);
            &&& forall|i: int|
                0 <= i < cells.len() ==> 0 <= #[trigger] cell_col(cells, i) && cell_col(cells, i) + cell_width(cells[i])
                    <= cells_width(cells)
            &&& forall|k: int, i: int|
                0 <= k < runs.len() && 0 <= i < cells.len() && #[trigger] covers(runs[k], cell_col(cells, i)) ==> paints(
                    runs[k].3,
                    cells[i],
                    fg,
                    bg,
                )
        }),
    decreases cells.len(),
{
    let runs = runs_of(cells, fg, bg);
    if cells.len() > 0 {
        let n = cells.len() as int;
        let d = cells.drop_last();
        lemma_runs_paint_cells(d, fg, bg);
        lemma_runs_tile(d, fg, bg);
        lemma_runs_end(d, fg, bg);
        lemma_width_nonneg(d);
        let prev = runs_of(d, fg, bg);
        let c = cells.last();
        let col = cells_width(d);
        let w = cell_width(c);
        let st = cell_style(c, fg, bg);
        let l = prev.len() as int;
        assert(paints(st, c, fg, bg));
        lemma_width_prefix(cells, n - 1);
        assert forall|i: int| 0 <= i < cells.len() implies 0 <= #[trigger] cell_col(cells, i) && cell_col(cells, i)
            + cell_width(cells[i]) <= cells_width(cells) by {
            lemma_width_prefix(cells, i);
        }
        assert(cells.take(n - 1) == d);
        assert(cell_col(cells, n - 1) == col);
        assert forall|i: int| 0 <= i < n - 1 implies cell_col(cells, i) == cell_col(d, i) && cells[i] == d[i]
            && #[trigger] cell_col(cells, i) + cell_width(cells[i]) <= col by {
            assert(cells.take(i) == d.take(i));
            lemma_width_prefix(d, i);
        }
        if l > 0 && prev.last().3 == st && prev.last().1 + prev.last().2 == col {
            assert(runs == prev.update(l - 1, (prev.last().0 + c.text@, prev.last().1, prev.last().2 + w, st)));
            assert forall|k: int, i: int|
                0 <= k < runs.len() && 0 <= i < cells.len() && #[trigger] covers(runs[k], cell_col(cells, i)) implies paints(
                runs[k].3,
                cells[i],
                fg,
                bg,
            ) by {
                if i < n - 1 {
                    assert(cell_col(cells, i) + cell_width(cells[i]) <= col);
                    if k < l - 1 {
                        assert(runs[k] == prev[k]);
                        assert(covers(prev[k], cell_col(d, i)));
                    } else {
                        assert(covers(prev[l - 1], cell_col(d, i)));
                    }
                } else {
                    if k < l - 1 {
                        assert(runs[k] == prev[k]);
                        assert(prev[k].1 + prev[k].2 <= col);
                    }
                }
            }
        } else {
            assert(runs == prev.push((c.text@, col, w, st)));
            assert forall|k: int, i: int|
                0 <= k < runs.len() && 0 <= i < cells.len() && #[trigger] covers(runs[k], cell_col(cells, i)) implies paints(
                runs[k].3,
                cells[i],
                fg,
                bg,
            ) by {
                if i < n - 1 {
                    assert(cell_col(cells, i) + cell_width(cells[i]) <= col);
                    if k < l {
                        assert(runs[k] == prev[k]);
                        assert(covers(prev[k], cell_col(d, i)));
                    }
                } else {
                    if k < l {
                        assert(runs[k] == prev[k]);
                        assert(prev[k].1 + prev[k].2 <= col);
                    }
                }
            }
        }
    }
}


/// The text of runs, one after another.
pub open spec fn runs_text(runs: Seq<(Seq<char>, int, int, RunStyle)>) -> Seq<char>
    decreases runs.len(),
{
    if runs.len() == 0 {
        seq![]
    } else {
        runs_text(runs.drop_last()) + runs.last().0
    }
}

/// The text of cells, one after another.
pub open spec fn cells_text(cells: Seq<CellView>) -> Seq<char>
    decreases cells.len(),
{
    if cells.len() == 0 {
        seq![]
    } else {
        cells_text(cells.drop_last()) + cells.last().text@
    }
}

/// The runs of a row hold its cells' text, in order, all of it and
/// nothing else.
pub proof fn lemma_runs_text(cells: Seq<CellView>, fg: u32, bg: u32)
    ensures
        runs_text(runs_of(cells, fg, bg)) == cells_text(cells),
    decreases cells.len(),
{
    if cells.len() > 0 {
        let d = cells.drop_last();
        lemma_runs_text(d, fg, bg);
        let prev = runs_of(d, fg, bg);
        let runs = runs_of(cells, fg, bg);
        let c = cells.last();
        let col = cells_width(d);
        let st = cell_style(c, fg, bg);
        let l = prev.len() as int;
        if l > 0 && prev.last().3 == st && prev.last().1 + prev.last().2 == col {
            assert(runs.drop_last() =~= prev.drop_last());
            assert(runs.last().0 == prev.last().0 + c.text@);
            assert(runs_text(prev) == runs_text(prev.drop_last()) + prev.last().0);
            assert(runs_text(runs) =~= runs_text(prev) + c.text@);
        } else {
            assert(runs.drop_last() =~= prev);
        }
    }
}

} // verus!
