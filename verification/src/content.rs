//! The card: its sections and their pages, what a point on it means, and what
//! its labels say.
//!
//! Pixels stay outside. A point comes in as the cell it falls into, and a cell
//! goes out as its page, row and column.
use vstd::arithmetic::div_mod::{lemma_fundamental_div_mod, lemma_fundamental_div_mod_converse};
use vstd::prelude::*;
use crate::text;

verus! {

pub const SECTION_APPS: usize = 0;

pub const SECTION_INSTALL: usize = 1;

pub const SECTION_FILES: usize = 2;

pub const N_SECTIONS: usize = 3;

/// The most rows that the Apps section shows.
pub const APPS_ROWS: usize = 4;

/// An open box is a square of this many columns.
pub const OPEN_BOX_COLS: usize = 3;

/// What one page of an open box holds.
pub const OPEN_BOX_CAP: usize = 9;

/// What is under the pointer.
#[derive(Debug, Clone, Copy, PartialEq, Eq, Structural)]
pub enum Hit {
    /// A slot of the dock.
    DockIcon(usize),
    /// A section, and the place in its list.
    GridCell(usize, usize),
    SearchButton,
    /// A slot of the open box, row by row.
    OpenBoxCell(usize),
}

// ---------------------------------------------------------------------------
// Pages
// ---------------------------------------------------------------------------

/// The grid of one section: pages of `cols` by `rows` cells. The first `lead`
/// cells stay where they are while the others page beside them.
#[derive(Debug, Clone, Copy, PartialEq, Eq, Structural)]
pub struct SectionGrid {
    pub cols: usize,
    pub rows: usize,
    pub n_pages: usize,
    pub cells: usize,
    pub lead: usize,
}

/// How many cells beside the lead one page holds.
pub open spec fn strip_page(cols: int, rows: int, lead: int) -> int {
    if cols * rows - lead >= 1 {
        cols * rows - lead
    } else {
        1
    }
}

/// How many pages `n` cells take: as few as hold them all, at least one if
/// there are any.
pub open spec fn pages_for(n: int, cols: int, rows: int, lead: int) -> int {
    if n == 0 {
        0
    } else if n <= lead {
        1
    } else {
        (n - lead + strip_page(cols, rows, lead) - 1) / strip_page(cols, rows, lead)
    }
}

impl SectionGrid {
    /// A grid with at least one cell to a page, and whose cells can be counted.
    pub open spec fn wf(self) -> bool {
        &&& 0 < self.cols
        &&& 0 < self.rows
        &&& (self.n_pages + 1) * (self.cols * self.rows) + self.lead <= usize::MAX
    }
}

/// How many rows a section shows, where `fitting` rows fit: the Apps section
/// takes what there is, up to its design; the others are single rows.
pub fn section_rows(section: usize, fitting: usize) -> (r: usize)
    ensures
        r == (if section != SECTION_APPS {
            1
        } else if fitting < 1 {
            1
        } else if fitting > APPS_ROWS {
            APPS_ROWS
        } else {
            fitting
        }),
{
    if section != SECTION_APPS {
        1
    } else if fitting < 1 {
        1
    } else if fitting > APPS_ROWS {
        APPS_ROWS
    } else {
        fitting
    }
}

/// The lead of a section: the way up of a directory that was entered.
pub open spec fn lead_of(section: usize, navigated: bool) -> int {
    if navigated && section == SECTION_FILES {
        1
    } else {
        0
    }
}

proof fn lemma_pages_fit(m: int, d: int, cpp: int, q: int)
    requires
        0 < m,
        0 < d <= cpp,
        q == (m + d - 1) / d,
        d == 1 ==> cpp <= 2,
        cpp - d <= 1,
    ensures
        (q + 1) * cpp <= 2 * m + 2 * cpp,
{
    lemma_fundamental_div_mod(m + d - 1, d);
    assert(q * d <= m + d - 1) by (nonlinear_arith)
        requires
            m + d - 1 == d * q + (m + d - 1) % d,
            0 <= (m + d - 1) % d,
    ;
    assert(0 <= q) by (nonlinear_arith)
        requires
            q == (m + d - 1) / d,
            0 < d,
            0 < m,
    ;
    assert(q <= m) by (nonlinear_arith)
        requires
            q * d <= m + d - 1,
            0 < d,
            0 < m,
    ;
    assert((q + 1) * cpp == q * d + q * (cpp - d) + cpp) by (nonlinear_arith);
    assert(q * (cpp - d) <= q) by (nonlinear_arith)
        requires
            0 <= q,
            0 <= cpp - d <= 1,
    ;
}

/// The grid of a section with `n` cells.
pub fn section_grid(
    section: usize,
    cols: usize,
    rows: usize,
    n: usize,
    navigated: bool,
) -> (r: SectionGrid)
    requires
        0 < cols,
        0 < rows,
        2 * n + 2 * (cols * rows) + 1 <= usize::MAX,
    ensures
        r.wf(),
        r.cols == cols,
        r.rows == rows,
        r.cells == n,
        r.lead == lead_of(section, navigated),
        r.n_pages == pages_for(n as int, cols as int, rows as int, r.lead as int),
{
    assert(1 <= cols * rows) by (nonlinear_arith)
        requires
            0 < cols,
            0 < rows,
    ;
    let lead: usize = if navigated && section == SECTION_FILES {
        1
    } else {
        0
    };
    let cpp: usize = cols * rows;
    let d: usize = if cpp > lead {
        cpp - lead
    } else {
        1
    };
    let n_pages: usize = if n == 0 {
        0
    } else if n <= lead {
        1
    } else {
        (n - lead + d - 1) / d
    };
    proof {
        if n > lead {
            lemma_pages_fit(n - lead, d as int, cpp as int, n_pages as int);
        } else {
            assert((n_pages + 1) * cpp <= 2 * cpp) by (nonlinear_arith)
                requires
                    n_pages <= 1,
                    0 <= cpp,
            ;
        }
    }
    SectionGrid { cols, rows, n_pages, cells: n, lead }
}

/// The page that shows cell `i`.
pub open spec fn page_of(g: SectionGrid, i: int) -> int {
    if i < g.lead {
        0
    } else {
        (i - g.lead) / strip_page(g.cols as int, g.rows as int, g.lead as int)
    }
}

/// The page to turn to so that `cell` shows; the last one for cells beyond it.
pub fn scroll_to_reveal(g: &SectionGrid, cell: usize) -> (r: usize)
    requires
        g.wf(),
    ensures
        r == (if g.n_pages == 0 {
            0
        } else if page_of(*g, cell as int) < g.n_pages {
            page_of(*g, cell as int)
        } else {
            g.n_pages - 1
        }),
{
    proof {
        lemma_page_size(*g);
    }
    let cpp: usize = g.cols * g.rows;
    let d: usize = if cpp > g.lead {
        cpp - g.lead
    } else {
        1
    };
    let page: usize = if cell < g.lead {
        0
    } else {
        (cell - g.lead) / d
    };
    if g.n_pages == 0 {
        0
    } else if page < g.n_pages {
        page
    } else {
        g.n_pages - 1
    }
}

proof fn lemma_page_size(g: SectionGrid)
    requires
        g.wf(),
    ensures
        0 < g.cols * g.rows <= usize::MAX,
        g.cols <= g.cols * g.rows,
        forall|p: int| 0 <= p <= g.n_pages ==> (#[trigger] (p * (g.cols * g.rows)) + (g.cols
            * g.rows) + g.lead <= usize::MAX),
{
    let cpp = g.cols * g.rows;
    assert(0 < cpp && g.cols <= cpp) by (nonlinear_arith)
        requires
            0 < g.cols,
            0 < g.rows,
            cpp == g.cols * g.rows,
    ;
    assert((g.n_pages + 1) * cpp == g.n_pages * cpp + cpp) by (nonlinear_arith);
    assert(0 <= g.n_pages * cpp) by (nonlinear_arith)
        requires
            0 <= cpp,
    ;
    assert forall|p: int| 0 <= p <= g.n_pages implies (#[trigger] (p * (g.cols * g.rows)) + (
    g.cols * g.rows) + g.lead <= usize::MAX) by {
        assert(p * cpp <= g.n_pages * cpp) by (nonlinear_arith)
            requires
                0 <= p <= g.n_pages,
                0 < cpp,
        ;
    }
}

/// Where a cell is drawn: its page, row and column.
pub open spec fn place_of(g: SectionGrid, i: int) -> (int, int, int) {
    if i < g.lead {
        (0, 0, i)
    } else {
        let d = strip_page(g.cols as int, g.rows as int, g.lead as int);
        let strip_cols = if g.cols - g.lead >= 1 {
            g.cols - g.lead
        } else {
            1
        };
        let within = (i - g.lead) % d;
        ((i - g.lead) / d, within / strip_cols, g.lead + within % strip_cols)
    }
}

/// Where a cell is drawn: its page, row and column. A lead cell ignores the
/// page.
pub fn cell_place(g: &SectionGrid, i: usize) -> (r: (usize, usize, usize))
    requires
        g.wf(),
    ensures
        (r.0 as int, r.1 as int, r.2 as int) == place_of(*g, i as int),
{
    proof {
        lemma_page_size(*g);
    }
    if i < g.lead {
        return (0, 0, i);
    }
    let cpp: usize = g.cols * g.rows;
    let d: usize = if cpp > g.lead {
        cpp - g.lead
    } else {
        1
    };
    let strip_cols: usize = if g.cols > g.lead {
        g.cols - g.lead
    } else {
        1
    };
    let j: usize = i - g.lead;
    assert(0 <= j % d < d) by (nonlinear_arith)
        requires
            0 < d,
    ;
    assert(0 <= (j % d) % strip_cols < strip_cols) by (nonlinear_arith)
        requires
            0 < strip_cols,
    ;
    proof {
        assert(0 * (g.cols * g.rows) == 0) by (nonlinear_arith);
    }
    (j / d, (j % d) / strip_cols, g.lead + (j % d) % strip_cols)
}

// ---------------------------------------------------------------------------
// What is under the pointer
// ---------------------------------------------------------------------------

/// A point in a section: its column on the strip of all pages, its row, and its
/// column on the screen.
#[derive(Debug, Clone, Copy, PartialEq, Eq, Structural)]
pub struct CellPoint {
    pub strip_col: usize,
    pub row: usize,
    pub screen_col: usize,
}

/// What a section says of a point in it.
#[derive(Debug, Clone, Copy, PartialEq, Eq, Structural)]
pub enum SectionHit {
    /// Nothing is there; another section may have something.
    Miss,
    /// Nothing is there, and no other section is asked.
    Blank,
    /// The cell at this place of the grid.
    Cell(usize),
}

/// The number of the cell in `row` and `col` of `page`.
pub open spec fn cell_number(g: SectionGrid, page: int, row: int, col: int) -> int {
    if g.lead > 0 {
        g.lead + page * strip_page(g.cols as int, g.rows as int, g.lead as int) + (row * g.cols
            + col - g.lead)
    } else {
        page * (g.cols * g.rows) + row * g.cols + col
    }
}

/// The cell at a point. The strip goes on with its first page behind its last.
/// The lead stands over the first columns of every page.
pub open spec fn cell_at(g: SectionGrid, p: CellPoint) -> SectionHit {
    let page = (p.strip_col as int / g.cols as int) % (g.n_pages as int);
    let col = p.strip_col as int % g.cols as int;
    if g.n_pages == 0 {
        SectionHit::Miss
    } else if p.screen_col < g.lead {
        if p.screen_col < g.cells {
            SectionHit::Cell(p.screen_col)
        } else {
            SectionHit::Blank
        }
    } else if p.row >= g.rows {
        SectionHit::Miss
    } else if col < g.lead {
        SectionHit::Blank
    } else if cell_number(g, page, p.row as int, col) < g.cells {
        SectionHit::Cell(cell_number(g, page, p.row as int, col) as usize)
    } else {
        SectionHit::Miss
    }
}

/// The cell at a point of a section.
pub fn section_cell(g: &SectionGrid, p: &CellPoint) -> (r: SectionHit)
    requires
        g.wf(),
    ensures
        r == cell_at(*g, *p),
{
    if g.n_pages == 0 {
        return SectionHit::Miss;
    }
    if p.screen_col < g.lead {
        return if p.screen_col < g.cells {
            SectionHit::Cell(p.screen_col)
        } else {
            SectionHit::Blank
        };
    }
    let page: usize = (p.strip_col / g.cols) % g.n_pages;
    let col: usize = p.strip_col % g.cols;
    if p.row >= g.rows {
        return SectionHit::Miss;
    }
    if col < g.lead {
        return SectionHit::Blank;
    }
    proof {
        lemma_page_size(*g);
    }
    let cpp: usize = g.cols * g.rows;
    let d: usize = if cpp > g.lead {
        cpp - g.lead
    } else {
        1
    };
    proof {
        let c = cpp as int;
        assert(p.row * g.cols + g.cols <= c && 0 <= p.row * g.cols) by (nonlinear_arith)
            requires
                p.row + 1 <= g.rows,
                c == g.cols * g.rows,
                0 < g.cols,
        ;
        assert(page * (g.cols * g.rows) + c + g.lead <= usize::MAX);
        assert(0 <= page * d <= page * c) by (nonlinear_arith)
            requires
                0 <= d <= c,
                0 <= page,
        ;
    }
    let i: usize = if g.lead > 0 {
        g.lead + page * d + (p.row * g.cols + col - g.lead)
    } else {
        page * cpp + p.row * g.cols + col
    };
    if i < g.cells {
        SectionHit::Cell(i)
    } else {
        SectionHit::Miss
    }
}

/// The first place of `x`.
pub open spec fn first_place(v: Seq<usize>, x: usize) -> Option<usize>
    decreases v.len(),
{
    if v.len() == 0 {
        None
    } else {
        match first_place(v.drop_last(), x) {
            Some(i) => Some(i),
            None => if v.last() == x {
                Some((v.len() - 1) as usize)
            } else {
                None
            },
        }
    }
}

/// The first place of `x` holds `x`, no place before it does, and there is none
/// only where no place does.
pub proof fn lemma_first_place(v: Seq<usize>, x: usize)
    requires
        v.len() <= usize::MAX,
    ensures
        match first_place(v, x) {
            Some(i) => i < v.len() && v[i as int] == x && forall|k: int|
                0 <= k < i ==> #[trigger] v[k] != x,
            None => forall|k: int| 0 <= k < v.len() ==> #[trigger] v[k] != x,
        },
    decreases v.len(),
{
    if v.len() > 0 {
        let d = v.drop_last();
        lemma_first_place(d, x);
        assert forall|k: int| 0 <= k < d.len() implies #[trigger] v[k] == d[k] by {}
    }
}

/// The first place of `x`.
pub fn place_in(v: &[usize], x: usize) -> (r: Option<usize>)
    ensures
        r == first_place(v@, x),
{
    let mut r: Option<usize> = None;
    assert(v@.take(0) == Seq::<usize>::empty());
    for i in 0..v.len()
        invariant
            r == first_place(v@.take(i as int), x),
    {
        assert(v@.take(i + 1).drop_last() == v@.take(i as int));
        assert(v@.take(i + 1).last() == v@[i as int]);
        if r.is_none() && v[i] == x {
            r = Some(i);
        }
    }
    assert(v@.take(v@.len() as int) == v@);
    r
}

/// What the sections from `from` on say of a point. The cells of the Apps
/// section are slots, some of them empty: `slots` holds the slot of each item.
pub open spec fn sections_hit(
    sections: Seq<(SectionGrid, Option<CellPoint>)>,
    slots: Seq<usize>,
    from: int,
) -> Option<Hit>
    decreases sections.len() - from,
{
    if from < 0 || from >= sections.len() {
        None
    } else {
        let hit = match sections[from].1 {
            Some(p) => cell_at(sections[from].0, p),
            None => SectionHit::Miss,
        };
        match hit {
            SectionHit::Miss => sections_hit(sections, slots, from + 1),
            SectionHit::Blank => None,
            SectionHit::Cell(i) => if from == SECTION_APPS {
                match first_place(slots, i) {
                    Some(j) => Some(Hit::GridCell(SECTION_APPS, j)),
                    None => None,
                }
            } else {
                Some(Hit::GridCell(from as usize, i))
            },
        }
    }
}

/// The slot of an open box at a row and a column; what is beyond the box counts
/// to its edge.
pub fn box_cell(row: usize, col: usize) -> (r: usize)
    ensures
        r == (if row < 3 {
            row as int
        } else {
            2
        }) * 3 + (if col < 3 {
            col as int
        } else {
            2
        }),
        r < OPEN_BOX_CAP,
{
    let y: usize = if row < OPEN_BOX_COLS {
        row
    } else {
        OPEN_BOX_COLS - 1
    };
    let x: usize = if col < OPEN_BOX_COLS {
        col
    } else {
        OPEN_BOX_COLS - 1
    };
    y * OPEN_BOX_COLS + x
}

/// What is under the pointer: an icon of the dock, else the collapsed search
/// button, else the open box, else a cell of a section. `dock` is the slot of
/// the dock whose column the pointer is in, `opened` the slot of the open box,
/// and each section comes with the point in it.
pub fn hit_test(
    dock: Option<usize>,
    on_button: bool,
    search_open: bool,
    opened: Option<usize>,
    sections: &[(SectionGrid, Option<CellPoint>)],
    slots: &[usize],
) -> (r: Option<Hit>)
    requires
        forall|i: int| 0 <= i < sections@.len() ==> (#[trigger] sections@[i]).0.wf(),
    ensures
        r == (match dock {
            Some(i) => Some(Hit::DockIcon(i)),
            None => if on_button && !search_open {
                Some(Hit::SearchButton)
            } else {
                match opened {
                    Some(k) => Some(Hit::OpenBoxCell(k)),
                    None => sections_hit(sections@, slots@, 0),
                }
            },
        }),
{
    if let Some(i) = dock {
        return Some(Hit::DockIcon(i));
    }
    if !search_open && on_button {
        return Some(Hit::SearchButton);
    }
    if let Some(k) = opened {
        return Some(Hit::OpenBoxCell(k));
    }
    for s in 0..sections.len()
        invariant
            dock is None,
            search_open || !on_button,
            opened is None,
            forall|i: int| 0 <= i < sections@.len() ==> (#[trigger] sections@[i]).0.wf(),
            sections_hit(sections@, slots@, 0) == sections_hit(sections@, slots@, s as int),
    {
        let (g, p) = sections[s];
        assert(sections@[s as int].0.wf());
        if let Some(p) = p {
            match section_cell(&g, &p) {
                SectionHit::Miss => {},
                SectionHit::Blank => return None,
                SectionHit::Cell(i) => {
                    if s == SECTION_APPS {
                        return match place_in(slots, i) {
                            Some(j) => Some(Hit::GridCell(SECTION_APPS, j)),
                            None => None,
                        };
                    }
                    return Some(Hit::GridCell(s, i));
                },
            }
        }
    }
    None
}

/// A cell is hit where it is drawn: in a grid without a lead, or of one row, the
/// point in the page, row and column of a cell belongs to that cell, on the
/// strip and on every turn `k` of it.
pub proof fn law_cells_are_hit_where_they_are_drawn(g: SectionGrid, i: int, k: int, p: CellPoint)
    requires
        g.wf(),
        g.lead == 0 || (g.rows == 1 && g.lead < g.cols),
        g.lead <= i < g.cells,
        g.n_pages == pages_for(g.cells as int, g.cols as int, g.rows as int, g.lead as int),
        0 <= k,
        p.strip_col == (place_of(g, i).0 + k * g.n_pages) * g.cols + place_of(g, i).2,
        p.row == place_of(g, i).1,
        p.screen_col >= g.lead,
    ensures
        cell_at(g, p) == SectionHit::Cell(i as usize),
{
    lemma_page_size(g);
    let cols = g.cols as int;
    let rows = g.rows as int;
    let lead = g.lead as int;
    let cpp = cols * rows;
    assert(g.rows == 1 ==> cpp == cols) by (nonlinear_arith)
        requires
            cpp == cols * g.rows,
    ;
    let d = strip_page(cols, rows, lead);
    assert(d == cpp - lead);
    let j = i - lead;
    let page = j / d;
    let within = j % d;
    let strip_cols = cols - lead;
    let row = within / strip_cols;
    let col = lead + within % strip_cols;
    lemma_fundamental_div_mod(j, d);
    lemma_fundamental_div_mod(within, strip_cols);
    assert(0 <= within < d) by (nonlinear_arith)
        requires
            0 < d,
            within == j % d,
    ;
    assert(0 <= within % strip_cols < strip_cols) by (nonlinear_arith)
        requires
            0 < strip_cols,
    ;
    assert(0 <= page) by (nonlinear_arith)
        requires
            0 <= j,
            0 < d,
            page == j / d,
    ;
    assert(0 <= row < rows) by (nonlinear_arith)
        requires
            within == strip_cols * row + within % strip_cols,
            0 <= within < d,
            0 <= within % strip_cols < strip_cols,
            0 < strip_cols,
            d == cols * rows - lead,
            strip_cols == cols - lead,
            lead == 0 || rows == 1,
            0 < rows,
    ;
    let turned = page + k * g.n_pages;
    assert(turned * cols == cols * turned) by (nonlinear_arith);
    lemma_fundamental_div_mod_converse(p.strip_col as int, cols, turned, col);
    // The last page is not passed.
    let m = g.cells - lead;
    lemma_fundamental_div_mod(m + d - 1, d);
    assert(page < g.n_pages) by (nonlinear_arith)
        requires
            j < m,
            j == d * page + within,
            0 <= within,
            0 < d,
            m + d - 1 == d * g.n_pages + (m + d - 1) % d,
            (m + d - 1) % d < d,
    ;
    assert(k * g.n_pages == g.n_pages * k) by (nonlinear_arith);
    lemma_fundamental_div_mod_converse(turned, g.n_pages as int, k, page);
    assert(strip_cols * row == row * cols) by (nonlinear_arith)
        requires
            lead == 0 || row == 0,
            strip_cols == cols - lead,
    ;
    assert(d * page == page * d) by (nonlinear_arith);
}

/// The page that a number of turned pages shows: the strip goes round, both
/// ways.
pub fn wrap_page(page: i64, n_pages: usize) -> (r: usize)
    requires
        n_pages > 0,
    ensures
        r == page as int % (n_pages as int),
        r < n_pages,
{
    let n: u64 = n_pages as u64;
    if page >= 0 {
        return (page as u64 % n) as usize;
    }
    let back: u64 = (-(page + 1)) as u64;
    let m: u64 = back % n;
    proof {
        let q = back as int / n as int;
        lemma_fundamental_div_mod(back as int, n as int);
        assert(page as int == n as int * (-1 - q) + (n - 1 - m)) by (nonlinear_arith)
            requires
                back == -(page + 1),
                back as int == n as int * q + m,
        ;
        lemma_fundamental_div_mod_converse(page as int, n as int, -1 - q, n - 1 - m);
    }
    (n - 1 - m) as usize
}

/// The strip of pages has no end: turning once round comes back to the page it
/// began at, and turning back from the first page shows the last one.
pub proof fn law_pages_go_round(page: int, turns: int, n_pages: int)
    requires
        n_pages > 0,
    ensures
        0 <= page % n_pages < n_pages,
        0 <= page < n_pages ==> page % n_pages == page,
        (page + turns * n_pages) % n_pages == page % n_pages,
        (-1int) % n_pages == n_pages - 1,
{
    lemma_fundamental_div_mod(page, n_pages);
    let q = page / n_pages;
    let m = page % n_pages;
    assert(0 <= m < n_pages) by (nonlinear_arith)
        requires
            n_pages > 0,
            m == page % n_pages,
    ;
    assert(page + turns * n_pages == n_pages * (q + turns) + m) by (nonlinear_arith)
        requires
            page == n_pages * q + m,
    ;
    lemma_fundamental_div_mod_converse(page + turns * n_pages, n_pages, q + turns, m);
    assert(-1 == n_pages * (-1) + (n_pages - 1)) by (nonlinear_arith);
    lemma_fundamental_div_mod_converse(-1, n_pages, -1, n_pages - 1);
    if 0 <= page < n_pages {
        assert(page == n_pages * 0 + page) by (nonlinear_arith);
        lemma_fundamental_div_mod_converse(page, n_pages, 0, page);
    }
}

/// Turning to a cell of the list shows the page it is drawn on.
pub proof fn law_revealing_turns_to_the_cell(g: SectionGrid, i: int)
    requires
        g.wf(),
        0 <= i < g.cells,
        g.n_pages == pages_for(g.cells as int, g.cols as int, g.rows as int, g.lead as int),
    ensures
        page_of(g, i) == place_of(g, i).0,
        page_of(g, i) < g.n_pages,
{
    lemma_page_size(g);
    if i >= g.lead {
        let d = strip_page(g.cols as int, g.rows as int, g.lead as int);
        let j = i - g.lead;
        let m = g.cells - g.lead;
        let page = j / d;
        lemma_fundamental_div_mod(j, d);
        lemma_fundamental_div_mod(m + d - 1, d);
        assert(page < g.n_pages) by (nonlinear_arith)
            requires
                0 <= j < m,
                j == d * page + j % d,
                0 < d,
                m + d - 1 == d * g.n_pages + (m + d - 1) % d,
        ;
    } else if g.cells > g.lead {
        let d = strip_page(g.cols as int, g.rows as int, g.lead as int);
        let m = g.cells - g.lead;
        lemma_fundamental_div_mod(m + d - 1, d);
        assert(0 < g.n_pages) by (nonlinear_arith)
            requires
                0 < m,
                0 < d,
                m + d - 1 == d * g.n_pages + (m + d - 1) % d,
        ;
    }
}

// ---------------------------------------------------------------------------
// The open box
// ---------------------------------------------------------------------------

/// The member in a slot of an open box. A box on the left half of the grid
/// keeps its first member top left, one on the right its second top right.
pub open spec fn slot_member(left: bool, slot: int) -> int {
    if left {
        if slot == 2 {
            3
        } else if slot == 3 {
            2
        } else {
            slot
        }
    } else if slot == 0 {
        2
    } else if slot == 1 {
        0
    } else if slot == 2 {
        1
    } else if slot == 3 {
        4
    } else if slot == 4 {
        5
    } else if slot == 5 {
        3
    } else {
        slot
    }
}

/// The member shown in slot `slot` of an open box; beyond the nine slots it is
/// `slot` itself.
pub fn open_box_slot_member(left: bool, slot: usize) -> (r: usize)
    ensures
        r == slot_member(left, slot as int),
{
    let slots: [usize; 9] = if left {
        [0, 1, 3, 2, 4, 5, 6, 7, 8]
    } else {
        [2, 0, 1, 4, 5, 3, 6, 7, 8]
    };
    if slot < 9 {
        slots[slot]
    } else {
        slot
    }
}

/// The slot in which a member is drawn.
pub open spec fn member_slot(left: bool, member: int) -> int {
    if left {
        if member == 2 {
            3
        } else if member == 3 {
            2
        } else {
            member
        }
    } else if member == 0 {
        1
    } else if member == 1 {
        2
    } else if member == 2 {
        0
    } else if member == 3 {
        5
    } else if member == 4 {
        3
    } else if member == 5 {
        4
    } else {
        member
    }
}

/// Where the member at display slot `display` is drawn: its page, row and
/// column.
pub fn box_place(left: bool, display: usize) -> (r: (usize, usize, usize))
    ensures
        r.0 == display / OPEN_BOX_CAP,
        r.1 == member_slot(left, (display % OPEN_BOX_CAP) as int) / 3,
        r.2 == member_slot(left, (display % OPEN_BOX_CAP) as int) % 3,
{
    let slots: [usize; 9] = if left {
        [0, 1, 3, 2, 4, 5, 6, 7, 8]
    } else {
        [1, 2, 0, 5, 3, 4, 6, 7, 8]
    };
    let slot: usize = slots[display % OPEN_BOX_CAP];
    (display / OPEN_BOX_CAP, slot / OPEN_BOX_COLS, slot % OPEN_BOX_COLS)
}

/// A member is hit in the slot it is drawn in, and every slot shows the member
/// that is hit in it.
pub proof fn law_box_slots_and_members_agree(left: bool, k: int)
    requires
        0 <= k < 9,
    ensures
        slot_member(left, member_slot(left, k)) == k,
        member_slot(left, slot_member(left, k)) == k,
        0 <= slot_member(left, k) < 9,
        0 <= member_slot(left, k) < 9,
{
}

// ---------------------------------------------------------------------------
// Labels
// ---------------------------------------------------------------------------

/// The name of a section.
pub open spec fn section_name(section: usize) -> Seq<char> {
    if section == SECTION_APPS {
        "Apps"@
    } else if section == SECTION_INSTALL {
        "Install"@
    } else {
        "Files"@
    }
}

/// The title of a section: its name, and the open box or directory in it.
pub fn section_title(section: usize, files_path: &str, apps_group: &str) -> (r: String)
    ensures
        r@ == (if section == SECTION_FILES && files_path@.len() > 0 {
            "Files"@ + " — "@ + files_path@
        } else if section == SECTION_APPS && apps_group@.len() > 0 {
            "Apps"@ + " — "@ + apps_group@
        } else {
            section_name(section)
        }),
{
    let name: &str = if section == SECTION_APPS {
        "Apps"
    } else if section == SECTION_INSTALL {
        "Install"
    } else {
        "Files"
    };
    if section == SECTION_FILES && files_path.unicode_len() > 0 {
        text::concat(&text::concat(name, " — "), files_path)
    } else if section == SECTION_APPS && apps_group.unicode_len() > 0 {
        text::concat(&text::concat(name, " — "), apps_group)
    } else {
        text::copy_text(name)
    }
}

/// What an empty section says: Install its hint, any of them that a search
/// found nothing, else nothing.
pub fn empty_text(section: usize, install_hint: &str, query: &str) -> (r: Option<String>)
    ensures
        text::text_in(r) == (if section == SECTION_INSTALL && install_hint@.len() > 0 {
            Some(install_hint@)
        } else if query@.len() > 0 {
            Some("No results"@)
        } else {
            None
        }),
{
    if section == SECTION_INSTALL && install_hint.unicode_len() > 0 {
        Some(text::copy_text(install_hint))
    } else if query.unicode_len() > 0 {
        Some(text::copy_text("No results"))
    } else {
        None
    }
}

/// A label cut to `max` characters: a longer one loses its end, and what is left
/// loses the blanks at its end, for an ellipsis.
pub open spec fn fitted(s: Seq<char>, max: int) -> Seq<char> {
    if s.len() <= max {
        s
    } else {
        text::trim_end(
            s.take(
                if max >= 1 {
                    max - 1
                } else {
                    0
                },
            ),
        ) + "…"@
    }
}

/// Cut a label to `max` characters.
pub fn truncate_label(label: &str, max: usize) -> (r: String)
    ensures
        r@ == fitted(label@, max as int),
{
    let n: usize = label.unicode_len();
    if n <= max {
        return text::copy_text(label);
    }
    let keep: usize = if max >= 1 {
        max - 1
    } else {
        0
    };
    let head = label.substring_char(0, keep);
    assert(label@.subrange(0, keep as int) == label@.take(keep as int));
    text::concat(&text::trim_tail(head), "…")
}

/// A label that was cut fits.
pub proof fn law_cut_labels_fit(s: Seq<char>, max: int)
    requires
        1 <= max,
    ensures
        fitted(s, max).len() <= max,
{
    reveal_strlit("…");
    if s.len() > max {
        text::lemma_trim_end_shorter(s.take(max - 1));
    }
}

/// What the label of a cell says while something happens to its entry.
pub open spec fn caption_of(
    name: Seq<char>,
    max: int,
    section: usize,
    busy: bool,
    failed: bool,
    installing: bool,
    launching: bool,
) -> Seq<char> {
    if busy && launching {
        "Launching…"@
    } else if busy && (section == SECTION_INSTALL || installing) {
        "Installing…"@
    } else if busy {
        "Removing…"@
    } else if failed {
        "Failed"@
    } else {
        fitted(name, max)
    }
}

/// The label of a cell.
pub fn caption(
    name: &str,
    max: usize,
    section: usize,
    busy: bool,
    failed: bool,
    installing: bool,
    launching: bool,
) -> (r: String)
    ensures
        r@ == caption_of(name@, max as int, section, busy, failed, installing, launching),
{
    if busy && launching {
        text::copy_text("Launching…")
    } else if busy && (section == SECTION_INSTALL || installing) {
        text::copy_text("Installing…")
    } else if busy {
        text::copy_text("Removing…")
    } else if failed {
        text::copy_text("Failed")
    } else {
        truncate_label(name, max)
    }
}

// ---------------------------------------------------------------------------
// What grids and labels mean
// ---------------------------------------------------------------------------

/// Pages are as few as hold all cells: the lead and the full pages hold them, and one
/// page less would not. No cells take no page, and those of the lead alone one.
pub proof fn law_pages_are_as_few_as_hold_the_cells(n: int, cols: int, rows: int, lead: int)
    requires
        0 <= n,
        0 <= lead < cols * rows,
    ensures
        ({
            let pages = pages_for(n, cols, rows, lead);
            let d = cols * rows - lead;
            &&& n == 0 ==> pages == 0
            &&& 0 < n <= lead ==> pages == 1
            &&& n > lead ==> pages >= 1 && n <= lead + pages * d && n > lead + (pages - 1) * d
        }),
{
    if n > lead {
        let d = cols * rows - lead;
        let m = n - lead;
        let q = (m + d - 1) / d;
        assert(strip_page(cols, rows, lead) == d);
        lemma_fundamental_div_mod(m + d - 1, d);
        let r = (m + d - 1) % d;
        assert(0 <= r < d) by (nonlinear_arith)
            requires
                0 < d,
                r == (m + d - 1) % d,
        ;
        assert(q >= 1 && m <= q * d && m > (q - 1) * d) by (nonlinear_arith)
            requires
                0 < d,
                0 < m,
                m + d - 1 == d * q + r,
                0 <= r < d,
        ;
    }
}

/// Cells are drawn in reading order: row by row from the left, page by page, beside the
/// columns of the lead.
pub proof fn law_cells_are_drawn_in_reading_order(g: SectionGrid, i: int)
    requires
        g.wf(),
        g.lead == 0 || (g.rows == 1 && g.lead < g.cols),
        0 <= i,
    ensures
        ({
            let (page, row, col) = place_of(g, i);
            let across = g.cols - g.lead;
            &&& i < g.lead ==> page == 0 && row == 0 && col == i
            &&& i >= g.lead ==> {
                &&& 0 <= page
                &&& 0 <= row < g.rows
                &&& g.lead <= col < g.cols
                &&& i == g.lead + page * (across * g.rows) + row * across + (col - g.lead)
            }
        }),
{
    if i >= g.lead {
        let across = g.cols - g.lead;
        let d = strip_page(g.cols as int, g.rows as int, g.lead as int);
        assert(d == across * g.rows) by (nonlinear_arith)
            requires
                g.cols > 0,
                g.rows > 0,
                g.lead == 0 || (g.rows == 1 && g.lead < g.cols),
                across == g.cols - g.lead,
                d == (if g.cols * g.rows - g.lead >= 1 {
                    g.cols * g.rows - g.lead
                } else {
                    1
                }),
        ;
        assert(0 < d) by (nonlinear_arith)
            requires
                0 < across,
                0 < g.rows,
                d == across * g.rows,
        ;
        let j = i - g.lead;
        let page = j / d;
        let within = j % d;
        lemma_fundamental_div_mod(j, d);
        assert(0 <= within < d && 0 <= page) by (nonlinear_arith)
            requires
                0 < d,
                0 <= j,
                within == j % d,
                page == j / d,
        ;
        let row = within / across;
        let c = within % across;
        lemma_fundamental_div_mod(within, across);
        assert(0 <= c < across && 0 <= row < g.rows) by (nonlinear_arith)
            requires
                0 < across,
                0 <= within < across * g.rows,
                c == within % across,
                row == within / across,
                within == across * row + c,
        ;
        assert(d * page == page * (across * g.rows)) by (nonlinear_arith)
            requires
                d == across * g.rows,
        ;
        assert(across * row == row * across) by (nonlinear_arith);
    }
}

/// What a point of a grid without a lead hits is drawn there: in its row, its column
/// and on its page. Below the rows, and without pages, nothing is hit.
pub proof fn law_what_is_hit_is_drawn_there(g: SectionGrid, p: CellPoint)
    requires
        g.wf(),
        g.lead == 0,
    ensures
        g.n_pages == 0 ==> cell_at(g, p) is Miss,
        p.row >= g.rows ==> cell_at(g, p) is Miss,
        cell_at(g, p) !is Blank,
        cell_at(g, p) matches SectionHit::Cell(j) ==> j < g.cells && place_of(g, j as int) == (
            (p.strip_col as int / g.cols as int) % (g.n_pages as int),
            p.row as int,
            p.strip_col as int % g.cols as int,
        ),
{
    if g.n_pages > 0 && p.row < g.rows {
        let page = (p.strip_col as int / g.cols as int) % (g.n_pages as int);
        let col = p.strip_col as int % g.cols as int;
        let row = p.row as int;
        let d = g.cols * g.rows;
        lemma_page_size(g);
        let i = cell_number(g, page, row, col);
        assert(0 <= page < g.n_pages && 0 <= col < g.cols) by (nonlinear_arith)
            requires
                0 < g.n_pages,
                0 < g.cols,
                page == (p.strip_col as int / g.cols as int) % (g.n_pages as int),
                col == p.strip_col as int % g.cols as int,
        ;
        let within = row * g.cols + col;
        assert(0 <= within < d) by (nonlinear_arith)
            requires
                0 <= row < g.rows,
                0 <= col < g.cols,
                within == row * g.cols + col,
                d == g.cols * g.rows,
        ;
        assert(i == d * page + within) by (nonlinear_arith)
            requires
                i == page * (g.cols * g.rows) + row * g.cols + col,
                within == row * g.cols + col,
                d == g.cols * g.rows,
        ;
        lemma_fundamental_div_mod_converse(i, d, page, within);
        assert(within == g.cols * row + col) by (nonlinear_arith)
            requires
                within == row * g.cols + col,
        ;
        lemma_fundamental_div_mod_converse(within, g.cols as int, row, col);
        assert(0 <= i) by (nonlinear_arith)
            requires
                i == d * page + within,
                0 <= within,
                0 < d,
                0 <= page,
        ;
    }
}

/// The first section that has anything at the point decides: its cell is hit, and in
/// the section of applications the item in that slot. A blank ends the search.
pub proof fn law_the_first_section_with_a_cell_is_hit(
    sections: Seq<(SectionGrid, Option<CellPoint>)>,
    slots: Seq<usize>,
    from: int,
    s: int,
)
    requires
        0 <= from <= s <= sections.len() <= usize::MAX,
        slots.len() <= usize::MAX,
        forall|k: int|
            from <= k < s ==> ((#[trigger] sections[k]).1 matches Some(p) ==> cell_at(
                sections[k].0,
                p,
            ) is Miss),
    ensures
        s == sections.len() ==> sections_hit(sections, slots, from) is None,
        s < sections.len() ==> (sections[s].1 matches Some(p) ==> match cell_at(sections[s].0, p) {
            SectionHit::Miss => true,
            SectionHit::Blank => sections_hit(sections, slots, from) is None,
            SectionHit::Cell(i) => if s == 0 {
                match sections_hit(sections, slots, from) {
                    Some(Hit::GridCell(sec, j)) => sec == 0 && j < slots.len() && slots[j as int]
                        == i,
                    Some(_) => false,
                    None => forall|k: int| 0 <= k < slots.len() ==> #[trigger] slots[k] != i,
                }
            } else {
                sections_hit(sections, slots, from) == Some(Hit::GridCell(s as usize, i))
            },
        }),
    decreases s - from,
{
    if from < s {
        assert(sections[from].1 matches Some(p) ==> cell_at(sections[from].0, p) is Miss);
        law_the_first_section_with_a_cell_is_hit(sections, slots, from + 1, s);
    } else if s < sections.len() {
        if let Some(p) = sections[s].1 {
            if let SectionHit::Cell(i) = cell_at(sections[s].0, p) {
                lemma_first_place(slots, i);
            }
        }
    }
}

/// Which member each of the nine slots of an open box shows, row by row.
pub proof fn law_the_slots_of_an_open_box(slot: int)
    requires
        0 <= slot < 9,
    ensures
        slot_member(true, slot) == seq![0int, 1, 3, 2, 4, 5, 6, 7, 8][slot],
        slot_member(false, slot) == seq![2int, 0, 1, 4, 5, 3, 6, 7, 8][slot],
{
}

/// Only a directory that was entered has a way up in front of it, and only in the
/// section of files.
pub proof fn law_only_entered_directories_have_a_lead(section: usize, navigated: bool)
    ensures
        lead_of(section, navigated) == (if navigated && section == 2 {
            1int
        } else {
            0
        }),
        section_name(0) == "Apps"@,
        section_name(1) == "Install"@,
        section_name(2) == "Files"@,
{
}

/// A label that fits is kept. One that does not loses its end: what is left is a
/// beginning of it without blanks at the end, an ellipsis behind it, and of the room
/// for it only blanks are given up.
pub proof fn law_a_long_label_keeps_its_beginning(s: Seq<char>, max: int)
    requires
        1 <= max,
    ensures
        s.len() <= max ==> fitted(s, max) == s,
        s.len() > max ==> {
            let kept = fitted(s, max).len() - 1;
            &&& 0 <= kept <= max - 1
            &&& fitted(s, max) == s.take(kept).push('…')
            &&& kept > 0 ==> !text::is_space(s[kept - 1])
            &&& forall|i: int| kept <= i < max - 1 ==> text::is_space(#[trigger] s[i])
        },
{
    reveal_strlit("…");
    if s.len() > max {
        let head = s.take(max - 1);
        let t = text::trim_end(head);
        text::lemma_trim_end_last(head);
        text::lemma_trim_end_drops(head);
        assert forall|i: int| t.len() <= i < max - 1 implies text::is_space(#[trigger] s[i]) by {
            assert(head[i] == s[i]);
        }
        assert(t + "…"@ == t.push('…'));
        assert(t == s.take(t.len() as int));
    }
}

/// What happens to an entry shows in place of its name: a launch before an
/// installation, an installation before a removal, and a failure only while nothing
/// happens.
pub proof fn law_what_happens_shows_in_the_caption(
    name: Seq<char>,
    max: int,
    section: usize,
    busy: bool,
    failed: bool,
    installing: bool,
    launching: bool,
)
    ensures
        ({
            let c = caption_of(name, max, section, busy, failed, installing, launching);
            &&& busy && launching ==> c == "Launching…"@
            &&& busy && !launching && (section == 1 || installing) ==> c == "Installing…"@
            &&& busy && !launching && section != 1 && !installing ==> c == "Removing…"@
            &&& !busy && failed ==> c == "Failed"@
            &&& !busy && !failed ==> c == fitted(name, max)
        }),
{
}

} // verus!
