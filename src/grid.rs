use vstd::prelude::*;

verus! {

/// A grid cell `(x, y)`: column, then row.
pub type Point = (usize, usize);

pub open spec fn abs_diff(a: int, b: int) -> int {
    if a >= b {
        a - b
    } else {
        b - a
    }
}

/// Manhattan distance between two cells.
pub open spec fn manhattan(a: Point, b: Point) -> int {
    abs_diff(a.0 as int, b.0 as int) + abs_diff(a.1 as int, b.1 as int)
}

/// Coordinates small enough that any Manhattan distance fits in `usize`.
pub open spec fn coord_ok(p: Point) -> bool {
    p.0 <= usize::MAX / 2 && p.1 <= usize::MAX / 2
}

/// The grid as rows of characters.
pub open spec fn grid_view(grid: Seq<Vec<char>>) -> Seq<Seq<char>> {
    Seq::new(grid.len(), |y: int| grid[y]@)
}

/// A cell is free iff it lies inside its row and holds `'.'`.
pub open spec fn cell_free(g: Seq<Seq<char>>, p: Point) -> bool {
    &&& (p.1 as int) < g.len()
    &&& (p.0 as int) < g[p.1 as int].len()
    &&& g[p.1 as int][p.0 as int] == '.'
}

/// Every row index and column index fits the coordinate bound.
pub open spec fn grid_fits(g: Seq<Seq<char>>) -> bool {
    &&& g.len() <= usize::MAX / 2
    &&& forall|y: int| 0 <= y < g.len() ==> #[trigger] g[y].len() <= usize::MAX / 2
}

/// Free cells of row `y` among its first `n` columns, left to right.
pub open spec fn row_free_cells(row: Seq<char>, y: int, n: int) -> Seq<Point>
    decreases n,
{
    if n <= 0 {
        Seq::empty()
    } else {
        let rest = row_free_cells(row, y, n - 1);
        if row[n - 1] == '.' {
            rest.push(((n - 1) as usize, y as usize))
        } else {
            rest
        }
    }
}

/// Free cells of the first `m` rows, in row-major order.
pub open spec fn free_cells_upto(g: Seq<Seq<char>>, m: int) -> Seq<Point>
    decreases m,
{
    if m <= 0 {
        Seq::empty()
    } else {
        free_cells_upto(g, m - 1) + row_free_cells(g[m - 1], m - 1, g[m - 1].len() as int)
    }
}

/// All free cells of the grid, in row-major order.
pub open spec fn free_cells(g: Seq<Seq<char>>) -> Seq<Point> {
    free_cells_upto(g, g.len() as int)
}

/// `a` comes strictly before `b` in row-major order.
pub open spec fn row_major_lt(a: Point, b: Point) -> bool {
    a.1 < b.1 || (a.1 == b.1 && a.0 < b.0)
}

/// Exact Manhattan distance between two cells.
pub fn heuristic(a: Point, b: Point) -> (r: usize)
    requires
        manhattan(a, b) <= usize::MAX,
    ensures
        r == manhattan(a, b),
{
    let dx: usize = if a.0 >= b.0 {
        a.0 - b.0
    } else {
        b.0 - a.0
    };
    let dy: usize = if a.1 >= b.1 {
        a.1 - b.1
    } else {
        b.1 - a.1
    };
    dx + dy
}

/// Manhattan distance between two cells whose coordinates fit the bound.
pub fn manhattan_distance(p1: Point, p2: Point) -> (r: usize)
    requires
        coord_ok(p1),
        coord_ok(p2),
    ensures
        r == manhattan(p1, p2),
{
    heuristic(p1, p2)
}

/// Manhattan distance between any two cells, computed without overflow.
pub fn manhattan_wide(a: Point, b: Point) -> (r: u128)
    ensures
        r == manhattan(a, b),
{
    let dx: u128 = if a.0 >= b.0 {
        (a.0 - b.0) as u128
    } else {
        (b.0 - a.0) as u128
    };
    let dy: u128 = if a.1 >= b.1 {
        (a.1 - b.1) as u128
    } else {
        (b.1 - a.1) as u128
    };
    dx + dy
}

proof fn lemma_row_free_cells(row: Seq<char>, y: int, n: int)
    requires
        0 <= n <= row.len(),
        row.len() <= usize::MAX,
        0 <= y <= usize::MAX,
    ensures
        forall|k: int|
            0 <= k < row_free_cells(row, y, n).len() ==> {
                let p = #[trigger] row_free_cells(row, y, n)[k];
                &&& p.1 == y
                &&& (p.0 as int) < n
                &&& row[p.0 as int] == '.'
            },
        forall|k1: int, k2: int|
            0 <= k1 < k2 < row_free_cells(row, y, n).len() ==> (
            #[trigger] row_free_cells(row, y, n)[k1]).0 < (
            #[trigger] row_free_cells(row, y, n)[k2]).0,
        forall|x: int|
            0 <= x < n && row[x] == '.' ==> row_free_cells(row, y, n).contains(
                (x as usize, y as usize),
            ),
    decreases n,
{
    if n > 0 {
        lemma_row_free_cells(row, y, n - 1);
        let rest = row_free_cells(row, y, n - 1);
        if row[n - 1] == '.' {
            let p = ((n - 1) as usize, y as usize);
            assert(rest.push(p)[rest.len() as int] == p);
            assert forall|x: int| 0 <= x < n && row[x] == '.' implies rest.push(p).contains(
                (x as usize, y as usize),
            ) by {
                if x < n - 1 {
                    let k = choose|k: int| 0 <= k < rest.len() && rest[k] == (x as usize, y as usize);
                    assert(rest.push(p)[k] == (x as usize, y as usize));
                } else {
                    assert(rest.push(p)[rest.len() as int] == (x as usize, y as usize));
                }
            }
        }
    }
}

/// The free cells of the first `m` rows are exactly the free cells above row `m`,
/// without repetition and in strict row-major order.
pub proof fn lemma_free_cells_upto(g: Seq<Seq<char>>, m: int)
    requires
        0 <= m <= g.len(),
        grid_fits(g),
    ensures
        forall|k: int|
            0 <= k < free_cells_upto(g, m).len() ==> {
                let p = #[trigger] free_cells_upto(g, m)[k];
                &&& cell_free(g, p)
                &&& (p.1 as int) < m
            },
        forall|k1: int, k2: int|
            0 <= k1 < k2 < free_cells_upto(g, m).len() ==> row_major_lt(
                #[trigger] free_cells_upto(g, m)[k1],
                #[trigger] free_cells_upto(g, m)[k2],
            ),
        forall|p: Point| cell_free(g, p) && (p.1 as int) < m ==> free_cells_upto(g, m).contains(p),
    decreases m,
{
    if m > 0 {
        lemma_free_cells_upto(g, m - 1);
        let a = free_cells_upto(g, m - 1);
        let row = g[m - 1];
        lemma_row_free_cells(row, m - 1, row.len() as int);
        let b = row_free_cells(row, m - 1, row.len() as int);
        let s = a + b;
        assert(s == free_cells_upto(g, m));
        assert forall|k: int| 0 <= k < s.len() implies {
            let p = #[trigger] s[k];
            &&& cell_free(g, p)
            &&& (p.1 as int) < m
        } by {
            if k >= a.len() {
                assert(s[k] == b[k - a.len()]);
            }
        }
        assert forall|k1: int, k2: int| 0 <= k1 < k2 < s.len() implies row_major_lt(
            #[trigger] s[k1],
            #[trigger] s[k2],
        ) by {
            if k2 < a.len() {
            } else if k1 < a.len() {
                assert(s[k2] == b[k2 - a.len()]);
            } else {
                assert(s[k1] == b[k1 - a.len()]);
                assert(s[k2] == b[k2 - a.len()]);
            }
        }
        assert forall|p: Point| cell_free(g, p) && (p.1 as int) < m implies s.contains(p) by {
            if (p.1 as int) < m - 1 {
                let k = choose|k: int| 0 <= k < a.len() && a[k] == p;
                assert(s[k] == p);
            } else {
                assert(b.contains((p.0 as int as usize, (m - 1) as usize)));
                let k = choose|k: int| 0 <= k < b.len() && b[k] == p;
                assert(s[a.len() + k] == p);
            }
        }
    }
}

/// Membership, order and distinctness of the grid's free-cell list.
pub proof fn lemma_free_cells(g: Seq<Seq<char>>)
    requires
        grid_fits(g),
    ensures
        forall|k: int| 0 <= k < free_cells(g).len() ==> cell_free(g, #[trigger] free_cells(g)[k]),
        forall|p: Point| cell_free(g, p) ==> free_cells(g).contains(p),
        forall|k1: int, k2: int|
            0 <= k1 < k2 < free_cells(g).len() ==> row_major_lt(
                #[trigger] free_cells(g)[k1],
                #[trigger] free_cells(g)[k2],
            ),
        free_cells(g).no_duplicates(),
{
    lemma_free_cells_upto(g, g.len() as int);
    let s = free_cells(g);
    assert forall|i: int, j: int| 0 <= i < s.len() && 0 <= j < s.len() && i != j implies s[i]
        != s[j] by {
        if i < j {
            assert(row_major_lt(s[i], s[j]));
        } else {
            assert(row_major_lt(s[j], s[i]));
        }
    }
}

/// The free cells of `map` (cells holding `'.'`), scanned row by row.
pub fn get_free_cells(map: &[Vec<char>]) -> (free: Vec<Point>)
    ensures
        free@ == free_cells(grid_view(map@)),
{
    let ghost g = grid_view(map@);
    let mut free: Vec<Point> = Vec::new();
    let mut y: usize = 0;
    while y < map.len()
        invariant
            g == grid_view(map@),
            y <= map.len(),
            free@ == free_cells_upto(g, y as int),
        decreases map.len() - y,
    {
        let row = &map[y];
        assert(row@ == g[y as int]);
        let ghost before = free@;
        let mut x: usize = 0;
        while x < row.len()
            invariant
                g == grid_view(map@),
                y < map.len(),
                row@ == g[y as int],
                x <= row.len(),
                free@ == before + row_free_cells(row@, y as int, x as int),
            decreases row.len() - x,
        {
            if row[x] == '.' {
                free.push((x, y));
            }
            assert(row_free_cells(row@, y as int, (x + 1) as int) == if row@[x as int] == '.' {
                row_free_cells(row@, y as int, x as int).push((x, y))
            } else {
                row_free_cells(row@, y as int, x as int)
            });
            x = x + 1;
        }
        y = y + 1;
    }
    free
}

/// Unicode white space, as `char::is_whitespace` classifies it.
pub open spec fn is_space(c: char) -> bool {
    ('\u{9}' <= c && c <= '\u{d}') || c == ' ' || c == '\u{85}' || c == '\u{a0}' || c == '\u{1680}'
        || ('\u{2000}' <= c && c <= '\u{200a}') || c == '\u{2028}' || c == '\u{2029}' || c
        == '\u{202f}' || c == '\u{205f}' || c == '\u{3000}'
}

fn space(c: char) -> (r: bool)
    ensures
        r == is_space(c),
{
    ('\u{9}' <= c && c <= '\u{d}') || c == ' ' || c == '\u{85}' || c == '\u{a0}' || c == '\u{1680}'
        || ('\u{2000}' <= c && c <= '\u{200a}') || c == '\u{2028}' || c == '\u{2029}' || c
        == '\u{202f}' || c == '\u{205f}' || c == '\u{3000}'
}

/// A line made of white space only (or empty).
pub open spec fn blank(line: Seq<char>) -> bool {
    forall|k: int| 0 <= k < line.len() ==> is_space(#[trigger] line[k])
}

/// After reading `text[..i]`: the non-blank lines completed so far, and the
/// line being read. Carriage returns are dropped; `'\n'` ends a line.
pub open spec fn scan_lines(text: Seq<char>, i: int) -> (Seq<Seq<char>>, Seq<char>)
    decreases i,
{
    if i <= 0 {
        (Seq::empty(), Seq::empty())
    } else {
        let (rows, cur) = scan_lines(text, i - 1);
        let c = text[i - 1];
        if c == '\r' {
            (rows, cur)
        } else if c == '\n' {
            (if blank(cur) { rows } else { rows.push(cur) }, Seq::empty())
        } else {
            (rows, cur.push(c))
        }
    }
}

proof fn lemma_blank_push(s: Seq<char>, c: char)
    ensures
        blank(s.push(c)) == (blank(s) && is_space(c)),
{
    let t = s.push(c);
    if blank(s) && is_space(c) {
        assert forall|k: int| 0 <= k < t.len() implies is_space(#[trigger] t[k]) by {
            if k < s.len() {
                assert(t[k] == s[k]);
            }
        }
    }
    if blank(t) {
        assert(is_space(t[s.len() as int]));
        assert forall|k: int| 0 <= k < s.len() implies is_space(#[trigger] s[k]) by {
            assert(t[k] == s[k]);
        }
    }
}

/// The rows of a map text: its lines without carriage returns, blank lines
/// skipped.
pub open spec fn map_rows(text: Seq<char>) -> Seq<Seq<char>> {
    let (rows, cur) = scan_lines(text, text.len() as int);
    if blank(cur) {
        rows
    } else {
        rows.push(cur)
    }
}

/// Parses an ASCII map: carriage returns are stripped, blank lines skipped,
/// and each other line becomes a row of characters.
pub fn parse_map(text: &str) -> (grid: Vec<Vec<char>>)
    ensures
        grid_view(grid@) == map_rows(text@),
{
    let chars = crate::text::chars_of(text);
    let mut rows: Vec<Vec<char>> = Vec::new();
    let mut cur: Vec<char> = Vec::new();
    let mut cur_blank = true;
    let mut i: usize = 0;
    while i < chars.len()
        invariant
            chars@ == text@,
            i <= chars@.len(),
            (grid_view(rows@), cur@) == scan_lines(text@, i as int),
            cur_blank == blank(cur@),
        decreases chars@.len() - i,
    {
        let c = chars[i];
        if c == '\r' {
        } else if c == '\n' {
            if !cur_blank {
                let ghost before = rows@;
                let line = cur;
                rows.push(line);
                assert(grid_view(rows@) =~= grid_view(before).push(line@));
            }
            cur = Vec::new();
            cur_blank = true;
            assert(blank(cur@));
        } else {
            let ghost prev = cur@;
            cur.push(c);
            cur_blank = cur_blank && space(c);
            proof {
                lemma_blank_push(prev, c);
            }
        }
        i = i + 1;
    }
    assert(text@.len() == chars@.len());
    if !cur_blank {
        let ghost before = rows@;
        let line = cur;
        rows.push(line);
        assert(grid_view(rows@) =~= grid_view(before).push(line@));
    }
    rows
}

} // verus!
