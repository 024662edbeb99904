use vstd::prelude::*;

use crate::cell::Cell;
use crate::state::State;

verus! {

/// Why a seed pattern was refused.
#[derive(Debug, Clone, Copy, PartialEq, Eq, Structural)]
pub enum ParseError {
    /// A character other than `O` and `.` in a grid pattern, at a 1-based line and column.
    InvalidGlyph { character: char, line: usize, column: usize },
    /// A character outside the run-length alphabet, at its 1-based position in the text.
    InvalidRunLength { character: char, position: usize },
    /// A run count or a coordinate that does not fit in `usize`, at the 1-based position
    /// of the character that made it so.
    RunTooLong { position: usize },
}

/// The characters of `text`, in order.
fn chars_of(text: &str) -> (r: Vec<char>)
    ensures
        r@ == text@,
{
    let mut r: Vec<char> = Vec::new();
    for c in it: text.chars()
        invariant
            r@ == it.seq().take(it.index() as int),
    {
        r.push(c);
    }
    assert(r@ =~= text@);
    r
}

/// The pieces of `s` between newline characters; the last one follows the last newline.
pub open spec fn pieces(s: Seq<char>) -> Seq<Seq<char>>
    decreases s.len(),
{
    if s.len() == 0 {
        seq![Seq::<char>::empty()]
    } else {
        let p = pieces(s.drop_last());
        if s.last() == '\n' {
            p.push(Seq::<char>::empty())
        } else {
            p.update(p.len() - 1, p.last().push(s.last()))
        }
    }
}

/// A piece that ended in a newline, without the carriage return that may precede it.
pub open spec fn strip_cr(piece: Seq<char>) -> Seq<char> {
    if piece.len() > 0 && piece.last() == '\r' {
        piece.drop_last()
    } else {
        piece
    }
}

/// The lines of `s`: split at `\n` or `\r\n`, with the final line ending optional.
pub open spec fn lines_of(s: Seq<char>) -> Seq<Seq<char>> {
    let p = pieces(s);
    let ended = p.drop_last().map_values(|l: Seq<char>| strip_cr(l));
    if p.last().len() == 0 {
        ended
    } else {
        ended.push(p.last())
    }
}

/// The lines held by a vector of character vectors.
pub open spec fn view_lines(v: Seq<Vec<char>>) -> Seq<Seq<char>> {
    v.map_values(|l: Vec<char>| l@)
}

proof fn lemma_pieces_nonempty(s: Seq<char>)
    ensures
        pieces(s).len() >= 1,
    decreases s.len(),
{
    if s.len() > 0 {
        lemma_pieces_nonempty(s.drop_last());
    }
}

/// The lines of `text`.
fn split_lines(text: &Vec<char>) -> (r: Vec<Vec<char>>)
    ensures
        view_lines(r@) == lines_of(text@),
{
    let mut lines: Vec<Vec<char>> = Vec::new();
    let mut current: Vec<char> = Vec::new();
    let mut i: usize = 0;
    while i < text.len()
        invariant
            0 <= i <= text.len(),
            pieces(text@.take(i as int)).len() >= 1,
            view_lines(lines@) == pieces(text@.take(i as int)).drop_last().map_values(|l: Seq<char>| strip_cr(l)),
            current@ == pieces(text@.take(i as int)).last(),
        decreases text.len() - i,
    {
        let c = text[i];
        assert(text@.take(i + 1).drop_last() =~= text@.take(i as int));
        proof {
            lemma_pieces_nonempty(text@.take(i as int));
        }
        let ghost prev = pieces(text@.take(i as int));
        if c == '\n' {
            let mut line = current;
            let n = line.len();
            if n > 0 && line[n - 1] == '\r' {
                line.pop();
            }
            assert(line@ =~= strip_cr(prev.last()));
            let ghost old_lines = lines@;
            let ghost line_view = line@;
            lines.push(line);
            assert(view_lines(lines@) =~= view_lines(old_lines).push(line_view));
            assert(prev.map_values(|l: Seq<char>| strip_cr(l)) =~= prev.drop_last().map_values(
                |l: Seq<char>| strip_cr(l),
            ).push(strip_cr(prev.last())));
            current = Vec::new();
            assert(pieces(text@.take(i + 1)).drop_last() =~= prev);
        } else {
            current.push(c);
            assert(pieces(text@.take(i + 1)).drop_last() =~= prev.drop_last());
        }
        i = i + 1;
        assert(view_lines(lines@) =~= pieces(text@.take(i as int)).drop_last().map_values(|l: Seq<char>| strip_cr(l)));
        assert(current@ =~= pieces(text@.take(i as int)).last());
    }
    assert(text@.take(i as int) =~= text@);
    if current.len() > 0 {
        lines.push(current);
    }
    assert(view_lines(lines@) =~= lines_of(text@));
    lines
}

/// `.` (dead) or `O` (alive).
pub open spec fn is_glyph(c: char) -> bool {
    c == '.' || c == 'O'
}

/// Every character of the grid before line `y`, column `x` (0-based, row by row) is a glyph.
pub open spec fn glyphs_before(ls: Seq<Seq<char>>, y: int, x: int) -> bool {
    forall|y2: int, x2: int|
        0 <= y2 < ls.len() && 0 <= x2 < ls[y2].len() && (y2 < y || (y2 == y && x2 < x)) ==> is_glyph(
            #[trigger] ls[y2][x2],
        )
}

/// Every character of the grid is a glyph.
pub open spec fn all_glyphs(ls: Seq<Seq<char>>) -> bool {
    forall|y: int, x: int| 0 <= y < ls.len() && 0 <= x < ls[y].len() ==> is_glyph(#[trigger] ls[y][x])
}

/// The character at line `y`, column `x` is the first one, row by row, that is no glyph.
pub open spec fn first_bad_glyph(ls: Seq<Seq<char>>, y: int, x: int) -> bool {
    &&& 0 <= y < ls.len()
    &&& 0 <= x < ls[y].len()
    &&& !is_glyph(ls[y][x])
    &&& glyphs_before(ls, y, x)
}

/// The cells marked `O` that come before line `y`, column `x`.
pub open spec fn glyph_cells_upto(ls: Seq<Seq<char>>, y: int, x: int) -> Set<Cell> {
    Set::new(
        |c: Cell|
            (c.y < y || (c.y == y && c.x < x)) && c.y < ls.len() && c.x < ls[c.y as int].len() && ls[c.y as int][c.x as int]
                == 'O',
    )
}

/// The cells marked `O`: column `x` of line `y` is the cell `(x, y)`.
pub open spec fn glyph_cells(ls: Seq<Seq<char>>) -> Set<Cell> {
    Set::new(|c: Cell| c.y < ls.len() && c.x < ls[c.y as int].len() && ls[c.y as int][c.x as int] == 'O')
}

/// The length of the longest line.
pub open spec fn longest(ls: Seq<Seq<char>>) -> nat
    decreases ls.len(),
{
    if ls.len() == 0 {
        0
    } else {
        let rest = longest(ls.drop_last());
        if ls.last().len() > rest {
            ls.last().len()
        } else {
            rest
        }
    }
}

/// What reading the grid `ls` gives: a board as tall as the lines are many, as wide as the
/// longest line, with a live cell at each `O`; or the first character that is no glyph.
pub open spec fn glyph_outcome(ls: Seq<Seq<char>>, r: Result<State, ParseError>) -> bool {
    match r {
        Ok(st) => {
            &&& all_glyphs(ls)
            &&& st.wf()
            &&& st.width == longest(ls)
            &&& st.height == ls.len()
            &&& st.live() == glyph_cells(ls)
        },
        Err(e) => {
            &&& !all_glyphs(ls)
            &&& e matches ParseError::InvalidGlyph { character, line, column }
            &&& 1 <= line && 1 <= column
            &&& first_bad_glyph(ls, line - 1, column - 1)
            &&& character == ls[line - 1][column - 1]
        },
    }
}

/// Reads a grid of lines: `O` is a live cell at (column, line), `.` a dead one.
pub fn parse_glyph_lines(lines: &Vec<Vec<char>>) -> (r: Result<State, ParseError>)
    ensures
        glyph_outcome(view_lines(lines@), r),
{
    let ghost ls = view_lines(lines@);
    let mut cells: Vec<Cell> = Vec::new();
    let mut width: usize = 0;
    let mut y: usize = 0;
    while y < lines.len()
        invariant
            0 <= y <= lines.len(),
            ls == view_lines(lines@),
            glyphs_before(ls, y as int, 0),
            cells@.no_duplicates(),
            cells@.to_set() == glyph_cells_upto(ls, y as int, 0),
            forall|j: int| 0 <= j < cells@.len() ==> (#[trigger] cells@[j]).y < y,
            width == longest(ls.take(y as int)),
        decreases lines.len() - y,
    {
        let line = &lines[y];
        assert(line@ == ls[y as int]);
        let mut x: usize = 0;
        while x < line.len()
            invariant
                0 <= y < lines.len(),
                0 <= x <= line.len(),
                ls == view_lines(lines@),
                line@ == ls[y as int],
                glyphs_before(ls, y as int, x as int),
                cells@.no_duplicates(),
                cells@.to_set() == glyph_cells_upto(ls, y as int, x as int),
                forall|j: int|
                    0 <= j < cells@.len() ==> (#[trigger] cells@[j]).y < y || (cells@[j].y == y && cells@[j].x < x),
            decreases line.len() - x,
        {
            let c = line[x];
            if c == 'O' {
                let cell = Cell { x, y };
                let ghost before = cells@;
                cells.push(cell);
                assert forall|i: int, j: int| 0 <= i < j < cells@.len() implies cells@[i] != cells@[j] by {
                    if j == cells@.len() - 1 {
                        assert(before[i].y < y || (before[i].y == y && before[i].x < x));
                    }
                }
                assert(cells@.to_set() =~= glyph_cells_upto(ls, y as int, x + 1)) by {
                    assert forall|d: Cell| cells@.to_set().contains(d) implies glyph_cells_upto(ls, y as int, x + 1).contains(d) by {
                        if d != cell {
                            let j = choose|j: int| 0 <= j < cells@.len() && cells@[j] == d;
                            assert(before[j] == d);
                            assert(before.to_set().contains(d));
                        } else {
                            assert(ls[y as int][x as int] == 'O');
                        }
                    }
                    assert forall|d: Cell| glyph_cells_upto(ls, y as int, x + 1).contains(d) implies cells@.to_set().contains(d) by {
                        if d != cell {
                            assert(before.to_set().contains(d));
                            let j = choose|j: int| 0 <= j < before.len() && before[j] == d;
                            assert(cells@[j] == d);
                        } else {
                            assert(cells@[cells@.len() - 1] == d);
                        }
                    }
                }
            } else if c != '.' {
                return Err(ParseError::InvalidGlyph { character: c, line: y + 1, column: x + 1 });
            } else {
                assert(cells@.to_set() =~= glyph_cells_upto(ls, y as int, x + 1));
            }
            x = x + 1;
        }
        let n = line.len();
        assert(ls.take(y + 1).drop_last() =~= ls.take(y as int));
        if n > width {
            width = n;
        }
        assert(cells@.to_set() =~= glyph_cells_upto(ls, y + 1, 0));
        y = y + 1;
    }
    assert(ls.take(y as int) =~= ls);
    assert(glyph_cells_upto(ls, y as int, 0) =~= glyph_cells(ls));
    Ok(State { width, height: lines.len(), living_cells: cells })
}

/// Reads a grid pattern: each line of `rle` is a row, `O` a live cell at (column, row) and
/// `.` a dead one. The board is as tall as the lines are many and as wide as the longest.
pub fn parse_rle_body(rle: &str) -> (r: Result<State, ParseError>)
    ensures
        glyph_outcome(lines_of(rle@), r),
{
    let chars = chars_of(rle);
    let lines = split_lines(&chars);
    parse_glyph_lines(&lines)
}

/// Where reading a run-length pattern stands after a prefix of it.
pub struct RunScan {
    /// The cursor's column.
    pub x: int,
    /// The current row.
    pub y: int,
    /// The repeat count read so far, if any digit was read since the last command.
    pub count: Option<int>,
    /// The furthest column the cursor has reached.
    pub width: int,
    /// The cells set alive so far.
    pub live: Set<Cell>,
    /// Whether `!` was read.
    pub stopped: bool,
    /// The error met, if any.
    pub error: Option<ParseError>,
}

/// One of `0` to `9`.
pub open spec fn is_digit(c: char) -> bool {
    48 <= (c as u32) <= 57
}

/// A run's length: the count read, or 1 when none was.
pub open spec fn run_len(count: Option<int>) -> int {
    match count {
        Some(n) => n,
        None => 1,
    }
}

/// The cells of row `y` from column `from` up to, not including, column `to`.
pub open spec fn run_cells(y: int, from: int, to: int) -> Set<Cell> {
    Set::new(|c: Cell| c.y == y && from <= c.x < to)
}

/// The state after reading character `c`, at 1-based position `pos`, in state `st`.
pub open spec fn scan_step(st: RunScan, c: char, pos: int) -> RunScan {
    if st.stopped || st.error is Some {
        st
    } else if is_digit(c) {
        let n = match st.count {
            Some(n) => n,
            None => 0,
        } * 10 + ((c as u32) - 48);
        if n > usize::MAX {
            RunScan { error: Some(ParseError::RunTooLong { position: pos as usize }), ..st }
        } else {
            RunScan { count: Some(n), ..st }
        }
    } else if c == 'b' || c == 'o' {
        let to = st.x + run_len(st.count);
        if to > usize::MAX {
            RunScan { error: Some(ParseError::RunTooLong { position: pos as usize }), ..st }
        } else {
            RunScan {
                x: to,
                count: None,
                width: if to > st.width { to } else { st.width },
                live: if c == 'o' { st.live.union(run_cells(st.y, st.x, to)) } else { st.live },
                ..st
            }
        }
    } else if c == '$' {
        if st.y + 1 >= usize::MAX {
            RunScan { error: Some(ParseError::RunTooLong { position: pos as usize }), ..st }
        } else {
            RunScan { x: 0, y: st.y + 1, count: None, ..st }
        }
    } else if c == '!' {
        RunScan { stopped: true, ..st }
    } else if c == '\n' {
        st
    } else {
        RunScan { error: Some(ParseError::InvalidRunLength { character: c, position: pos as usize }), ..st }
    }
}

/// The state after reading all of `s`, from column 0 of row 0 with nothing alive.
pub open spec fn run_scan(s: Seq<char>) -> RunScan
    decreases s.len(),
{
    if s.len() == 0 {
        RunScan { x: 0, y: 0, count: None, width: 0, live: Set::empty(), stopped: false, error: None }
    } else {
        scan_step(run_scan(s.drop_last()), s.last(), s.len() as int)
    }
}

/// What reading the run-length pattern `s` gives: the first error met before `!`, or a
/// board as wide as the furthest column the cursor reached, with one row more than the
/// row ends read, and the cells that the `o` runs set alive.
pub open spec fn run_outcome(s: Seq<char>, r: Result<State, ParseError>) -> bool {
    let scan = run_scan(s);
    match scan.error {
        Some(e) => r == Err::<State, ParseError>(e),
        None => match r {
            Ok(st) => {
                &&& st.wf()
                &&& st.width == scan.width
                &&& st.height == scan.y + 1
                &&& st.live() == scan.live
            },
            Err(_) => false,
        },
    }
}

proof fn lemma_scan_settled(s: Seq<char>, i: int)
    requires
        0 <= i <= s.len(),
        run_scan(s.take(i)).stopped || run_scan(s.take(i)).error is Some,
    ensures
        run_scan(s) == run_scan(s.take(i)),
    decreases s.len() - i,
{
    if i == s.len() {
        assert(s.take(i) =~= s);
    } else {
        assert(s.drop_last().take(i) =~= s.take(i));
        lemma_scan_settled(s.drop_last(), i);
    }
}

/// The scan of `s` after its first `i` characters agrees with the reader's own variables.
pub open spec fn scan_matches(
    s: Seq<char>,
    i: int,
    x: usize,
    y: usize,
    count: Option<usize>,
    width: usize,
    cells: Seq<Cell>,
    stopped: bool,
) -> bool {
    let sc = run_scan(s.take(i));
    &&& sc.error is None
    &&& sc.stopped == stopped
    &&& sc.x == x
    &&& sc.y == y
    &&& sc.count == match count {
        Some(n) => Some(n as int),
        None => None::<int>,
    }
    &&& sc.width == width
    &&& cells.to_set() == sc.live
}

/// Reads a run-length pattern: digits give a repeat count (1 when there are none), `b` skips
/// that many cells, `o` sets that many alive, `$` starts the next row, `!` ends the pattern,
/// and newlines are ignored. The board is as wide as the furthest column reached and has
/// one row more than the row ends read.
pub fn parse_run_length(text: &str) -> (r: Result<State, ParseError>)
    ensures
        run_outcome(text@, r),
{
    let chars = chars_of(text);
    let ghost s = chars@;
    let mut x: usize = 0;
    let mut y: usize = 0;
    let mut count: Option<usize> = None;
    let mut width: usize = 0;
    let mut cells: Vec<Cell> = Vec::new();
    let mut stopped: bool = false;
    let mut i: usize = 0;
    assert(s.take(0) =~= Seq::<char>::empty());
    assert(cells@.to_set() =~= Set::<Cell>::empty());
    while !stopped && i < chars.len()
        invariant
            0 <= i <= chars.len(),
            s == chars@,
            s == text@,
            y < usize::MAX,
            scan_matches(s, i as int, x, y, count, width, cells@, stopped),
            cells@.no_duplicates(),
            forall|j: int|
                0 <= j < cells@.len() ==> (#[trigger] cells@[j]).y < y || (cells@[j].y == y && cells@[j].x < x),
        decreases chars.len() - i,
    {
        let c = chars[i];
        let ghost sc = run_scan(s.take(i as int));
        assert(s.take(i + 1).drop_last() =~= s.take(i as int));
        assert(run_scan(s.take(i + 1)) == scan_step(sc, c, i + 1));
        let code = c as u32;
        if 48 <= code && code <= 57 {
            let base: usize = match count {
                Some(n) => n,
                None => 0,
            };
            let digit: usize = (code - 48) as usize;
            match base.checked_mul(10) {
                Some(m) => match m.checked_add(digit) {
                    Some(n) => {
                        count = Some(n);
                    },
                    None => {
                        proof {
                            lemma_scan_settled(s, i + 1);
                        }
                        return Err(ParseError::RunTooLong { position: i + 1 });
                    },
                },
                None => {
                    assert(base * 10 + digit > usize::MAX);
                    proof {
                        lemma_scan_settled(s, i + 1);
                    }
                    return Err(ParseError::RunTooLong { position: i + 1 });
                },
            }
        } else if c == 'b' || c == 'o' {
            let run: usize = match count {
                Some(n) => n,
                None => 1,
            };
            match x.checked_add(run) {
                Some(to) => {
                    if c == 'o' {
                        let ghost before = cells@;
                        let mut k: usize = x;
                        while k < to
                            invariant
                                x <= k <= to,
                                cells@.no_duplicates(),
                                cells@.to_set() == before.to_set().union(run_cells(y as int, x as int, k as int)),
                                forall|j: int|
                                    0 <= j < cells@.len() ==> (#[trigger] cells@[j]).y < y || (cells@[j].y == y
                                        && cells@[j].x < k),
                            decreases to - k,
                        {
                            let cell = Cell { x: k, y };
                            let ghost prev = cells@;
                            cells.push(cell);
                            assert forall|a: int, b: int| 0 <= a < b < cells@.len() implies cells@[a] != cells@[b] by {
                                if b == cells@.len() - 1 {
                                    assert(prev[a].y < y || (prev[a].y == y && prev[a].x < k));
                                }
                            }
                            assert(cells@.to_set() =~= before.to_set().union(run_cells(y as int, x as int, k + 1))) by {
                                assert(cells@ == prev.push(cell));
                                assert forall|d: Cell| #[trigger] cells@.to_set().contains(d) <==> (prev.to_set().contains(d) || d == cell) by {
                                    if cells@.to_set().contains(d) && d != cell {
                                        let j = choose|j: int| 0 <= j < cells@.len() && cells@[j] == d;
                                        assert(prev[j] == d);
                                    }
                                    if prev.to_set().contains(d) {
                                        let j = choose|j: int| 0 <= j < prev.len() && prev[j] == d;
                                        assert(cells@[j] == d);
                                    }
                                    if d == cell {
                                        assert(cells@[cells@.len() - 1] == d);
                                    }
                                }
                            }
                            k = k + 1;
                        }
                    }
                    x = to;
                    if to > width {
                        width = to;
                    }
                    count = None;
                },
                None => {
                    proof {
                        lemma_scan_settled(s, i + 1);
                    }
                    return Err(ParseError::RunTooLong { position: i + 1 });
                },
            }
        } else if c == '$' {
            if y >= usize::MAX - 1 {
                proof {
                    lemma_scan_settled(s, i + 1);
                }
                return Err(ParseError::RunTooLong { position: i + 1 });
            }
            x = 0;
            y = y + 1;
            count = None;
        } else if c == '!' {
            stopped = true;
        } else if c != '\n' {
            proof {
                lemma_scan_settled(s, i + 1);
            }
            return Err(ParseError::InvalidRunLength { character: c, position: i + 1 });
        }
        i = i + 1;
    }
    proof {
        if stopped {
            lemma_scan_settled(s, i as int);
        } else {
            assert(s.take(i as int) =~= s);
        }
    }
    Ok(State { width, height: y + 1, living_cells: cells })
}

/// The two seed pattern formats.
#[derive(Debug, Clone, Copy, PartialEq, Eq, Structural)]
pub enum SeedFormat {
    /// Digits, `b`, `o`, `$` and `!`, as `parse_run_length` reads them.
    RunLength,
    /// Lines of `O` and `.`, as `parse_rle_body` reads them.
    GridGlyph,
}

/// Reads `text` in the format chosen by the caller.
pub fn parse_seed(format: SeedFormat, text: &str) -> (r: Result<State, ParseError>)
    ensures
        match format {
            SeedFormat::RunLength => run_outcome(text@, r),
            SeedFormat::GridGlyph => glyph_outcome(lines_of(text@), r),
        },
{
    match format {
        SeedFormat::RunLength => parse_run_length(text),
        SeedFormat::GridGlyph => parse_rle_body(text),
    }
}

/// A grid of `height` lines of `width` characters: `O` at the cells of `positions`, `.`
/// everywhere else.
pub open spec fn glyph_grid(width: nat, height: nat, positions: Set<Cell>) -> Seq<Seq<char>> {
    Seq::new(
        height,
        |y: int|
            Seq::new(
                width,
                |x: int|
                    if positions.contains(Cell { x: x as usize, y: y as usize }) {
                        'O'
                    } else {
                        '.'
                    },
            ),
    )
}

proof fn lemma_longest_uniform(ls: Seq<Seq<char>>, width: nat)
    requires
        ls.len() > 0,
        forall|y: int| 0 <= y < ls.len() ==> (#[trigger] ls[y]).len() == width,
    ensures
        longest(ls) == width,
    decreases ls.len(),
{
    assert(ls[ls.len() - 1].len() == width);
    if ls.len() > 1 {
        assert forall|y: int| 0 <= y < ls.drop_last().len() implies (#[trigger] ls.drop_last()[y]).len() == width by {
            assert(ls.drop_last()[y] == ls[y]);
        }
        lemma_longest_uniform(ls.drop_last(), width);
    } else {
        assert(ls.drop_last().len() == 0);
        assert(longest(ls.drop_last()) == 0);
    }
}

/// A grid drawn from a set of positions reads back as exactly that set, on a board as tall
/// as the grid has lines and as wide as they are long.
pub proof fn lemma_glyph_round_trip(width: usize, height: usize, positions: Set<Cell>)
    requires
        height > 0,
        forall|c: Cell| #[trigger] positions.contains(c) ==> c.x < width && c.y < height,
    ensures
        all_glyphs(glyph_grid(width as nat, height as nat, positions)),
        glyph_cells(glyph_grid(width as nat, height as nat, positions)) == positions,
        forall|r: Result<State, ParseError>|
            #[trigger] glyph_outcome(glyph_grid(width as nat, height as nat, positions), r) ==> (r matches Ok(st)
                && st.live() == positions && st.width == width && st.height == height),
{
    let grid = glyph_grid(width as nat, height as nat, positions);
    lemma_longest_uniform(grid, width as nat);
    assert forall|c: Cell| glyph_cells(grid).contains(c) <==> positions.contains(c) by {
        if positions.contains(c) {
            assert(grid[c.y as int][c.x as int] == 'O');
        }
    }
    assert(glyph_cells(grid) =~= positions);
}

} // verus!
