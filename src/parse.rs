//! Reading grids and automata from their text format: one row per line,
//! cells separated by single spaces.
use vstd::prelude::*;
use core::ops::Range;
use vstd::string::StringSliceAdditionalSpecFns;
use crate::automaton::Automaton;
use crate::grid::Grid;
use crate::position::{Cell, Position};
use crate::text::{lines_bytes, lines_of, split_bytes, split_on, views};

verus! {

/// The meaning of one token of the text format.
#[derive(Debug, Clone, Copy, PartialEq, Eq, Structural)]
pub enum Token {
    /// `0`: a dead cell.
    Dead,
    /// `1`: a live cell.
    Alive,
    /// `3`: the source, a dead cell.
    Source,
    /// `4`: the destination, a dead cell.
    Destination,
    /// `x`: a cell left open for later, dead.
    Unknown,
    /// Anything else.
    Invalid,
}

/// The meaning of a token.
pub open spec fn token_of(t: Seq<u8>) -> Token {
    if t == seq![48u8] {
        Token::Dead
    } else if t == seq![49u8] {
        Token::Alive
    } else if t == seq![51u8] {
        Token::Source
    } else if t == seq![52u8] {
        Token::Destination
    } else if t == seq![120u8] {
        Token::Unknown
    } else {
        Token::Invalid
    }
}

/// The tokens of a text, row by row.
pub open spec fn token_rows(b: Seq<u8>) -> Seq<Seq<Seq<u8>>> {
    lines_of(b).map_values(|l: Seq<u8>| split_on(l, 32u8))
}

/// Whether the token at `c` exists and means `k`.
pub open spec fn is_token(rows: Seq<Seq<Seq<u8>>>, c: Cell, k: Token) -> bool {
    &&& 0 <= c.0 < rows.len()
    &&& 0 <= c.1 < rows[c.0].len()
    &&& token_of(rows[c.0][c.1]) == k
}

/// At least one row, no more than `i16::MAX` rows or columns, all rows as long as the first.
pub open spec fn shaped(rows: Seq<Seq<Seq<u8>>>) -> bool {
    &&& 1 <= rows.len() <= i16::MAX
    &&& rows[0].len() <= i16::MAX
    &&& forall|i: int| 0 <= i < rows.len() ==> #[trigger] rows[i].len() == rows[0].len()
}

/// A rectangle of cells where `x` tokens may stand: rows and columns, half open.
pub open spec fn in_window(c: Cell, rows: Range<i16>, cols: Range<i16>) -> bool {
    rows.start <= c.0 < rows.end && cols.start <= c.1 < cols.end
}

/// Whether token `k` may stand at `c`. Plain grids take only `0` and `1`;
/// automata also take their endpoints, and `x` inside the window.
pub open spec fn allowed(k: Token, endpoints: bool, c: Cell, rows: Range<i16>, cols: Range<i16>) -> bool {
    match k {
        Token::Dead | Token::Alive => true,
        Token::Source | Token::Destination => endpoints,
        Token::Unknown => endpoints && in_window(c, rows, cols),
        Token::Invalid => false,
    }
}

/// Every token is allowed where it stands.
pub open spec fn all_allowed(t: Seq<Seq<Seq<u8>>>, endpoints: bool, rows: Range<i16>, cols: Range<i16>) -> bool {
    forall|i: int, j: int|
        0 <= i < t.len() && 0 <= j < t[i].len() ==> allowed(#[trigger] token_of(t[i][j]), endpoints, (i, j), rows, cols)
}

/// Why a text is not a grid or an automaton.
#[derive(Debug, Clone, Copy, PartialEq, Eq, Structural)]
pub enum ParseError {
    /// The text has no line.
    Empty,
    /// More than `i16::MAX` rows or columns.
    TooLarge,
    /// This row has another number of cells than the first.
    Ragged { row: usize },
    /// The token at this place is not recognised.
    BadCell { row: usize, col: usize },
    /// An `x` outside the window where it may stand.
    Indeterminate { row: usize, col: usize },
    /// No `3` in the text.
    MissingSource,
    /// No `4` in the text.
    MissingDestination,
    /// A second `3`, at this place.
    ExtraSource { row: usize, col: usize },
    /// A second `4`, at this place.
    ExtraDestination { row: usize, col: usize },
}

/// What each error says of the token rows it was found in.
pub open spec fn error_holds(
    t: Seq<Seq<Seq<u8>>>,
    e: ParseError,
    endpoints: bool,
    rows: Range<i16>,
    cols: Range<i16>,
) -> bool {
    match e {
        ParseError::Empty => t.len() == 0,
        ParseError::TooLarge => t.len() > i16::MAX || (t.len() >= 1 && t[0].len() > i16::MAX),
        ParseError::Ragged { row } => row < t.len() && t[row as int].len() != t[0].len(),
        ParseError::BadCell { row, col } => is_token(t, (row as int, col as int), token_of(t[row as int][col as int]))
            && !allowed(token_of(t[row as int][col as int]), endpoints, (row as int, col as int), rows, cols)
            && token_of(t[row as int][col as int]) != Token::Unknown,
        ParseError::Indeterminate { row, col } => is_token(t, (row as int, col as int), Token::Unknown)
            && !allowed(Token::Unknown, endpoints, (row as int, col as int), rows, cols),
        ParseError::MissingSource => endpoints && forall|c: Cell| !#[trigger] is_token(t, c, Token::Source),
        ParseError::MissingDestination => endpoints && forall|c: Cell| !#[trigger] is_token(t, c, Token::Destination),
        ParseError::ExtraSource { row, col } => is_token(t, (row as int, col as int), Token::Source) && exists|c: Cell|
            c != (row as int, col as int) && #[trigger] is_token(t, c, Token::Source),
        ParseError::ExtraDestination { row, col } => is_token(t, (row as int, col as int), Token::Destination)
            && exists|c: Cell| c != (row as int, col as int) && #[trigger] is_token(t, c, Token::Destination),
    }
}

/// Exactly one token means `k`, the one at `c`.
pub open spec fn only_at(t: Seq<Seq<Seq<u8>>>, k: Token, c: Cell) -> bool {
    is_token(t, c, k) && forall|d: Cell| #[trigger] is_token(t, d, k) ==> d == c
}

/// Whether exactly one token means `k`.
pub open spec fn unique(t: Seq<Seq<Seq<u8>>>, k: Token) -> bool {
    exists|c: Cell| #[trigger] only_at(t, k, c)
}

/// The meaning of a token.
fn classify(t: &[u8]) -> (r: Token)
    ensures
        r == token_of(t@),
{
    if t.len() == 1 {
        let b = t[0];
        proof {
            assert(t@ =~= seq![b]);
        }
        if b == 48u8 {
            Token::Dead
        } else if b == 49u8 {
            Token::Alive
        } else if b == 51u8 {
            Token::Source
        } else if b == 52u8 {
            Token::Destination
        } else if b == 120u8 {
            Token::Unknown
        } else {
            Token::Invalid
        }
    } else {
        proof {
            assert(t@.len() != 1);
            assert(seq![48u8].len() == 1);
        }
        Token::Invalid
    }
}

/// The tokens of a text, row by row.
fn tokenize(text: &[u8]) -> (r: Vec<Vec<Vec<u8>>>)
    ensures
        r.len() == token_rows(text@).len(),
        forall|i: int| 0 <= i < r.len() ==> views(#[trigger] r[i]@) == token_rows(text@)[i],
{
    let lines = lines_bytes(text);
    let mut out: Vec<Vec<Vec<u8>>> = Vec::new();
    let mut i: usize = 0;
    while i < lines.len()
        invariant
            views(lines@) == lines_of(text@),
            i <= lines.len(),
            out.len() == i,
            forall|k: int| 0 <= k < i ==> views(#[trigger] out[k]@) == token_rows(text@)[k],
        decreases lines.len() - i,
    {
        let row = split_bytes(lines[i].as_slice(), 32u8);
        proof {
            assert(views(lines@)[i as int] == lines[i as int]@);
        }
        out.push(row);
        i += 1;
    }
    out
}

/// Cells processed before `(i, j)` in row-major order.
pub open spec fn before(c: Cell, i: int, j: int) -> bool {
    c.0 < i || (c.0 == i && c.1 < j)
}

/// The token rows held by nested byte vectors.
pub open spec fn rows_view(t: Seq<Vec<Vec<u8>>>) -> Seq<Seq<Seq<u8>>> {
    t.map_values(|r: Vec<Vec<u8>>| views(r@))
}

/// Whether the source (or destination) found so far is the only one among
/// the tokens processed before `(i, j)`.
pub open spec fn found_so_far(t: Seq<Seq<Seq<u8>>>, k: Token, found: Option<Position>, i: int, j: int) -> bool {
    match found {
        None => forall|c: Cell| before(c, i, j) ==> !#[trigger] is_token(t, c, k),
        Some(p) => {
            &&& is_token(t, p@, k)
            &&& before(p@, i, j)
            &&& forall|c: Cell| before(c, i, j) && #[trigger] is_token(t, c, k) ==> c == p@
        },
    }
}

/// Checks token rows and reads their cells: `true` for `1`, `false` for
/// every other allowed token; also returns where the source and the
/// destination stand, when present.
#[verifier::rlimit(40)]
fn read_cells(t: &Vec<Vec<Vec<u8>>>, endpoints: bool, rows: &Range<i16>, cols: &Range<i16>) -> (r: Result<
    (Vec<Vec<bool>>, Option<Position>, Option<Position>),
    ParseError,
>)
    ensures
        match r {
            Ok(v) => {
                let tv = rows_view(t@);
                &&& shaped(tv)
                &&& all_allowed(tv, endpoints, *rows, *cols)
                &&& v.0.len() == tv.len()
                &&& forall|i: int| 0 <= i < v.0.len() ==> #[trigger] v.0[i].len() == tv[0].len()
                &&& forall|i: int, j: int|
                    0 <= i < v.0.len() && 0 <= j < tv[0].len() ==> #[trigger] v.0[i]@[j] == (token_of(tv[i][j])
                        == Token::Alive)
                &&& found_so_far(tv, Token::Source, v.1, tv.len() as int, 0)
                &&& found_so_far(tv, Token::Destination, v.2, tv.len() as int, 0)
            },
            Err(e) => error_holds(rows_view(t@), e, endpoints, *rows, *cols),
        },
{
    let ghost tv = rows_view(t@);
    let h = t.len();
    if h == 0 {
        return Err(ParseError::Empty);
    }
    if h > 32767 {
        return Err(ParseError::TooLarge);
    }
    let w = t[0].len();
    proof {
        assert(tv[0] == views(t@[0]@));
    }
    if w > 32767 {
        return Err(ParseError::TooLarge);
    }
    let mut cells: Vec<Vec<bool>> = Vec::new();
    let mut src: Option<Position> = None;
    let mut dst: Option<Position> = None;
    let mut i: usize = 0;
    while i < h
        invariant
            tv == rows_view(t@),
            h == tv.len(),
            1 <= h <= i16::MAX,
            w == tv[0].len(),
            w <= i16::MAX,
            i <= h,
            forall|k: int| 0 <= k < i ==> #[trigger] tv[k].len() == w,
            cells.len() == i,
            forall|k: int| 0 <= k < i ==> #[trigger] cells[k].len() == w,
            forall|k: int, j: int|
                0 <= k < i && 0 <= j < w ==> #[trigger] cells[k]@[j] == (token_of(tv[k][j]) == Token::Alive),
            forall|k: int, j: int|
                0 <= k < i && 0 <= j < w ==> allowed(#[trigger] token_of(tv[k][j]), endpoints, (k, j), *rows, *cols),
            found_so_far(tv, Token::Source, src, i as int, 0),
            found_so_far(tv, Token::Destination, dst, i as int, 0),
        decreases h - i,
    {
        let row = &t[i];
        proof {
            assert(tv[i as int] == views(row@));
        }
        if row.len() != w {
            return Err(ParseError::Ragged { row: i });
        }
        let mut line: Vec<bool> = Vec::new();
        let mut j: usize = 0;
        while j < w
            invariant
                tv == rows_view(t@),
                h == tv.len(),
                1 <= h <= i16::MAX,
                w == tv[0].len(),
                w <= i16::MAX,
                i < h,
                tv[i as int] == views(row@),
                row.len() == w,
                j <= w,
                forall|k: int| 0 <= k < i ==> #[trigger] tv[k].len() == w,
                line.len() == j,
                forall|q: int| 0 <= q < j ==> #[trigger] line@[q] == (token_of(tv[i as int][q]) == Token::Alive),
                forall|k: int, q: int|
                    ((0 <= k < i && 0 <= q < w) || (k == i && 0 <= q < j)) ==> allowed(
                        #[trigger] token_of(tv[k][q]),
                        endpoints,
                        (k, q),
                        *rows,
                        *cols,
                    ),
                found_so_far(tv, Token::Source, src, i as int, j as int),
                found_so_far(tv, Token::Destination, dst, i as int, j as int),
            decreases w - j,
        {
            let k = classify(row[j].as_slice());
            proof {
                assert(views(row@)[j as int] == row@[j as int]@);
                assert(is_token(tv, (i as int, j as int), k));
            }
            let pos = Position { i: i as i16, j: j as i16 };
            match k {
                Token::Dead => {
                    line.push(false);
                },
                Token::Alive => {
                    line.push(true);
                },
                Token::Source => {
                    if !endpoints {
                        return Err(ParseError::BadCell { row: i, col: j });
                    }
                    if let Some(p) = src {
                        proof {
                            assert(p@ != (i as int, j as int));
                        }
                        return Err(ParseError::ExtraSource { row: i, col: j });
                    }
                    src = Some(pos);
                    line.push(false);
                },
                Token::Destination => {
                    if !endpoints {
                        return Err(ParseError::BadCell { row: i, col: j });
                    }
                    if let Some(p) = dst {
                        proof {
                            assert(p@ != (i as int, j as int));
                        }
                        return Err(ParseError::ExtraDestination { row: i, col: j });
                    }
                    dst = Some(pos);
                    line.push(false);
                },
                Token::Unknown => {
                    if !(endpoints && rows.start <= pos.i && pos.i < rows.end && cols.start <= pos.j && pos.j
                        < cols.end) {
                        return Err(ParseError::Indeterminate { row: i, col: j });
                    }
                    line.push(false);
                },
                Token::Invalid => {
                    return Err(ParseError::BadCell { row: i, col: j });
                },
            }
            j += 1;
        }
        proof {
            assert forall|c: Cell| #[trigger] is_token(tv, c, Token::Source) implies (before(c, i as int, w as int)
                <==> before(c, i + 1, 0)) by {
                if c.0 < i {
                    assert(tv[c.0].len() == w);
                }
            }
            assert forall|c: Cell| #[trigger] is_token(tv, c, Token::Destination) implies (before(
                c,
                i as int,
                w as int,
            ) <==> before(c, i + 1, 0)) by {
                if c.0 < i {
                    assert(tv[c.0].len() == w);
                }
            }
        }
        cells.push(line);
        i += 1;
    }
    Ok((cells, src, dst))
}

/// The empty window: plain grids have no place for `x`.
pub open spec fn no_window() -> Range<i16> {
    Range { start: 0i16, end: 0i16 }
}

/// A well-formed grid text: rectangular, of `0` and `1` only.
pub open spec fn grid_text(t: Seq<Seq<Seq<u8>>>) -> bool {
    shaped(t) && all_allowed(t, false, no_window(), no_window())
}

/// A well-formed automaton text: rectangular, of allowed tokens, with one
/// source and one destination.
pub open spec fn automaton_text(t: Seq<Seq<Seq<u8>>>, rows: Range<i16>, cols: Range<i16>) -> bool {
    &&& shaped(t)
    &&& all_allowed(t, true, rows, cols)
    &&& unique(t, Token::Source)
    &&& unique(t, Token::Destination)
}

/// Each reported error rules the text out.
pub proof fn lemma_error_rules_out(t: Seq<Seq<Seq<u8>>>, e: ParseError, endpoints: bool, rows: Range<i16>, cols: Range<i16>)
    requires
        error_holds(t, e, endpoints, rows, cols),
    ensures
        !(shaped(t) && all_allowed(t, endpoints, rows, cols) && (endpoints ==> unique(t, Token::Source) && unique(
            t,
            Token::Destination,
        ))),
{
    if shaped(t) && all_allowed(t, endpoints, rows, cols) {
        match e {
            ParseError::Ragged { row } => {
                assert(t[row as int].len() == t[0].len());
            },
            ParseError::BadCell { row, col } => {
                assert(allowed(token_of(t[row as int][col as int]), endpoints, (row as int, col as int), rows, cols));
            },
            ParseError::Indeterminate { row, col } => {
                assert(allowed(token_of(t[row as int][col as int]), endpoints, (row as int, col as int), rows, cols));
            },
            ParseError::MissingSource => {
                if unique(t, Token::Source) {
                    let c = choose|c: Cell| #[trigger] only_at(t, Token::Source, c);
                    assert(is_token(t, c, Token::Source));
                }
            },
            ParseError::MissingDestination => {
                if unique(t, Token::Destination) {
                    let c = choose|c: Cell| #[trigger] only_at(t, Token::Destination, c);
                    assert(is_token(t, c, Token::Destination));
                }
            },
            ParseError::ExtraSource { row, col } => {
                if unique(t, Token::Source) {
                    let c = choose|c: Cell| #[trigger] only_at(t, Token::Source, c);
                    let d = choose|d: Cell| d != (row as int, col as int) && #[trigger] is_token(t, d, Token::Source);
                    assert(d == c);
                    assert((row as int, col as int) == c);
                }
            },
            ParseError::ExtraDestination { row, col } => {
                if unique(t, Token::Destination) {
                    let c = choose|c: Cell| #[trigger] only_at(t, Token::Destination, c);
                    let d = choose|d: Cell| d != (row as int, col as int) && #[trigger] is_token(
                        t,
                        d,
                        Token::Destination,
                    );
                    assert(d == c);
                    assert((row as int, col as int) == c);
                }
            },
            _ => {},
        }
    }
}

/// The token rows of a text, read by the executable splitter.
fn read_tokens(text: &str) -> (r: Vec<Vec<Vec<u8>>>)
    ensures
        rows_view(r@) == token_rows(text.spec_bytes()),
{
    let bytes = text.as_bytes();
    let t = tokenize(bytes);
    proof {
        assert(rows_view(t@) =~= token_rows(text.spec_bytes()));
    }
    t
}

/// Reads a grid from rows of space-separated `0` and `1` tokens, one row per line.
pub fn parse_grid(text: &str) -> (r: Result<Grid, ParseError>)
    ensures
        r is Ok <==> grid_text(token_rows(text.spec_bytes())),
        match r {
            Ok(g) => {
                let t = token_rows(text.spec_bytes());
                &&& g.wf()
                &&& g@.height == t.len()
                &&& g@.width == t[0].len()
                &&& forall|i: int, j: int|
                    #[trigger] g@.in_bounds((i, j)) ==> g@.at((i, j)) == (token_of(t[i][j]) == Token::Alive)
            },
            Err(e) => error_holds(token_rows(text.spec_bytes()), e, false, no_window(), no_window()),
        },
{
    let t = read_tokens(text);
    let window = Range { start: 0i16, end: 0i16 };
    match read_cells(&t, false, &window, &window) {
        Ok(v) => {
            let (cells, _src, _dst) = v;
            let ghost cv = cells@;
            let ghost tv = rows_view(t@);
            let g = Grid::from_nested_vecs(cells);
            proof {
                assert forall|i: int, j: int| #[trigger] g@.in_bounds((i, j)) implies g@.at((i, j)) == (token_of(
                    tv[i][j],
                ) == Token::Alive) by {
                    assert(cv[i]@[j] == (token_of(tv[i][j]) == Token::Alive));
                }
            }
            Ok(g)
        },
        Err(e) => {
            proof {
                lemma_error_rules_out(rows_view(t@), e, false, window, window);
            }
            Err(e)
        },
    }
}

impl core::str::FromStr for Grid {
    type Err = ParseError;

    fn from_str(s: &str) -> (r: Result<Grid, ParseError>)
        ensures
            r is Ok <==> grid_text(token_rows(s.spec_bytes())),
            match r {
                Ok(g) => {
                    let t = token_rows(s.spec_bytes());
                    &&& g.wf()
                    &&& g@.height == t.len()
                    &&& g@.width == t[0].len()
                    &&& forall|i: int, j: int|
                        #[trigger] g@.in_bounds((i, j)) ==> g@.at((i, j)) == (token_of(t[i][j]) == Token::Alive)
                },
                Err(e) => error_holds(token_rows(s.spec_bytes()), e, false, no_window(), no_window()),
            },
    {
        parse_grid(s)
    }
}

/// Reads an automaton: rows of space-separated tokens, one row per line,
/// where `0` is dead, `1` alive, `3` the source, `4` the destination (both
/// dead, each exactly once), and `x` a dead cell that may only stand inside
/// the window given by `rows` and `cols`. Endpoints start mutable.
pub fn parse_allow_indeterminate(text: &str, rows: Range<i16>, cols: Range<i16>) -> (r: Result<Automaton, ParseError>)
    ensures
        r is Ok <==> automaton_text(token_rows(text.spec_bytes()), rows, cols),
        match r {
            Ok(a) => {
                let t = token_rows(text.spec_bytes());
                &&& a.wf()
                &&& a@.grid.height == t.len()
                &&& a@.grid.width == t[0].len()
                &&& forall|i: int, j: int|
                    #[trigger] a@.grid.in_bounds((i, j)) ==> a@.grid.at((i, j)) == (token_of(t[i][j]) == Token::Alive)
                &&& only_at(t, Token::Source, a@.source)
                &&& only_at(t, Token::Destination, a@.destination)
                &&& !a@.immutable_endpoints
            },
            Err(e) => error_holds(token_rows(text.spec_bytes()), e, true, rows, cols),
        },
{
    let t = read_tokens(text);
    let ghost tv = rows_view(t@);
    match read_cells(&t, true, &rows, &cols) {
        Ok(v) => {
            let (cells, src, dst) = v;
            match (src, dst) {
                (Some(s), Some(d)) => {
                    let ghost cv = cells@;
                    let g = Grid::from_nested_vecs(cells);
                    proof {
                        assert forall|i: int, j: int| #[trigger] g@.in_bounds((i, j)) implies g@.at((i, j)) == (
                        token_of(tv[i][j]) == Token::Alive) by {
                            assert(cv[i]@[j] == (token_of(tv[i][j]) == Token::Alive));
                        }
                        assert(only_at(tv, Token::Source, s@));
                        assert(only_at(tv, Token::Destination, d@));
                    }
                    let a = Automaton::new(g, s, d, false);
                    Ok(a)
                },
                (None, _) => {
                    proof {
                        lemma_error_rules_out(tv, ParseError::MissingSource, true, rows, cols);
                    }
                    Err(ParseError::MissingSource)
                },
                (_, None) => {
                    proof {
                        lemma_error_rules_out(tv, ParseError::MissingDestination, true, rows, cols);
                    }
                    Err(ParseError::MissingDestination)
                },
            }
        },
        Err(e) => {
            proof {
                lemma_error_rules_out(tv, e, true, rows, cols);
            }
            Err(e)
        },
    }
}

} // verus!
