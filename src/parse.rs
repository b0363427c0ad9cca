use vstd::prelude::*;

use crate::board::{flatten_rows, is_square, valid_cells, Board, BoardError, MAX_SIDE};

verus! {

/// ASCII whitespace: space, tab, line feed, vertical tab, form feed, carriage return.
pub open spec fn is_space(b: u8) -> bool {
    b == 32 || (9 <= b && b <= 13)
}

pub open spec fn is_digit(b: u8) -> bool {
    48 <= b && b <= 57
}

/// State of the puzzle-file lexer after a prefix of the input: the finished
/// lines of numbers, the numbers of the current line, the number being read,
/// whether the rest of the line is a comment, and whether the input was refused.
pub struct LexState {
    pub lines: Seq<Seq<usize>>,
    pub cur: Seq<usize>,
    pub num: usize,
    pub in_num: bool,
    pub comment: bool,
    pub bad: bool,
}

pub open spec fn lex_start() -> LexState {
    LexState { lines: seq![], cur: seq![], num: 0, in_num: false, comment: false, bad: false }
}

/// Closes the number being read, if any.
pub open spec fn end_token(s: LexState) -> LexState {
    if s.in_num {
        LexState { cur: s.cur.push(s.num), num: 0, in_num: false, ..s }
    } else {
        s
    }
}

/// Closes the current line; a line without numbers is dropped.
pub open spec fn end_line(s: LexState) -> LexState {
    let t = end_token(s);
    if t.cur.len() > 0 {
        LexState { lines: t.lines.push(t.cur), cur: seq![], comment: false, ..t }
    } else {
        LexState { comment: false, ..t }
    }
}

/// One byte of input: `#` starts a comment that runs to the end of the line,
/// whitespace separates numbers, digits build a number; anything else, or a
/// number too large for `usize`, refuses the input.
pub open spec fn lex_step(s: LexState, b: u8) -> LexState {
    if s.bad {
        s
    } else if b == 10 {
        end_line(s)
    } else if s.comment {
        s
    } else if b == 35 {
        LexState { comment: true, ..end_token(s) }
    } else if is_space(b) {
        end_token(s)
    } else if is_digit(b) {
        if s.num * 10 + (b - 48) > usize::MAX {
            LexState { bad: true, ..s }
        } else {
            LexState { num: (s.num * 10 + (b - 48)) as usize, in_num: true, ..s }
        }
    } else {
        LexState { bad: true, ..s }
    }
}

/// Lexer state after the first `i` bytes.
pub open spec fn lex_upto(bytes: Seq<u8>, i: int) -> LexState
    decreases i,
{
    if i <= 0 {
        lex_start()
    } else {
        lex_step(lex_upto(bytes, i - 1), bytes[i - 1])
    }
}

/// The lines of numbers of a puzzle file, or `None` if it holds anything else.
pub open spec fn lex_spec(bytes: Seq<u8>) -> Option<Seq<Seq<usize>>> {
    let s = lex_upto(bytes, bytes.len() as int);
    if s.bad {
        None
    } else {
        Some(end_line(s).lines)
    }
}

/// Once refused, the input stays refused.
pub proof fn lemma_refusal_stays(bytes: Seq<u8>, i: int, k: int)
    requires
        0 <= i <= k,
        lex_upto(bytes, i).bad,
    ensures
        lex_upto(bytes, k).bad,
    decreases k - i,
{
    if k > i {
        lemma_refusal_stays(bytes, i, k - 1);
    }
}

/// Splits a puzzle file into its nonempty lines of numbers, dropping comments.
pub fn lex(bytes: &[u8]) -> (r: Option<Vec<Vec<usize>>>)
    ensures
        r matches Some(v) ==> lex_spec(bytes@) == Some(v@.map_values(|l: Vec<usize>| l@)),
        r is None ==> lex_spec(bytes@) is None,
{
    let mut lines: Vec<Vec<usize>> = Vec::new();
    let mut cur: Vec<usize> = Vec::new();
    let mut num: usize = 0;
    let mut in_num = false;
    let mut comment = false;
    let mut i: usize = 0;
    assert(lines@.map_values(|l: Vec<usize>| l@) =~= Seq::<Seq<usize>>::empty());
    assert(cur@ =~= Seq::<usize>::empty());
    while i < bytes.len()
        invariant
            i <= bytes@.len(),
            lex_upto(bytes@, i as int) == (LexState {
                lines: lines@.map_values(|l: Vec<usize>| l@),
                cur: cur@,
                num,
                in_num,
                comment,
                bad: false,
            }),
        decreases bytes.len() - i,
    {
        let b = bytes[i];
        let ghost ls = lines@.map_values(|l: Vec<usize>| l@);
        if b == 10 || (!comment && (b == 35 || b == 32 || (9 <= b && b <= 13))) {
            if in_num {
                cur.push(num);
                num = 0;
                in_num = false;
            }
            if b == 10 {
                if cur.len() > 0 {
                    let done = cur;
                    cur = Vec::new();
                    lines.push(done);
                    assert(lines@.map_values(|l: Vec<usize>| l@) =~= ls.push(done@));
                }
                comment = false;
            } else if b == 35 {
                comment = true;
            }
        } else if !comment {
            if 48 <= b && b <= 57 {
                let d = (b - 48) as usize;
                if num > (usize::MAX - d) / 10 {
                    assert(num * 10 + d > usize::MAX) by (nonlinear_arith)
                        requires
                            num > (usize::MAX - d) / 10,
                            d <= 9,
                    ;
                    proof {
                        lemma_refusal_stays(bytes@, i as int + 1, bytes@.len() as int);
                    }
                    return None;
                }
                assert(num * 10 + d <= usize::MAX) by (nonlinear_arith)
                    requires
                        num <= (usize::MAX - d) / 10,
                        d <= 9,
                ;
                num = num * 10 + d;
                in_num = true;
            } else {
                proof {
                    lemma_refusal_stays(bytes@, i as int + 1, bytes@.len() as int);
                }
                return None;
            }
        }
        i = i + 1;
    }
    let ghost s_end = lex_upto(bytes@, i as int);
    if in_num {
        cur.push(num);
    }
    let ghost ls = lines@.map_values(|l: Vec<usize>| l@);
    if cur.len() > 0 {
        let done = cur;
        lines.push(done);
        assert(lines@.map_values(|l: Vec<usize>| l@) =~= ls.push(done@));
    }
    Some(lines)
}

/// Side and row-major cells of the puzzle a file describes, if it is valid.
pub open spec fn puzzle_spec(bytes: Seq<u8>) -> Option<(nat, Seq<usize>)> {
    match lex_spec(bytes) {
        None => None,
        Some(ls) => {
            let rs = ls.drop_first();
            let n = rs.len();
            if ls.len() >= 1 && ls[0].len() == 1 && ls.len() - 1 == ls[0][0] && 1 <= n <= MAX_SIDE
                && is_square(rs) && valid_cells(n, flatten_rows(n, rs)) {
                Some((n, flatten_rows(n, rs)))
            } else {
                None
            }
        },
    }
}

/// Why a puzzle file was refused.
#[derive(Clone, Copy, Debug, PartialEq, Eq)]
pub enum ParseError {
    /// A character that is neither a digit, whitespace, nor part of a comment,
    /// or a number too large for `usize`.
    InvalidToken,
    /// No line holds a number.
    MissingSize,
    /// The first line does not hold exactly one number.
    BadSizeLine,
    /// The number of rows differs from the size.
    WrongRowCount,
    /// The rows do not form a valid grid.
    Board(BoardError),
}

/// Reads a puzzle file: its first line of numbers is the size `n`, then come
/// `n` rows of `n` numbers each. `#` starts a comment; lines without numbers
/// are skipped.
pub fn parse_puzzle(bytes: &[u8]) -> (r: Result<Board, ParseError>)
    ensures
        r is Ok <==> puzzle_spec(bytes@) is Some,
        r matches Ok(b) ==> b.wf() && puzzle_spec(bytes@) == Some((b.spec_side(), b@)),
        match lex_spec(bytes@) {
            None => r == Err::<Board, ParseError>(ParseError::InvalidToken),
            Some(ls) => if ls.len() == 0 {
                r == Err::<Board, ParseError>(ParseError::MissingSize)
            } else if ls[0].len() != 1 {
                r == Err::<Board, ParseError>(ParseError::BadSizeLine)
            } else if ls.len() - 1 != ls[0][0] {
                r == Err::<Board, ParseError>(ParseError::WrongRowCount)
            } else {
                let rs = ls.drop_first();
                let n = rs.len();
                &&& (r is Ok <==> 1 <= n <= MAX_SIDE && is_square(rs) && valid_cells(
                    n,
                    flatten_rows(n, rs),
                ))
                &&& (r matches Ok(b) ==> b.wf() && b.spec_side() == n && b@ == flatten_rows(n, rs))
                &&& (r matches Err(e) ==> e is Board)
            },
        },
{
    let mut lines = match lex(bytes) {
        None => {
            return Err(ParseError::InvalidToken);
        },
        Some(l) => l,
    };
    let ghost ls = lines@.map_values(|l: Vec<usize>| l@);
    if lines.len() == 0 {
        return Err(ParseError::MissingSize);
    }
    assert(ls[0] == lines@[0]@);
    if lines[0].len() != 1 {
        return Err(ParseError::BadSizeLine);
    }
    if lines.len() - 1 != lines[0][0] {
        return Err(ParseError::WrongRowCount);
    }
    lines.remove(0);
    assert(lines@.map_values(|l: Vec<usize>| l@) =~= ls.drop_first());
    match Board::from_rows(&lines) {
        Ok(b) => Ok(b),
        Err(e) => Err(ParseError::Board(e)),
    }
}

} // verus!
