use crate::num::sp_usize;
use crate::parse::{MoveError, PositionParseError};
use crate::types::{BasicMove, Move, Pgn4V, Position, QTurnV, TurnV};
use vstd::prelude::*;

verus! {

/// The characters with the Unicode `White_Space` property.
pub open spec fn is_ws(c: char) -> bool {
    ||| c == ' '
    ||| c == '\u{9}'
    ||| c == '\u{a}'
    ||| c == '\u{b}'
    ||| c == '\u{c}'
    ||| c == '\u{d}'
    ||| c == '\u{85}'
    ||| c == '\u{a0}'
    ||| c == '\u{1680}'
    ||| ('\u{2000}' <= c && c <= '\u{200a}')
    ||| c == '\u{2028}'
    ||| c == '\u{2029}'
    ||| c == '\u{202f}'
    ||| c == '\u{205f}'
    ||| c == '\u{3000}'
}

/// A move token ends at whitespace or at one of the grammar's own marks.
pub open spec fn is_boundary(c: char) -> bool {
    is_ws(c) || c == '.' || c == '{' || c == '(' || c == ')'
}

pub open spec fn is_lower(c: char) -> bool {
    'a' <= c && c <= 'z'
}

/// The input with its leading whitespace removed.
pub open spec fn skip_ws(s: Seq<char>) -> Seq<char>
    decreases s.len(),
{
    if s.len() > 0 && is_ws(s[0]) {
        skip_ws(s.drop_first())
    } else {
        s
    }
}

/// The first index at or after `i` holding `c`.
pub open spec fn find_from(s: Seq<char>, c: char, i: int) -> Option<int>
    decreases s.len() - i,
{
    if i < 0 || i >= s.len() {
        None
    } else if s[i] == c {
        Some(i)
    } else {
        find_from(s, c, i + 1)
    }
}

/// The first index at or after `i` holding whitespace.
pub open spec fn find_ws_from(s: Seq<char>, i: int) -> Option<int>
    decreases s.len() - i,
{
    if i < 0 || i >= s.len() {
        None
    } else if is_ws(s[i]) {
        Some(i)
    } else {
        find_ws_from(s, i + 1)
    }
}

/// The first index at or after `i` holding a token boundary.
pub open spec fn find_boundary_from(s: Seq<char>, i: int) -> Option<int>
    decreases s.len() - i,
{
    if i < 0 || i >= s.len() {
        None
    } else if is_boundary(s[i]) {
        Some(i)
    } else {
        find_boundary_from(s, i + 1)
    }
}

/// How many copies of `c` end the string.
pub open spec fn count_trailing(s: Seq<char>, c: char) -> nat
    decreases s.len(),
{
    if s.len() > 0 && s.last() == c {
        1 + count_trailing(s.drop_last(), c)
    } else {
        0
    }
}

/// A failure while reading turn text, in the parser's three shapes, each
/// holding how many characters of the input were left at the failure.
pub ghost enum ParseFailV {
    /// A malformed turn or quarter-turn.
    Other(int),
    /// A move token that failed, with its error and the token's characters.
    MoveErr(MoveError, Seq<char>, int),
    /// A malformed brace-delimited description.
    Description(int),
}

/// A failure while reading a whole document.
pub ghost enum DocFailV {
    /// A malformed header, with how many characters followed its '['.
    BadTagged(int),
    /// A failure in the turn text.
    Bad(ParseFailV),
}

/// A whole token as a square: file letter 'a'..'n', then a positive decimal
/// rank of at most 14, the token being two or three characters long. Each
/// violation gives its own error.
pub open spec fn sp_position(s: Seq<char>) -> Result<Position, PositionParseError> {
    if s.len() < 2 || s.len() > 3 {
        Err(PositionParseError::BadSize(s.len() as usize))
    } else if s[0] < 'a' || s[0] > 'n' {
        Err(PositionParseError::ColumnInvalid(s[0]))
    } else {
        match sp_usize(s.drop_first()) {
            None => Err(PositionParseError::RowNotNumber),
            Some(row1) => if row1 == 0 || row1 > 14 {
                Err(PositionParseError::RowInvalid(row1))
            } else {
                Ok(Position { col: (s[0] as usize - 97) as usize, row: (row1 - 1) as usize })
            },
        }
    }
}

/// A whole token as a basic move: optional piece letter (a leading lowercase
/// character means a pawn), trailing '#'s then '+'s stripped, an optional
/// "=<letter>" promotion suffix, and two squares around the first '-' or
/// 'x'. A failing square gives `PositionInvalid` with the square's error,
/// read before the captured piece; every other violation gives `Other`.
pub open spec fn sp_basic(s: Seq<char>) -> Result<BasicMove, MoveError> {
    if s.len() == 0 {
        Err(MoveError::Other)
    } else {
        let piece = if is_lower(s[0]) {
            'P'
        } else {
            s[0]
        };
        let pieceless = if is_lower(s[0]) {
            s
        } else {
            s.drop_first()
        };
        let mates = count_trailing(pieceless, '#');
        let mateless = pieceless.take(pieceless.len() - mates);
        let checks = count_trailing(mateless, '+');
        let checkless = mateless.take(mateless.len() - checks);
        let promo = match find_from(checkless, '=', 0) {
            Some(e) => {
                if checkless.len() - e == 2 {
                    Some((checkless.take(e), Some(checkless[e + 1])))
                } else {
                    None
                }
            },
            None => Some((checkless, None::<char>)),
        };
        match promo {
            None => Err(MoveError::Other),
            Some((two_pos, promotion)) => {
                let loc = match find_from(two_pos, '-', 0) {
                    Some(d) => Some(d),
                    None => find_from(two_pos, 'x', 0),
                };
                match loc {
                    None => Err(MoveError::Other),
                    Some(d) => {
                        let left = two_pos.take(d);
                        let capture = two_pos[d] == 'x';
                        let right0 = two_pos.skip(d + 1);
                        match sp_position(left) {
                            Err(e) => Err(MoveError::PositionInvalid(e)),
                            Ok(from) => {
                                let cap_right = if !capture {
                                    Some((None::<char>, right0))
                                } else if right0.len() == 0 {
                                    None
                                } else if is_lower(right0[0]) {
                                    Some((Some('P'), right0))
                                } else {
                                    Some((Some(right0[0]), right0.drop_first()))
                                };
                                match cap_right {
                                    None => Err(MoveError::Other),
                                    Some((captured, right)) => match sp_position(right) {
                                        Err(e) => Err(MoveError::PositionInvalid(e)),
                                        Ok(to) => Ok(
                                            BasicMove {
                                                piece,
                                                from,
                                                captured,
                                                to,
                                                promotion,
                                                checks: checks as usize,
                                                mates: mates as usize,
                                            },
                                        ),
                                    },
                                }
                            },
                        }
                    },
                }
            },
        }
    }
}

/// A whole token as a move: the one-letter elimination marks, castling with
/// optional trailing '#'s — a token starting "O-O" that is no castle gives
/// the distinct `Castle` error — or a basic move.
pub open spec fn sp_move(s: Seq<char>) -> Result<Move, MoveError> {
    if s =~= seq!['#'] {
        Ok(Move::Checkmate)
    } else if s =~= seq!['S'] {
        Ok(Move::Stalemate)
    } else if s =~= seq!['T'] {
        Ok(Move::Timeout)
    } else if s =~= seq!['R'] {
        Ok(Move::Resign)
    } else if s.len() >= 3 && s[0] == 'O' && s[1] == '-' && s[2] == 'O' {
        let mates = count_trailing(s, '#');
        let mateless = s.take(s.len() - mates);
        if mateless =~= seq!['O', '-', 'O', '-', 'O'] {
            Ok(Move::QueenCastle(mates as usize))
        } else if mateless =~= seq!['O', '-', 'O'] {
            Ok(Move::KingCastle(mates as usize))
        } else {
            Err(MoveError::Castle)
        }
    } else {
        match sp_basic(s) {
            Ok(b) => Ok(Move::Normal(b)),
            Err(e) => Err(e),
        }
    }
}

/// A whole token as a main move with an optional one-letter modifier: a
/// two-character token always splits, a longer one splits off a final 'R',
/// 'S' or 'T' not preceded by '='. The main part's error is reported before
/// the modifier's.
pub open spec fn sp_movepair(s: Seq<char>) -> Result<(Move, Option<Move>), MoveError> {
    let break_index: int = if s.len() == 2 {
        1
    } else if s.len() > 2 {
        if (s.last() == 'R' || s.last() == 'S' || s.last() == 'T') && s[s.len() - 2] != '=' {
            s.len() - 1
        } else {
            0
        }
    } else {
        0
    };
    if break_index == 0 {
        match sp_move(s) {
            Ok(m) => Ok((m, None)),
            Err(e) => Err(e),
        }
    } else {
        match sp_move(s.take(break_index)) {
            Err(e) => Err(e),
            Ok(m) => match sp_move(s.skip(break_index)) {
                Err(e) => Err(e),
                Ok(md) => Ok((m, Some(md))),
            },
        }
    }
}

/// One quarter-turn: the move token, an optional " { description }", then
/// any number of parenthesized alternatives. Returns the rest of the input.
/// A failing token gives `MoveErr` with the token and the characters left
/// after it; a malformed description gives `Description`.
pub open spec fn sp_quarter(s: Seq<char>) -> Result<(QTurnV, Seq<char>), ParseFailV>
    decreases s.len(), 3int,
{
    let t = skip_ws(s);
    if t.len() == 0 {
        Err(ParseFailV::Other(0))
    } else {
        let split = match find_boundary_from(t, 0) {
            Some(j) => j,
            None => if s.len() - 1 < t.len() {
                s.len() - 1
            } else {
                t.len() as int
            },
        };
        let tok = t.take(split);
        let rest0 = t.skip(split);
        match sp_movepair(tok) {
            Err(m) => Err(ParseFailV::MoveErr(m, tok, rest0.len() as int)),
            Ok((main, modifier)) => {
                let rest1 = skip_ws(rest0);
                let desc = if rest1.len() > 0 && rest1[0] == '{' {
                    match find_from(rest1, '}', 0) {
                        None => None,
                        Some(e) => {
                            let all = rest1.take(e + 1);
                            if all.len() >= 4 && all[1] == ' ' && all[e - 1] == ' ' {
                                Some((Some(all.subrange(2, e - 1)), rest1.skip(e + 1)))
                            } else {
                                None
                            }
                        },
                    }
                } else {
                    Some((None::<Seq<char>>, rest1))
                };
                match desc {
                    None => Err(ParseFailV::Description(rest1.len() as int)),
                    Some((description, rest2)) => {
                        if rest2.len() <= s.len() {
                            match sp_alternatives(rest2) {
                                Err(f) => Err(f),
                                Ok((alternatives, rest3)) => Ok(
                                    (
                                        QTurnV {
                                            main,
                                            modifier,
                                            extra_stalemate: false,
                                            description,
                                            alternatives,
                                        },
                                        rest3,
                                    ),
                                ),
                            }
                        } else {
                            Err(ParseFailV::Other(0))
                        }
                    },
                }
            },
        }
    }
}

/// Zero or more parenthesized alternatives, each holding at least one turn,
/// whitespace allowed before each '('.
pub open spec fn sp_alternatives(s: Seq<char>) -> Result<(Seq<Seq<TurnV>>, Seq<char>), ParseFailV>
    decreases s.len(), 2int,
{
    let t = skip_ws(s);
    if t.len() > 0 && t[0] == '(' {
        if t.len() <= s.len() {
            match sp_alt_turns(t.drop_first()) {
                Err(f) => Err(f),
                Ok((turns, rest)) => if turns.len() < 1 {
                    Err(ParseFailV::Other(t.len() as int))
                } else if rest.len() < s.len() {
                    match sp_alternatives(rest) {
                        Err(f) => Err(f),
                        Ok((more, fin)) => Ok((seq![turns] + more, fin)),
                    }
                } else {
                    Err(ParseFailV::Other(0))
                },
            }
        } else {
            Err(ParseFailV::Other(0))
        }
    } else {
        Ok((Seq::empty(), s))
    }
}

/// The turns of one alternative, up to and including the closing ')', which
/// is followed by a whitespace skip.
pub open spec fn sp_alt_turns(s: Seq<char>) -> Result<(Seq<TurnV>, Seq<char>), ParseFailV>
    decreases s.len(), 6int,
{
    if s.len() > 0 && s[0] == ')' {
        Ok((Seq::empty(), skip_ws(s.drop_first())))
    } else {
        match sp_turn(s) {
            Err(f) => Err(f),
            Ok((t, rest)) => if rest.len() < s.len() {
                match sp_alt_turns(rest) {
                    Err(f) => Err(f),
                    Ok((more, fin)) => Ok((seq![t] + more, fin)),
                }
            } else {
                Err(ParseFailV::Other(0))
            },
        }
    }
}

/// One turn: an optional number, '.', an optional second '.', one
/// quarter-turn, then up to three more, each after a "..". A missing dot or
/// a bad number gives `Other` with the trimmed input's length; a fifth
/// quarter-turn gives `Other` with the length measured before the first.
pub open spec fn sp_turn(s: Seq<char>) -> Result<(TurnV, Seq<char>), ParseFailV>
    decreases s.len(), 5int,
{
    let t = skip_ws(s);
    match find_from(t, '.', 0) {
        None => Err(ParseFailV::Other(t.len() as int)),
        Some(d) => {
            let number = if d == 0 {
                Some(0usize)
            } else {
                sp_usize(t.take(d))
            };
            match number {
                None => Err(ParseFailV::Other(t.len() as int)),
                Some(n) => {
                    let after = t.skip(d + 1);
                    let double_dot = after.len() > 0 && after[0] == '.';
                    let rest0 = if double_dot {
                        after.drop_first()
                    } else {
                        after
                    };
                    if rest0.len() < s.len() {
                        match sp_quarter(rest0) {
                            Err(f) => Err(f),
                            Ok((q1, r1)) => {
                                let r1t = skip_ws(r1);
                                if r1t.len() <= s.len() {
                                    match sp_more_quarters(r1t, 1, rest0.len() as int) {
                                        Err(f) => Err(f),
                                        Ok((qs, rest)) => Ok(
                                            (
                                                TurnV {
                                                    number: n,
                                                    double_dot,
                                                    turns: seq![q1] + qs,
                                                },
                                                rest,
                                            ),
                                        ),
                                    }
                                } else {
                                    Err(ParseFailV::Other(0))
                                }
                            },
                        }
                    } else {
                        Err(ParseFailV::Other(0))
                    }
                },
            }
        },
    }
}

/// Further ".."-prefixed quarter-turns of the same turn, `k` of them already
/// taken; a fifth quarter-turn in one turn fails with `Other` holding `fe`,
/// the characters left before the turn's first quarter-turn.
pub open spec fn sp_more_quarters(s: Seq<char>, k: nat, fe: int) -> Result<
    (Seq<QTurnV>, Seq<char>),
    ParseFailV,
>
    decreases s.len(), 4int,
{
    if s.len() >= 2 && s[0] == '.' && s[1] == '.' {
        if k >= 4 {
            Err(ParseFailV::Other(fe))
        } else {
            match sp_quarter(s.skip(2)) {
                Err(f) => Err(f),
                Ok((q, r)) => {
                    let rt = skip_ws(r);
                    if rt.len() < s.len() {
                        match sp_more_quarters(rt, k + 1, fe) {
                            Err(f) => Err(f),
                            Ok((more, fin)) => Ok((seq![q] + more, fin)),
                        }
                    } else {
                        Err(ParseFailV::Other(0))
                    }
                },
            }
        }
    } else {
        Ok((Seq::empty(), s))
    }
}

/// Zero or more header lines `[label "value"]`, whitespace skipped after
/// each; the label ends at the first whitespace. A malformed header fails
/// with the number of characters after its '['.
pub open spec fn sp_headers(s: Seq<char>) -> Result<(Seq<(Seq<char>, Seq<char>)>, Seq<char>), int>
    decreases s.len(),
{
    if s.len() > 0 && s[0] == '[' {
        let r = s.drop_first();
        let label_end = match find_ws_from(r, 0) {
            Some(i) => i,
            None => 0,
        };
        let label = r.take(label_end);
        let m = skip_ws(r.skip(label_end));
        if m.len() > 0 && m[0] == '"' {
            let v = m.drop_first();
            match find_from(v, '"', 0) {
                None => Err(r.len() as int),
                Some(e) => {
                    let value = v.take(e);
                    let end = v.skip(e);
                    if end.len() >= 2 && end[1] == ']' {
                        let rest = skip_ws(end.skip(2));
                        if rest.len() < s.len() {
                            match sp_headers(rest) {
                                Err(left) => Err(left),
                                Ok((more, fin)) => Ok((seq![(label, value)] + more, fin)),
                            }
                        } else {
                            Err(0)
                        }
                    } else {
                        Err(r.len() as int)
                    }
                },
            }
        } else {
            Err(r.len() as int)
        }
    } else {
        Ok((Seq::empty(), s))
    }
}

/// The turns of a document, read until the input is exhausted.
pub open spec fn sp_doc_turns(s: Seq<char>) -> Result<Seq<TurnV>, ParseFailV>
    decreases s.len(),
{
    if s.len() == 0 {
        Ok(Seq::empty())
    } else {
        match sp_turn(s) {
            Err(f) => Err(f),
            Ok((t, rest)) => if rest.len() < s.len() {
                match sp_doc_turns(rest) {
                    Err(f) => Err(f),
                    Ok(more) => Ok(seq![t] + more),
                }
            } else {
                Err(ParseFailV::Other(0))
            },
        }
    }
}

/// A whole document: headers, then turns.
pub open spec fn sp_document(s: Seq<char>) -> Result<Pgn4V, DocFailV> {
    match sp_headers(s) {
        Err(left) => Err(DocFailV::BadTagged(left)),
        Ok((bracketed, rest)) => match sp_doc_turns(rest) {
            Err(f) => Err(DocFailV::Bad(f)),
            Ok(turns) => Ok(Pgn4V { bracketed, turns }),
        },
    }
}

} // verus!
