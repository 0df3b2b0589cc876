use crate::grammar::{
    count_trailing, find_boundary_from, find_from, find_ws_from, is_boundary, is_ws, skip_ws,
    sp_alt_turns, sp_alternatives, sp_basic, sp_doc_turns, sp_document, sp_headers,
    sp_more_quarters, sp_move, sp_movepair, sp_position, sp_quarter, sp_turn, DocFailV, ParseFailV,
};
use crate::num::{parse_usize, sp_usize};
use crate::types::{
    bm_wf, move_wf, pgn_v_wf, pos_wf, qturn_v_wf, turn_v_wf, turns_v_wf, view_alts, view_headers,
    view_pgn, view_qturn, view_qturns, view_turn, view_turns, BasicMove, Move, Pgn4V, Position, QTurnV,
    QuarterTurn, Turn, TurnV, PGN4,
};
use crate::write::chars_to_string;
use vstd::prelude::*;
use vstd::slice::{slice_index_get, slice_subrange};

verus! {

/// The ways a square can fail to parse.
#[derive(PartialEq, Eq, Clone, Copy, Debug)]
pub enum PositionParseError {
    /// The first character is not a file letter 'a'..'n'.
    ColumnInvalid(char),
    /// The rank is 0 or above 14.
    RowInvalid(usize),
    /// A square is written in two or three characters.
    BadSize(usize),
    /// The rank is not a number that fits.
    RowNotNumber,
}

/// The ways a move token can fail to parse.
#[derive(PartialEq, Clone, Debug)]
pub enum MoveError {
    /// The move is malformed.
    Other,
    /// The token starts with "O-O" but is no castle.
    Castle,
    /// A square inside the move failed to parse.
    PositionInvalid(PositionParseError),
}

pub(crate) fn char_is_ws(c: char) -> (r: bool)
    ensures
        r == is_ws(c),
{
    c == ' ' || c == '\u{9}' || c == '\u{a}' || c == '\u{b}' || c == '\u{c}' || c == '\u{d}'
        || c == '\u{85}' || c == '\u{a0}' || c == '\u{1680}' || ('\u{2000}' <= c && c
        <= '\u{200a}') || c == '\u{2028}' || c == '\u{2029}' || c == '\u{202f}' || c == '\u{205f}'
        || c == '\u{3000}'
}

pub(crate) fn char_is_boundary(c: char) -> (r: bool)
    ensures
        r == is_boundary(c),
{
    char_is_ws(c) || c == '.' || c == '{' || c == '(' || c == ')'
}

/// Remove leading whitespace.
pub(crate) fn trim_start<'a>(s: &'a [char]) -> (r: &'a [char])
    ensures
        r@ == skip_ws(s@),
        r@.len() <= s@.len(),
{
    let mut i: usize = 0;
    proof {
        assert(s@.skip(0) =~= s@);
    }
    while i < s.len() && char_is_ws(*slice_index_get(s, i))
        invariant
            i <= s@.len(),
            skip_ws(s@) == skip_ws(s@.skip(i as int)),
        decreases s@.len() - i,
    {
        proof {
            assert(s@.skip(i as int).drop_first() =~= s@.skip(i + 1));
            assert(s@.skip(i as int)[0] == s@[i as int]);
        }
        i += 1;
    }
    proof {
        if i < s@.len() {
            assert(s@.skip(i as int)[0] == s@[i as int]);
            assert(skip_ws(s@.skip(i as int)) == s@.skip(i as int));
        } else {
            assert(s@.skip(i as int) =~= Seq::<char>::empty());
            assert(skip_ws(s@.skip(i as int)) == s@.skip(i as int));
        }
    }
    let r = slice_subrange(s, i, s.len());
    proof {
        assert(r@ =~= s@.skip(i as int));
    }
    r
}

/// The first index holding `c`, if any.
pub(crate) fn find_char(s: &[char], c: char) -> (r: Option<usize>)
    ensures
        match r {
            Some(i) => find_from(s@, c, 0) == Some(i as int) && i < s@.len() && s@[i as int] == c,
            None => find_from(s@, c, 0) is None,
        },
{
    let mut i: usize = 0;
    while i < s.len()
        invariant
            i <= s@.len(),
            find_from(s@, c, 0) == find_from(s@, c, i as int),
        decreases s@.len() - i,
    {
        if *slice_index_get(s, i) == c {
            return Some(i);
        }
        i += 1;
    }
    None
}

/// The first index holding whitespace, if any.
pub(crate) fn find_ws(s: &[char]) -> (r: Option<usize>)
    ensures
        match r {
            Some(i) => find_ws_from(s@, 0) == Some(i as int) && i < s@.len(),
            None => find_ws_from(s@, 0) is None,
        },
{
    let mut i: usize = 0;
    while i < s.len()
        invariant
            i <= s@.len(),
            find_ws_from(s@, 0) == find_ws_from(s@, i as int),
        decreases s@.len() - i,
    {
        if char_is_ws(*slice_index_get(s, i)) {
            return Some(i);
        }
        i += 1;
    }
    None
}

/// The first index holding a token boundary, if any.
pub(crate) fn find_boundary(s: &[char]) -> (r: Option<usize>)
    ensures
        match r {
            Some(i) => find_boundary_from(s@, 0) == Some(i as int) && i < s@.len(),
            None => find_boundary_from(s@, 0) is None,
        },
{
    let mut i: usize = 0;
    while i < s.len()
        invariant
            i <= s@.len(),
            find_boundary_from(s@, 0) == find_boundary_from(s@, i as int),
        decreases s@.len() - i,
    {
        if char_is_boundary(*slice_index_get(s, i)) {
            return Some(i);
        }
        i += 1;
    }
    None
}

/// How many copies of `c` end the slice.
pub(crate) fn trailing(s: &[char], c: char) -> (n: usize)
    ensures
        n as nat == count_trailing(s@, c),
        n <= s@.len(),
{
    let len = s.len();
    let mut i: usize = len;
    let mut n: usize = 0;
    proof {
        assert(s@.take(len as int) =~= s@);
    }
    while i > 0 && *slice_index_get(s, i - 1) == c
        invariant
            i + n == len,
            len == s@.len(),
            count_trailing(s@, c) == n + count_trailing(s@.take(i as int), c),
        decreases i,
    {
        proof {
            let t = s@.take(i as int);
            assert(t.last() == s@[i - 1]);
            assert(t.drop_last() =~= s@.take(i - 1));
        }
        i -= 1;
        n += 1;
    }
    proof {
        let t = s@.take(i as int);
        if i > 0 {
            assert(t.last() == s@[i - 1]);
        }
        assert(count_trailing(t, c) == 0);
    }
    n
}

/// Parse a whole token as a square.
pub(crate) fn x_position(s: &[char]) -> (r: Result<Position, PositionParseError>)
    ensures
        match r {
            Ok(p) => sp_position(s@) == Ok::<Position, PositionParseError>(p) && pos_wf(p),
            Err(e) => sp_position(s@) == Err::<Position, PositionParseError>(e),
        },
{
    let len = s.len();
    if len < 2 || len > 3 {
        return Err(PositionParseError::BadSize(len));
    }
    let c = *slice_index_get(s, 0);
    if c < 'a' || c > 'n' {
        return Err(PositionParseError::ColumnInvalid(c));
    }
    let digits = slice_subrange(s, 1, len);
    proof {
        assert(digits@ =~= s@.drop_first());
    }
    let row1 = match parse_usize(digits) {
        Some(v) => v,
        None => {
            return Err(PositionParseError::RowNotNumber);
        },
    };
    if row1 == 0 || row1 > 14 {
        return Err(PositionParseError::RowInvalid(row1));
    }
    let col = (c as usize) - 97;
    proof {
        assert('a' as int == 97 && 'n' as int == 110);
    }
    Ok(Position { col, row: row1 - 1 })
}

/// Parse a whole token as a basic move.
pub(crate) fn x_basic(s: &[char]) -> (r: Result<BasicMove, MoveError>)
    ensures
        match r {
            Ok(b) => sp_basic(s@) == Ok::<BasicMove, MoveError>(b) && bm_wf(b),
            Err(e) => sp_basic(s@) == Err::<BasicMove, MoveError>(e),
        },
{
    if s.len() == 0 {
        return Err(MoveError::Other);
    }
    let first = *slice_index_get(s, 0);
    let lower = 'a' <= first && first <= 'z';
    let piece = if lower {
        'P'
    } else {
        first
    };
    let pieceless = if lower {
        s
    } else {
        slice_subrange(s, 1, s.len())
    };
    proof {
        if !lower {
            assert(pieceless@ =~= s@.drop_first());
        }
    }
    let mates = trailing(pieceless, '#');
    let mateless = slice_subrange(pieceless, 0, pieceless.len() - mates);
    proof {
        assert(mateless@ =~= pieceless@.take(pieceless@.len() - count_trailing(pieceless@, '#')));
    }
    let checks = trailing(mateless, '+');
    let checkless = slice_subrange(mateless, 0, mateless.len() - checks);
    proof {
        assert(checkless@ =~= mateless@.take(mateless@.len() - count_trailing(mateless@, '+')));
    }
    let (two_pos, promotion): (&[char], Option<char>) = match find_char(checkless, '=') {
        Some(e) => {
            if checkless.len() - e != 2 {
                return Err(MoveError::Other);
            }
            let p = *slice_index_get(checkless, e + 1);
            let left_over = slice_subrange(checkless, 0, e);
            proof {
                assert(left_over@ =~= checkless@.take(e as int));
            }
            (left_over, Some(p))
        },
        None => (checkless, None),
    };
    let loc = match find_char(two_pos, '-') {
        Some(d) => d,
        None => {
            match find_char(two_pos, 'x') {
                Some(x) => x,
                None => {
                    return Err(MoveError::Other);
                },
            }
        },
    };
    let left = slice_subrange(two_pos, 0, loc);
    let mid = *slice_index_get(two_pos, loc);
    let right0 = slice_subrange(two_pos, loc + 1, two_pos.len());
    proof {
        assert(left@ =~= two_pos@.take(loc as int));
        assert(right0@ =~= two_pos@.skip(loc + 1));
    }
    let capture = mid == 'x';
    let from = match x_position(left) {
        Ok(p) => p,
        Err(e) => {
            return Err(MoveError::PositionInvalid(e));
        },
    };
    let (captured, right): (Option<char>, &[char]) = if !capture {
        (None, right0)
    } else {
        if right0.len() == 0 {
            return Err(MoveError::Other);
        }
        let rc = *slice_index_get(right0, 0);
        if 'a' <= rc && rc <= 'z' {
            (Some('P'), right0)
        } else {
            let rest = slice_subrange(right0, 1, right0.len());
            proof {
                assert(rest@ =~= right0@.drop_first());
            }
            (Some(rc), rest)
        }
    };
    let to = match x_position(right) {
        Ok(p) => p,
        Err(e) => {
            return Err(MoveError::PositionInvalid(e));
        },
    };
    Ok(BasicMove { piece, from, captured, to, promotion, checks, mates })
}

/// Parse a whole token as a move.
pub(crate) fn x_move(s: &[char]) -> (r: Result<Move, MoveError>)
    ensures
        match r {
            Ok(m) => sp_move(s@) == Ok::<Move, MoveError>(m) && crate::types::move_wf(m),
            Err(e) => sp_move(s@) == Err::<Move, MoveError>(e),
        },
{
    if s.len() == 1 {
        let c = *slice_index_get(s, 0);
        if c == '#' {
            proof {
                assert(s@ =~= seq!['#']);
            }
            return Ok(Move::Checkmate);
        }
        if c == 'S' {
            proof {
                assert(s@ =~= seq!['S']);
            }
            return Ok(Move::Stalemate);
        }
        if c == 'T' {
            proof {
                assert(s@ =~= seq!['T']);
            }
            return Ok(Move::Timeout);
        }
        if c == 'R' {
            proof {
                assert(s@ =~= seq!['R']);
            }
            return Ok(Move::Resign);
        }
    }
    proof {
        if s@.len() == 1 {
            assert(s@ =~= seq![s@[0]]);
        }
    }
    if s.len() >= 3 && *slice_index_get(s, 0) == 'O' && *slice_index_get(s, 1) == '-'
        && *slice_index_get(s, 2) == 'O' {
        let mates = trailing(s, '#');
        let rest = s.len() - mates;
        if rest == 5 && *slice_index_get(s, 3) == '-' && *slice_index_get(s, 4) == 'O' {
            proof {
                assert(s@.take(5) =~= seq!['O', '-', 'O', '-', 'O']);
            }
            return Ok(Move::QueenCastle(mates));
        }
        if rest == 3 {
            proof {
                assert(s@.take(3) =~= seq!['O', '-', 'O']);
            }
            return Ok(Move::KingCastle(mates));
        }
        proof {
            let mateless = s@.take(s@.len() - count_trailing(s@, '#'));
            assert(mateless.len() != 5 || mateless[3] != '-' || mateless[4] != 'O' || mateless.len()
                != 3);
            if mateless.len() == 5 && mateless[3] == '-' && mateless[4] == 'O' {
                assert(false);
            }
            assert(!(mateless =~= seq!['O', '-', 'O', '-', 'O']));
            assert(!(mateless =~= seq!['O', '-', 'O']));
        }
        return Err(MoveError::Castle);
    }
    match x_basic(s) {
        Ok(b) => Ok(Move::Normal(b)),
        Err(e) => Err(e),
    }
}

/// Parse a whole token as a main move with an optional modifier.
pub(crate) fn x_movepair(s: &[char]) -> (r: Result<(Move, Option<Move>), MoveError>)
    ensures
        match r {
            Ok((m, md)) => sp_movepair(s@) == Ok::<(Move, Option<Move>), MoveError>((m, md))
                && crate::types::move_wf(m) && (match md {
                Some(x) => crate::types::move_wf(x),
                None => true,
            }),
            Err(e) => sp_movepair(s@) == Err::<(Move, Option<Move>), MoveError>(e),
        },
{
    let len = s.len();
    let break_index: usize = if len == 2 {
        1
    } else if len > 2 {
        let last = *slice_index_get(s, len - 1);
        let pre = *slice_index_get(s, len - 2);
        if (last == 'R' || last == 'S' || last == 'T') && pre != '=' {
            len - 1
        } else {
            0
        }
    } else {
        0
    };
    if break_index == 0 {
        match x_move(s) {
            Ok(m) => Ok((m, None)),
            Err(e) => Err(e),
        }
    } else {
        let head = slice_subrange(s, 0, break_index);
        let tail = slice_subrange(s, break_index, len);
        proof {
            assert(head@ =~= s@.take(break_index as int));
            assert(tail@ =~= s@.skip(break_index as int));
        }
        let m = match x_move(head) {
            Ok(m) => m,
            Err(e) => {
                return Err(e);
            },
        };
        match x_move(tail) {
            Ok(md) => Ok((m, Some(md))),
            Err(e) => Err(e),
        }
    }
}

/// The characters of a string, one by one.
pub(crate) fn str_chars(s: &str) -> (v: Vec<char>)
    ensures
        v@ == s@,
{
    let n = s.unicode_len();
    let mut v: Vec<char> = Vec::new();
    let mut i: usize = 0;
    while i < n
        invariant
            i <= n,
            n == s@.len(),
            v@ == s@.subrange(0, i as int),
        decreases n - i,
    {
        let c = s.get_char(i);
        v.push(c);
        proof {
            assert(s@.subrange(0, i + 1) =~= s@.subrange(0, i as int).push(s@[i as int]));
        }
        i += 1;
    }
    proof {
        assert(s@.subrange(0, s@.len() as int) =~= s@);
    }
    v
}

/// A fresh string holding the slice's characters.
pub(crate) fn slice_string(s: &[char]) -> (r: String)
    ensures
        r@ == s@,
{
    let v = vstd::slice::slice_to_vec(s);
    chars_to_string(&v)
}

/// A parse failure inside the turn text, with how many characters were left.
pub(crate) enum IntermediateError {
    Other(usize),
    MoveErr(MoveError, String, usize),
    Description(usize),
}

/// The failure a parse error reports, as the grammar states it.
pub(crate) open spec fn fail_view(ie: IntermediateError) -> ParseFailV {
    match ie {
        IntermediateError::Other(left) => ParseFailV::Other(left as int),
        IntermediateError::MoveErr(m, t, left) => ParseFailV::MoveErr(m, t@, left as int),
        IntermediateError::Description(left) => ParseFailV::Description(left as int),
    }
}

/// Parse one quarter-turn, returning it and the rest of the input.
#[verifier::rlimit(80)]
pub(crate) fn x_quarter<'a>(s: &'a [char]) -> (r: Result<
    (QuarterTurn, &'a [char]),
    IntermediateError,
>)
    ensures
        match r {
            Ok((q, rest)) => sp_quarter(s@) == Ok::<(QTurnV, Seq<char>), ParseFailV>(
                (view_qturn(q), rest@),
            ) && qturn_v_wf(view_qturn(q)) && rest@.len() < s@.len(),
            Err(ie) => sp_quarter(s@) == Err::<(QTurnV, Seq<char>), ParseFailV>(fail_view(ie)),
        },
    decreases s@.len(), 3int,
{
    let t = trim_start(s);
    if t.len() == 0 {
        proof {
            assert(sp_quarter(s@) == Err::<(QTurnV, Seq<char>), ParseFailV>(
                ParseFailV::Other(0),
            ));
        }
        return Err(IntermediateError::Other(t.len()));
    }
    let split: usize = match find_boundary(t) {
        Some(j) => j,
        None => {
            if s.len() - 1 < t.len() {
                s.len() - 1
            } else {
                t.len()
            }
        },
    };
    let tok = slice_subrange(t, 0, split);
    let rest0 = slice_subrange(t, split, t.len());
    proof {
        assert(tok@ =~= t@.take(split as int));
        assert(rest0@ =~= t@.skip(split as int));
    }
    let (main, modifier) = match x_movepair(tok) {
        Ok(p) => p,
        Err(m) => {
            let text = slice_string(tok);
            let ie = IntermediateError::MoveErr(m, text, rest0.len());
            proof {
                assert(sp_quarter(s@) == Err::<(QTurnV, Seq<char>), ParseFailV>(fail_view(ie)));
            }
            return Err(ie);
        },
    };
    proof {
        if split == 0 {
            assert(tok@.len() == 0);
            assert(sp_basic(tok@) == Err::<BasicMove, MoveError>(MoveError::Other));
            assert(sp_move(tok@) == Err::<Move, MoveError>(MoveError::Other));
            assert(sp_movepair(tok@) == Err::<(Move, Option<Move>), MoveError>(MoveError::Other));
            assert(false);
        }
    }
    let rest1 = trim_start(rest0);
    let (description, rest2): (Option<String>, &'a [char]) = if rest1.len() > 0 && *slice_index_get(
        rest1,
        0,
    ) == '{' {
        match find_char(rest1, '}') {
            None => {
                proof {
                    assert(sp_quarter(s@) == Err::<(QTurnV, Seq<char>), ParseFailV>(
                        ParseFailV::Description(rest1@.len() as int),
                    ));
                }
                return Err(IntermediateError::Description(rest1.len()));
            },
            Some(e) => {
                if e + 1 < 4 || *slice_index_get(rest1, 1) != ' ' || *slice_index_get(
                    rest1,
                    e - 1,
                ) != ' ' {
                    proof {
                        let all = rest1@.take(e + 1);
                        assert(all.len() == e + 1);
                        if all.len() >= 4 {
                            assert(all[1] == rest1@[1]);
                            assert(all[e - 1] == rest1@[e - 1]);
                        }
                        assert(sp_quarter(s@) == Err::<(QTurnV, Seq<char>), ParseFailV>(
                            ParseFailV::Description(rest1@.len() as int),
                        ));
                    }
                    return Err(IntermediateError::Description(rest1.len()));
                }
                let dslice = slice_subrange(rest1, 2, e - 1);
                let after = slice_subrange(rest1, e + 1, rest1.len());
                proof {
                    let all = rest1@.take(e + 1);
                    assert(all[1] == rest1@[1] && all[e - 1] == rest1@[e - 1]);
                    assert(dslice@ =~= all.subrange(2, e - 1));
                    assert(after@ =~= rest1@.skip(e + 1));
                }
                (Some(slice_string(dslice)), after)
            },
        }
    } else {
        (None, rest1)
    };
    let ghost desc_v: Option<Seq<char>> = match &description {
        Some(d) => Some(d@),
        None => None,
    };
    proof {
        assert(sp_quarter(s@) == (match sp_alternatives(rest2@) {
            Err(f) => Err::<(QTurnV, Seq<char>), ParseFailV>(f),
            Ok((alts2, rest3)) => Ok(
                (
                    QTurnV {
                        main,
                        modifier,
                        extra_stalemate: false,
                        description: desc_v,
                        alternatives: alts2,
                    },
                    rest3,
                ),
            ),
        }));
    }
    let mut alternatives: Vec<Vec<Turn>> = Vec::new();
    let mut cur: &'a [char] = rest2;
    loop
        invariant
            cur@.len() <= rest2@.len(),
            rest2@.len() < s@.len(),
            forall|k: int|
                0 <= k < alternatives@.len() ==> turns_v_wf(
                    view_turns(#[trigger] alternatives@[k]@),
                ),
            crate::types::move_wf(main),
            match modifier {
                Some(x) => crate::types::move_wf(x),
                None => true,
            },
            desc_v == (match &description {
                Some(d) => Some(d@),
                None => None::<Seq<char>>,
            }),
            sp_quarter(s@) == (match sp_alternatives(rest2@) {
                Err(f) => Err::<(QTurnV, Seq<char>), ParseFailV>(f),
                Ok((alts2, rest3)) => Ok(
                    (
                        QTurnV {
                            main,
                            modifier,
                            extra_stalemate: false,
                            description: desc_v,
                            alternatives: alts2,
                        },
                        rest3,
                    ),
                ),
            }),
            match sp_alternatives(cur@) {
                Ok((more, fin)) => sp_alternatives(rest2@) == Ok::<
                    (Seq<Seq<TurnV>>, Seq<char>),
                    ParseFailV,
                >((view_alts(alternatives@) + more, fin)),
                Err(f) => sp_alternatives(rest2@) == Err::<
                    (Seq<Seq<TurnV>>, Seq<char>),
                    ParseFailV,
                >(f),
            },
        decreases cur@.len(),
    {
        let ct = trim_start(cur);
        if !(ct.len() > 0 && *slice_index_get(ct, 0) == '(') {
            proof {
                assert(sp_alternatives(cur@) == Ok::<(Seq<Seq<TurnV>>, Seq<char>), ParseFailV>(
                    (Seq::<Seq<TurnV>>::empty(), cur@),
                ));
                assert(view_alts(alternatives@) + Seq::<Seq<TurnV>>::empty() =~= view_alts(
                    alternatives@,
                ));
                assert(sp_alternatives(rest2@) == Ok::<(Seq<Seq<TurnV>>, Seq<char>), ParseFailV>(
                    (view_alts(alternatives@), cur@),
                ));
            }
            let q = QuarterTurn {
                main,
                modifier,
                extra_stalemate: false,
                description,
                alternatives,
            };
            proof {
                crate::types::lemma_view_qturn_parts(q);
                assert(view_qturn(q) =~= QTurnV {
                    main: q.main,
                    modifier: q.modifier,
                    extra_stalemate: false,
                    description: desc_v,
                    alternatives: view_alts(q.alternatives@),
                });
                assert(qturn_v_wf(view_qturn(q)));
                assert(sp_quarter(s@) == Ok::<(QTurnV, Seq<char>), ParseFailV>(
                    (view_qturn(q), cur@),
                ));
            }
            return Ok((q, cur));
        }
        let inner = slice_subrange(ct, 1, ct.len());
        proof {
            assert(inner@ =~= ct@.drop_first());
        }
        let (turns, rest) = match x_alt_turns(inner) {
            Ok(p) => p,
            Err(e) => {
                proof {
                    assert(sp_alternatives(cur@) == Err::<(Seq<Seq<TurnV>>, Seq<char>), ParseFailV>(
                        fail_view(e),
                    ));
                }
                return Err(e);
            },
        };
        if turns.len() == 0 {
            proof {
                assert(view_turns(turns@).len() == 0);
                assert(sp_alternatives(cur@) == Err::<(Seq<Seq<TurnV>>, Seq<char>), ParseFailV>(
                    ParseFailV::Other(ct@.len() as int),
                ));
            }
            return Err(IntermediateError::Other(ct.len()));
        }
        let ghost old_alts = alternatives@;
        let ghost old_cur = cur@;
        alternatives.push(turns);
        cur = rest;
        proof {
            assert(view_alts(alternatives@) =~= view_alts(old_alts).push(view_turns(turns@)));
            match sp_alternatives(rest@) {
                Ok((more, fin)) => {
                    assert(sp_alternatives(old_cur) == Ok::<(Seq<Seq<TurnV>>, Seq<char>), ParseFailV>(
                        (seq![view_turns(turns@)] + more, fin),
                    ));
                    assert(view_alts(old_alts) + (seq![view_turns(turns@)] + more) =~= view_alts(
                        alternatives@,
                    ) + more);
                },
                Err(f) => {
                    assert(sp_alternatives(old_cur) == Err::<(Seq<Seq<TurnV>>, Seq<char>), ParseFailV>(
                        f,
                    ));
                },
            }
        }
    }
}

/// Parse the turns of one alternative, up to the closing parenthesis.
pub(crate) fn x_alt_turns<'a>(s: &'a [char]) -> (r: Result<
    (Vec<Turn>, &'a [char]),
    IntermediateError,
>)
    ensures
        match r {
            Ok((ts, rest)) => sp_alt_turns(s@) == Ok::<(Seq<TurnV>, Seq<char>), ParseFailV>(
                (view_turns(ts@), rest@),
            ) && turns_v_wf(view_turns(ts@)) && rest@.len() < s@.len(),
            Err(ie) => sp_alt_turns(s@) == Err::<(Seq<TurnV>, Seq<char>), ParseFailV>(
                fail_view(ie),
            ),
        },
    decreases s@.len(), 6int,
{
    let mut turns: Vec<Turn> = Vec::new();
    let mut cur: &'a [char] = s;
    loop
        invariant
            cur@.len() <= s@.len(),
            turns_v_wf(view_turns(turns@)),
            match sp_alt_turns(cur@) {
                Ok((more, fin)) => sp_alt_turns(s@) == Ok::<(Seq<TurnV>, Seq<char>), ParseFailV>(
                    (view_turns(turns@) + more, fin),
                ),
                Err(f) => sp_alt_turns(s@) == Err::<(Seq<TurnV>, Seq<char>), ParseFailV>(f),
            },
        decreases cur@.len(), 7int,
    {
        if cur.len() > 0 && *slice_index_get(cur, 0) == ')' {
            let after = slice_subrange(cur, 1, cur.len());
            proof {
                assert(after@ =~= cur@.drop_first());
            }
            let rest = trim_start(after);
            proof {
                assert(sp_alt_turns(cur@) == Ok::<(Seq<TurnV>, Seq<char>), ParseFailV>(
                    (Seq::<TurnV>::empty(), rest@),
                ));
                assert(view_turns(turns@) + Seq::<TurnV>::empty() =~= view_turns(turns@));
            }
            return Ok((turns, rest));
        }
        let (t, rest) = match x_turn(cur) {
            Ok(p) => p,
            Err(e) => {
                proof {
                    assert(sp_alt_turns(cur@) == Err::<(Seq<TurnV>, Seq<char>), ParseFailV>(
                        fail_view(e),
                    ));
                }
                return Err(e);
            },
        };
        let ghost old_turns = turns@;
        let ghost old_cur = cur@;
        turns.push(t);
        cur = rest;
        proof {
            assert(view_turns(turns@) =~= view_turns(old_turns).push(view_turn(t)));
            match sp_alt_turns(rest@) {
                Ok((more, fin)) => {
                    assert(sp_alt_turns(old_cur) == Ok::<(Seq<TurnV>, Seq<char>), ParseFailV>(
                        (seq![view_turn(t)] + more, fin),
                    ));
                    assert(view_turns(old_turns) + (seq![view_turn(t)] + more) =~= view_turns(
                        turns@,
                    ) + more);
                },
                Err(f) => {
                    assert(sp_alt_turns(old_cur) == Err::<(Seq<TurnV>, Seq<char>), ParseFailV>(f));
                },
            }
            assert(turns_v_wf(view_turns(turns@)));
        }
    }
}

/// Parse one turn, returning it and the rest of the input.
#[verifier::rlimit(80)]
pub(crate) fn x_turn<'a>(s: &'a [char]) -> (r: Result<(Turn, &'a [char]), IntermediateError>)
    ensures
        match r {
            Ok((t, rest)) => sp_turn(s@) == Ok::<(TurnV, Seq<char>), ParseFailV>(
                (view_turn(t), rest@),
            ) && turn_v_wf(view_turn(t)) && rest@.len() < s@.len(),
            Err(ie) => sp_turn(s@) == Err::<(TurnV, Seq<char>), ParseFailV>(fail_view(ie)),
        },
    decreases s@.len(), 5int,
{
    let t0 = trim_start(s);
    let t0_len = t0.len();
    let d = match find_char(t0, '.') {
        Some(d) => d,
        None => {
            proof {
                assert(sp_turn(s@) == Err::<(TurnV, Seq<char>), ParseFailV>(
                    ParseFailV::Other(t0@.len() as int),
                ));
            }
            return Err(IntermediateError::Other(t0.len()));
        },
    };
    let number: usize = if d == 0 {
        0
    } else {
        let numtok = slice_subrange(t0, 0, d);
        proof {
            assert(numtok@ =~= t0@.take(d as int));
        }
        match parse_usize(numtok) {
            Some(n) => n,
            None => {
                proof {
                    assert(sp_turn(s@) == Err::<(TurnV, Seq<char>), ParseFailV>(
                        ParseFailV::Other(t0@.len() as int),
                    ));
                }
                return Err(IntermediateError::Other(t0.len()));
            },
        }
    };
    let after = slice_subrange(t0, d + 1, t0_len);
    proof {
        assert(after@ =~= t0@.skip(d + 1));
    }
    let (double_dot, rest0): (bool, &'a [char]) = if after.len() > 0 && *slice_index_get(after, 0)
        == '.' {
        let r = slice_subrange(after, 1, after.len());
        proof {
            assert(r@ =~= after@.drop_first());
        }
        (true, r)
    } else {
        (false, after)
    };
    let for_error = rest0.len();
    proof {
        assert(sp_turn(s@) == (match sp_quarter(rest0@) {
            Err(f) => Err::<(TurnV, Seq<char>), ParseFailV>(f),
            Ok((q1v, r1v)) => {
                let r1tv = skip_ws(r1v);
                if r1tv.len() <= s@.len() {
                    match sp_more_quarters(r1tv, 1, rest0@.len() as int) {
                        Err(f) => Err(f),
                        Ok((qs, rest)) => Ok(
                            (TurnV { number, double_dot, turns: seq![q1v] + qs }, rest),
                        ),
                    }
                } else {
                    Err(ParseFailV::Other(0))
                }
            },
        }));
    }
    let (q1, r1) = match x_quarter(rest0) {
        Ok(p) => p,
        Err(e) => {
            return Err(e);
        },
    };
    let r1t = trim_start(r1);
    let mut turns: Vec<QuarterTurn> = Vec::new();
    turns.push(q1);
    let mut cur: &'a [char] = r1t;
    proof {
        assert(turns@.skip(1) =~= Seq::<QuarterTurn>::empty());
        assert(view_qturns(turns@.skip(1)) =~= Seq::<QTurnV>::empty());
    }
    loop
        invariant
            cur@.len() <= r1t@.len(),
            r1t@.len() < s@.len(),
            r1t@ == skip_ws(r1@),
            1 <= turns@.len(),
            turns@[0] == q1,
            qturn_v_wf(view_qturn(q1)),
            forall|k: int| 0 <= k < turns@.len() ==> qturn_v_wf(view_qturn(#[trigger] turns@[k])),
            sp_quarter(rest0@) == Ok::<(QTurnV, Seq<char>), ParseFailV>((view_qturn(q1), r1@)),
            for_error == rest0@.len(),
            sp_turn(s@) == (match sp_more_quarters(r1t@, 1, for_error as int) {
                Err(f) => Err::<(TurnV, Seq<char>), ParseFailV>(f),
                Ok((qs, rest)) => Ok(
                    (
                        TurnV {
                            number,
                            double_dot,
                            turns: seq![view_qturn(q1)] + qs,
                        },
                        rest,
                    ),
                ),
            }),
            match sp_more_quarters(cur@, turns@.len() as nat, for_error as int) {
                Ok((more, fin)) => sp_more_quarters(r1t@, 1, for_error as int) == Ok::<
                    (Seq<QTurnV>, Seq<char>),
                    ParseFailV,
                >((view_qturns(turns@.skip(1)) + more, fin)),
                Err(f) => sp_more_quarters(r1t@, 1, for_error as int) == Err::<
                    (Seq<QTurnV>, Seq<char>),
                    ParseFailV,
                >(f),
            },
        decreases cur@.len(), 7int,
    {
        if !(cur.len() >= 2 && *slice_index_get(cur, 0) == '.' && *slice_index_get(cur, 1)
            == '.') {
            proof {
                assert(sp_more_quarters(cur@, turns@.len() as nat, for_error as int) == Ok::<
                    (Seq<QTurnV>, Seq<char>),
                    ParseFailV,
                >((Seq::<QTurnV>::empty(), cur@)));
                assert(view_qturns(turns@.skip(1)) + Seq::<QTurnV>::empty() =~= view_qturns(
                    turns@.skip(1),
                ));
                assert(sp_more_quarters(r1t@, 1, for_error as int) == Ok::<
                    (Seq<QTurnV>, Seq<char>),
                    ParseFailV,
                >((view_qturns(turns@.skip(1)), cur@)));
            }
            let t = Turn { number, double_dot, turns };
            proof {
                crate::types::lemma_view_turn_parts(t);
                assert(view_qturns(t.turns@) =~= seq![view_qturn(q1)] + view_qturns(
                    t.turns@.skip(1),
                ));
                assert(view_turn(t) =~= TurnV {
                    number: number,
                    double_dot,
                    turns: seq![view_qturn(q1)] + view_qturns(t.turns@.skip(1)),
                });
                assert(turn_v_wf(view_turn(t)));
                assert(sp_turn(s@) == Ok::<(TurnV, Seq<char>), ParseFailV>((view_turn(t), cur@)));
            }
            return Ok((t, cur));
        }
        if turns.len() >= 4 {
            proof {
                assert(sp_more_quarters(cur@, turns@.len() as nat, for_error as int) == Err::<
                    (Seq<QTurnV>, Seq<char>),
                    ParseFailV,
                >(ParseFailV::Other(for_error as int)));
            }
            return Err(IntermediateError::Other(for_error));
        }
        let inner = slice_subrange(cur, 2, cur.len());
        proof {
            assert(inner@ =~= cur@.skip(2));
        }
        let (q, qrest) = match x_quarter(inner) {
            Ok(p) => p,
            Err(e) => {
                proof {
                    assert(sp_more_quarters(cur@, turns@.len() as nat, for_error as int) == Err::<
                        (Seq<QTurnV>, Seq<char>),
                        ParseFailV,
                    >(fail_view(e)));
                }
                return Err(e);
            },
        };
        let qrt = trim_start(qrest);
        let ghost old_turns = turns@;
        let ghost old_cur = cur@;
        turns.push(q);
        cur = qrt;
        proof {
            assert(turns@.skip(1) =~= old_turns.skip(1).push(q));
            assert(view_qturns(turns@.skip(1)) =~= view_qturns(old_turns.skip(1)).push(
                view_qturn(q),
            ));
            match sp_more_quarters(cur@, turns@.len() as nat, for_error as int) {
                Ok((more, fin)) => {
                    assert(sp_more_quarters(old_cur, old_turns.len() as nat, for_error as int)
                        == Ok::<(Seq<QTurnV>, Seq<char>), ParseFailV>(
                        (seq![view_qturn(q)] + more, fin),
                    ));
                    assert(view_qturns(old_turns.skip(1)) + (seq![view_qturn(q)] + more)
                        =~= view_qturns(turns@.skip(1)) + more);
                },
                Err(f) => {
                    assert(sp_more_quarters(old_cur, old_turns.len() as nat, for_error as int)
                        == Err::<(Seq<QTurnV>, Seq<char>), ParseFailV>(f));
                },
            }
        }
    }
}

/// Where in the input something failed: 1-based line, column in characters
/// from the line's start, and the raw byte offset from the start of the
/// input.
#[derive(PartialEq, Eq, Clone, Copy, Debug)]
pub struct ErrorLocation {
    pub line: usize,
    pub column: usize,
    pub raw_offset: usize,
}

/// The ways a whole document can fail to parse.
#[derive(PartialEq, Clone, Debug)]
pub enum PGN4Error {
    /// A turn is malformed.
    Other(ErrorLocation),
    /// A header tag is malformed.
    BadTagged(ErrorLocation),
    /// A move failed to parse; holds the move's error and its text.
    BadMove(MoveError, String, ErrorLocation),
    /// A description brace is malformed or unterminated.
    BadDescription(ErrorLocation),
}

/// How many copies of `c` the string holds.
pub open spec fn count_char_in(s: Seq<char>, c: char) -> nat
    decreases s.len(),
{
    if s.len() == 0 {
        0
    } else {
        count_char_in(s.drop_last(), c) + (if s.last() == c {
            1nat
        } else {
            0nat
        })
    }
}

/// One trailing newline removed, as line counting drops it.
pub open spec fn strip_one_nl(s: Seq<char>) -> Seq<char> {
    if s.len() > 0 && s.last() == '\n' {
        s.drop_last()
    } else {
        s
    }
}

/// The characters after the last newline.
pub open spec fn after_last_nl(s: Seq<char>) -> Seq<char>
    decreases s.len(),
{
    if s.len() == 0 {
        s
    } else if s.last() == '\n' {
        Seq::empty()
    } else {
        after_last_nl(s.drop_last()).push(s.last())
    }
}

/// The 1-based line of the position right after `front`.
pub open spec fn loc_line(front: Seq<char>) -> nat {
    if front.len() == 0 {
        1
    } else {
        count_char_in(strip_one_nl(front), '\n') + 1
    }
}

/// The column, in characters, of the position right after `front`.
pub open spec fn loc_col(front: Seq<char>) -> nat {
    after_last_nl(strip_one_nl(front)).len()
}

/// The UTF-8 encoded length, in bytes, of the characters.
pub open spec fn byte_len(s: Seq<char>) -> nat {
    vstd::utf8::encode_utf8(s).len()
}

/// A count squeezed into a `usize`; every value this library builds fits.
pub open spec fn to_usize_clamped(n: nat) -> usize {
    if n <= usize::MAX {
        n as usize
    } else {
        usize::MAX
    }
}

/// The location reported when `chars_left` characters of `base` were still
/// unread: 1-based line, column in characters, raw offset in bytes.
pub open spec fn sp_location(chars_left: int, base: Seq<char>) -> ErrorLocation {
    let front = base.take(
        if 0 <= chars_left <= base.len() {
            base.len() - chars_left
        } else {
            0
        },
    );
    ErrorLocation {
        line: to_usize_clamped(loc_line(front)),
        column: to_usize_clamped(loc_col(front)),
        raw_offset: to_usize_clamped(byte_len(front)),
    }
}

/// Whether a document error carries exactly the failure and location the
/// grammar names.
pub open spec fn fail_matches(e: PGN4Error, f: ParseFailV, base: Seq<char>) -> bool {
    match f {
        ParseFailV::Other(left) => e matches PGN4Error::Other(loc) && loc == sp_location(
            left,
            base,
        ),
        ParseFailV::MoveErr(m, t, left) => e matches PGN4Error::BadMove(m2, t2, loc) && m2 == m
            && t2@ == t && loc == sp_location(left, base),
        ParseFailV::Description(left) => e matches PGN4Error::BadDescription(loc) && loc
            == sp_location(left, base),
    }
}

/// Whether a document error reports the grammar's failure: `BadTagged` with
/// the header's location, or the turn text's own failure.
pub open spec fn err_matches(e: PGN4Error, de: DocFailV, base: Seq<char>) -> bool {
    match de {
        DocFailV::BadTagged(left) => e matches PGN4Error::BadTagged(loc) && loc == sp_location(
            left,
            base,
        ),
        DocFailV::Bad(f) => fail_matches(e, f, base),
    }
}

proof fn lemma_count_char_le(s: Seq<char>, c: char)
    ensures
        count_char_in(s, c) <= s.len(),
        s.len() > 0 && s.last() != c ==> count_char_in(s, c) < s.len(),
    decreases s.len(),
{
    if s.len() > 0 {
        lemma_count_char_le(s.drop_last(), c);
    }
}

proof fn lemma_count_char_step(s: Seq<char>, c: char, i: int)
    requires
        0 <= i < s.len(),
    ensures
        count_char_in(s.take(i + 1), c) == count_char_in(s.take(i), c) + (if s[i] == c {
            1nat
        } else {
            0nat
        }),
{
    let t = s.take(i + 1);
    assert(t.drop_last() =~= s.take(i));
    assert(t.last() == s[i]);
}

proof fn lemma_after_last_nl(s: Seq<char>, j: int)
    requires
        0 <= j < s.len(),
        s[j] == '\n',
        forall|k: int| j < k < s.len() ==> s[k] != '\n',
    ensures
        after_last_nl(s) =~= s.skip(j + 1),
    decreases s.len(),
{
    if s.len() == 0 {
    } else if s.last() == '\n' {
        assert(j == s.len() - 1);
        assert(s.skip(j + 1) =~= Seq::<char>::empty());
    } else {
        assert(j < s.len() - 1);
        lemma_after_last_nl(s.drop_last(), j);
        assert(s.drop_last().skip(j + 1) =~= s.skip(j + 1).drop_last());
        assert(after_last_nl(s) =~= s.skip(j + 1).drop_last().push(s.last()));
        assert(s.skip(j + 1).drop_last().push(s.last()) =~= s.skip(j + 1));
    }
}

proof fn lemma_after_last_nl_none(s: Seq<char>)
    requires
        forall|k: int| 0 <= k < s.len() ==> s[k] != '\n',
    ensures
        after_last_nl(s) =~= s,
    decreases s.len(),
{
    if s.len() > 0 {
        lemma_after_last_nl_none(s.drop_last());
    }
}

/// The encoding of a sequence with one more character appends that
/// character's encoding.
proof fn lemma_byte_len_snoc(s: Seq<char>, i: int)
    requires
        0 <= i < s.len(),
    ensures
        byte_len(s.take(i + 1)) == byte_len(s.take(i)) + vstd::utf8::encode_scalar(
            s[i] as u32,
        ).len(),
{
    lemma_encode_push(s.take(i), s[i]);
    assert(s.take(i + 1) =~= s.take(i).push(s[i]));
}

proof fn lemma_encode_push(a: Seq<char>, c: char)
    ensures
        vstd::utf8::encode_utf8(a.push(c)) == vstd::utf8::encode_utf8(a)
            + vstd::utf8::encode_scalar(c as u32),
    decreases a.len(),
{
    if a.len() == 0 {
        assert(a.push(c)[0] == c);
        assert(a.push(c).drop_first() =~= Seq::<char>::empty());
        assert(vstd::utf8::encode_utf8(Seq::<char>::empty()) =~= Seq::<u8>::empty());
        assert(vstd::utf8::encode_utf8(a.push(c)) == vstd::utf8::encode_scalar(c as u32)
            + vstd::utf8::encode_utf8(a.push(c).drop_first()));
        assert(vstd::utf8::encode_utf8(a.push(c)) =~= vstd::utf8::encode_utf8(a)
            + vstd::utf8::encode_scalar(c as u32));
    } else {
        lemma_encode_push(a.drop_first(), c);
        assert(a.push(c)[0] == a[0]);
        assert(a.push(c).drop_first() =~= a.drop_first().push(c));
        assert(vstd::utf8::encode_utf8(a.push(c)) =~= vstd::utf8::encode_utf8(a)
            + vstd::utf8::encode_scalar(c as u32));
    }
}

/// The UTF-8 encoded length of one character, from its scalar value.
fn char_len(c: char) -> (n: usize)
    ensures
        n == vstd::utf8::encode_scalar(c as u32).len(),
        1 <= n <= 4,
{
    let u = c as u32;
    if u < 0x80 {
        1
    } else if u < 0x800 {
        2
    } else if u < 0x10000 {
        3
    } else {
        4
    }
}

/// Turn a count of characters still left into a line, column and byte
/// offset, measured against the whole input.
pub(crate) fn loc_from_chars(chars_left: usize, base: &[char]) -> (r: ErrorLocation)
    ensures
        r == sp_location(chars_left as int, base@),
{
    let n = base.len();
    let front_len: usize = if chars_left <= n {
        n - chars_left
    } else {
        0
    };
    let ghost front = base@.take(front_len as int);
    let effective: usize = if front_len > 0 && *slice_index_get(base, front_len - 1) == '\n' {
        front_len - 1
    } else {
        front_len
    };
    proof {
        assert(front.len() == front_len);
        if front_len > 0 {
            assert(front.last() == base@[front_len - 1]);
        }
        assert(strip_one_nl(front) =~= base@.take(effective as int));
    }
    let ghost eff = base@.take(effective as int);
    let mut cnt: usize = 0;
    let mut last_nl: Option<usize> = None;
    let mut i: usize = 0;
    proof {
        assert(base@.take(0) =~= Seq::<char>::empty());
    }
    while i < effective
        invariant
            i <= effective <= front_len <= n,
            n == base@.len(),
            eff == base@.take(effective as int),
            cnt as nat == count_char_in(base@.take(i as int), '\n'),
            match last_nl {
                Some(j) => j < i && base@[j as int] == '\n' && (forall|k: int|
                    j < k < i ==> base@[k] != '\n'),
                None => forall|k: int| 0 <= k < i ==> base@[k] != '\n',
            },
        decreases effective - i,
    {
        let c = *slice_index_get(base, i);
        proof {
            lemma_count_char_step(base@, '\n', i as int);
            lemma_count_char_le(base@.take(i as int), '\n');
        }
        if c == '\n' {
            cnt += 1;
            last_nl = Some(i);
        }
        i += 1;
    }
    let column: usize = match last_nl {
        Some(j) => {
            proof {
                assert(eff[j as int] == base@[j as int]);
                assert(forall|k: int| j < k < eff.len() ==> eff[k] == base@[k]);
                lemma_after_last_nl(eff, j as int);
            }
            effective - j - 1
        },
        None => {
            proof {
                assert(forall|k: int| 0 <= k < eff.len() ==> eff[k] == base@[k]);
                lemma_after_last_nl_none(eff);
            }
            effective
        },
    };
    let line: usize = if front_len == 0 {
        1
    } else {
        proof {
            lemma_count_char_le(eff, '\n');
            if effective == front_len {
                assert(front.len() > 0 && front.last() != '\n');
                assert(eff =~= front);
            }
        }
        cnt + 1
    };
    let mut bytes: usize = 0;
    let mut b: usize = 0;
    proof {
        assert(base@.take(0) =~= Seq::<char>::empty());
        assert(byte_len(base@.take(0)) == 0);
    }
    while b < front_len
        invariant
            b <= front_len <= n,
            n == base@.len(),
            bytes == to_usize_clamped(byte_len(base@.take(b as int))),
        decreases front_len - b,
    {
        let c = *slice_index_get(base, b);
        let cl = char_len(c);
        proof {
            lemma_byte_len_snoc(base@, b as int);
        }
        bytes = bytes.saturating_add(cl);
        b += 1;
    }
    proof {
        assert(base@.take(effective as int) =~= eff);
        assert(to_usize_clamped(loc_line(front)) == line);
        assert(to_usize_clamped(loc_col(front)) == column);
    }
    ErrorLocation { line, column, raw_offset: bytes }
}

/// The longest prefix, counted in characters, whose UTF-8 encoding fits in
/// `target` bytes.
pub open spec fn byte_split(s: Seq<char>, target: nat) -> int
    decreases s.len(),
{
    if s.len() == 0 {
        0
    } else if vstd::utf8::encode_scalar(s[0] as u32).len() <= target {
        1 + byte_split(
            s.drop_first(),
            (target - vstd::utf8::encode_scalar(s[0] as u32).len()) as nat,
        )
    } else {
        0
    }
}

/// Turn a count of bytes still left into a line, column and byte offset,
/// measured against the whole input: the consumed front is the longest
/// prefix of whole characters that fits before the unread bytes.
pub fn map_location(bytes_left: usize, base: &str) -> (r: ErrorLocation)
    ensures
        ({
            let total = to_usize_clamped(byte_len(base@));
            let target: nat = if bytes_left <= total {
                (total - bytes_left) as nat
            } else {
                0nat
            };
            r == sp_location(base@.len() - byte_split(base@, target), base@)
        }),
{
    let v = str_chars(base);
    let n = v.len();
    let mut total: usize = 0;
    let mut b: usize = 0;
    proof {
        assert(v@.take(0) =~= Seq::<char>::empty());
        assert(byte_len(v@.take(0)) == 0);
    }
    while b < n
        invariant
            b <= n,
            n == v@.len(),
            v@ == base@,
            total == to_usize_clamped(byte_len(v@.take(b as int))),
        decreases n - b,
    {
        let cl = char_len(v[b]);
        proof {
            lemma_byte_len_snoc(v@, b as int);
        }
        total = total.saturating_add(cl);
        b += 1;
    }
    proof {
        assert(v@.take(n as int) =~= v@);
    }
    let target: usize = if bytes_left <= total {
        total - bytes_left
    } else {
        0
    };
    let mut k: usize = 0;
    let mut acc: usize = 0;
    loop
        invariant
            k <= n,
            n == v@.len(),
            v@ == base@,
            acc <= target,
            byte_split(v@, target as nat) == k + byte_split(
                v@.skip(k as int),
                (target - acc) as nat,
            ),
        ensures
            k <= n,
            n == v@.len(),
            v@ == base@,
            byte_split(v@, target as nat) == k,
        decreases n - k,
    {
        if k >= n {
            proof {
                assert(v@.skip(k as int) =~= Seq::<char>::empty());
            }
            break ;
        }
        let cl = char_len(v[k]);
        if cl > target - acc {
            proof {
                assert(v@.skip(k as int)[0] == v@[k as int]);
                assert(byte_split(v@.skip(k as int), (target - acc) as nat) == 0);
            }
            break ;
        }
        proof {
            assert(v@.skip(k as int)[0] == v@[k as int]);
            assert(v@.skip(k as int).drop_first() =~= v@.skip(k + 1));
        }
        acc += cl;
        k += 1;
    }
    loc_from_chars(n - k, v.as_slice())
}

/// A header failure, located where the header began.
fn make_tagged(rest_len: usize, base: &[char]) -> (r: PGN4Error)
    ensures
        r == PGN4Error::BadTagged(sp_location(rest_len as int, base@)),
{
    PGN4Error::BadTagged(loc_from_chars(rest_len, base))
}

/// Attach a location to a failure from inside the turn text.
fn add_details(ie: IntermediateError, base: &[char]) -> (r: PGN4Error)
    ensures
        fail_matches(r, fail_view(ie), base@),
{
    match ie {
        IntermediateError::Other(left) => PGN4Error::Other(loc_from_chars(left, base)),
        IntermediateError::MoveErr(m, e, left) => PGN4Error::BadMove(
            m,
            e,
            loc_from_chars(left, base),
        ),
        IntermediateError::Description(left) => PGN4Error::BadDescription(
            loc_from_chars(left, base),
        ),
    }
}

/// Parse the header lines at the head of a document.
fn x_headers<'a>(s: &'a [char]) -> (r: Result<(Vec<(String, String)>, &'a [char]), usize>)
    ensures
        match r {
            Ok((hs, rest)) => sp_headers(s@) == Ok::<(Seq<(Seq<char>, Seq<char>)>, Seq<char>), int>(
                (view_headers(hs@), rest@),
            ) && rest@.len() <= s@.len(),
            Err(left) => sp_headers(s@) == Err::<(Seq<(Seq<char>, Seq<char>)>, Seq<char>), int>(
                left as int,
            ),
        },
{
    let mut hs: Vec<(String, String)> = Vec::new();
    let mut cur: &'a [char] = s;
    loop
        invariant
            cur@.len() <= s@.len(),
            match sp_headers(cur@) {
                Ok((more, fin)) => sp_headers(s@) == Ok::<
                    (Seq<(Seq<char>, Seq<char>)>, Seq<char>),
                    int,
                >((view_headers(hs@) + more, fin)),
                Err(left) => sp_headers(s@) == Err::<
                    (Seq<(Seq<char>, Seq<char>)>, Seq<char>),
                    int,
                >(left),
            },
        decreases cur@.len(),
    {
        if !(cur.len() > 0 && *slice_index_get(cur, 0) == '[') {
            proof {
                assert(sp_headers(cur@) == Ok::<(Seq<(Seq<char>, Seq<char>)>, Seq<char>), int>(
                    (Seq::<(Seq<char>, Seq<char>)>::empty(), cur@),
                ));
                assert(view_headers(hs@) + Seq::<(Seq<char>, Seq<char>)>::empty() =~= view_headers(
                    hs@,
                ));
            }
            return Ok((hs, cur));
        }
        let rt = slice_subrange(cur, 1, cur.len());
        proof {
            assert(rt@ =~= cur@.drop_first());
        }
        let label_end: usize = match find_ws(rt) {
            Some(i) => i,
            None => 0,
        };
        let label = slice_subrange(rt, 0, label_end);
        let mid = slice_subrange(rt, label_end, rt.len());
        proof {
            assert(label@ =~= rt@.take(label_end as int));
            assert(mid@ =~= rt@.skip(label_end as int));
        }
        let m = trim_start(mid);
        if !(m.len() > 0 && *slice_index_get(m, 0) == '"') {
            proof {
                assert(sp_headers(cur@) == Err::<(Seq<(Seq<char>, Seq<char>)>, Seq<char>), int>(
                    rt@.len() as int,
                ));
            }
            return Err(rt.len());
        }
        let v = slice_subrange(m, 1, m.len());
        proof {
            assert(v@ =~= m@.drop_first());
        }
        let e = match find_char(v, '"') {
            Some(e) => e,
            None => {
                proof {
                    assert(sp_headers(cur@) == Err::<(Seq<(Seq<char>, Seq<char>)>, Seq<char>), int>(
                        rt@.len() as int,
                    ));
                }
                return Err(rt.len());
            },
        };
        let value = slice_subrange(v, 0, e);
        let end = slice_subrange(v, e, v.len());
        proof {
            assert(value@ =~= v@.take(e as int));
            assert(end@ =~= v@.skip(e as int));
        }
        if !(end.len() >= 2 && *slice_index_get(end, 1) == ']') {
            proof {
                assert(sp_headers(cur@) == Err::<(Seq<(Seq<char>, Seq<char>)>, Seq<char>), int>(
                    rt@.len() as int,
                ));
            }
            return Err(rt.len());
        }
        let tail = slice_subrange(end, 2, end.len());
        proof {
            assert(tail@ =~= end@.skip(2));
        }
        let rest = trim_start(tail);
        let label_s = slice_string(label);
        let value_s = slice_string(value);
        let ghost old_hs = hs@;
        let ghost old_cur = cur@;
        hs.push((label_s, value_s));
        cur = rest;
        proof {
            assert(view_headers(hs@) =~= view_headers(old_hs).push((label@, value@)));
            match sp_headers(rest@) {
                Ok((more, fin)) => {
                    assert(sp_headers(old_cur) == Ok::<(Seq<(Seq<char>, Seq<char>)>, Seq<char>), int>(
                        (seq![(label@, value@)] + more, fin),
                    ));
                    assert(view_headers(old_hs) + (seq![(label@, value@)] + more) =~= view_headers(
                        hs@,
                    ) + more);
                },
                Err(left) => {
                    assert(sp_headers(old_cur) == Err::<
                        (Seq<(Seq<char>, Seq<char>)>, Seq<char>),
                        int,
                    >(left));
                },
            }
        }
    }
}

impl PGN4 {
    /// Parse a whole document. Succeeds exactly on the texts the grammar
    /// accepts, giving the tree the grammar assigns; every turn of that tree
    /// holds at least one quarter-turn and its squares lie on the board. On
    /// the texts the grammar rejects, the error carries the grammar's own
    /// failure: its kind, the offending move's text where one failed, and
    /// the failure's line, column and byte offset.
    pub fn from_text(s: &str) -> (r: Result<PGN4, PGN4Error>)
        ensures
            match r {
                Ok(p) => sp_document(s@) == Ok::<Pgn4V, DocFailV>(view_pgn(p)) && pgn_v_wf(
                    view_pgn(p),
                ),
                Err(e) => match sp_document(s@) {
                    Err(de) => err_matches(e, de, s@),
                    Ok(_) => false,
                },
            },
    {
        let v = str_chars(s);
        let sl = v.as_slice();
        let (bracketed, rest) = match x_headers(sl) {
            Ok(p) => p,
            Err(left) => {
                proof {
                    assert(sp_document(s@) == Err::<Pgn4V, DocFailV>(
                        DocFailV::BadTagged(left as int),
                    ));
                }
                return Err(make_tagged(left, sl));
            },
        };
        let mut turns: Vec<Turn> = Vec::new();
        let mut cur: &[char] = rest;
        loop
            invariant
                turns_v_wf(view_turns(turns@)),
                v@ == s@,
                sl@ == s@,
                match sp_doc_turns(cur@) {
                    Ok(more) => sp_doc_turns(rest@) == Ok::<Seq<TurnV>, ParseFailV>(
                        view_turns(turns@) + more,
                    ),
                    Err(f) => sp_doc_turns(rest@) == Err::<Seq<TurnV>, ParseFailV>(f),
                },
                sp_headers(s@) == Ok::<(Seq<(Seq<char>, Seq<char>)>, Seq<char>), int>(
                    (view_headers(bracketed@), rest@),
                ),
            decreases cur@.len(),
        {
            if cur.len() == 0 {
                proof {
                    assert(sp_doc_turns(cur@) == Ok::<Seq<TurnV>, ParseFailV>(
                        Seq::<TurnV>::empty(),
                    ));
                    assert(view_turns(turns@) + Seq::<TurnV>::empty() =~= view_turns(turns@));
                    assert(sp_doc_turns(rest@) == Ok::<Seq<TurnV>, ParseFailV>(
                        view_turns(turns@),
                    ));
                }
                let p = PGN4 { bracketed, turns };
                proof {
                    assert(view_pgn(p) =~= Pgn4V {
                        bracketed: view_headers(p.bracketed@),
                        turns: view_turns(p.turns@),
                    });
                    assert(sp_document(s@) == Ok::<Pgn4V, DocFailV>(view_pgn(p)));
                    assert(pgn_v_wf(view_pgn(p)));
                }
                return Ok(p);
            }
            let (t, r) = match x_turn(cur) {
                Ok(p) => p,
                Err(ie) => {
                    proof {
                        assert(sp_doc_turns(cur@) == Err::<Seq<TurnV>, ParseFailV>(fail_view(ie)));
                        assert(sp_document(s@) == Err::<Pgn4V, DocFailV>(
                            DocFailV::Bad(fail_view(ie)),
                        ));
                    }
                    return Err(add_details(ie, sl));
                },
            };
            let ghost old_turns = turns@;
            let ghost old_cur = cur@;
            turns.push(t);
            cur = r;
            proof {
                assert(view_turns(turns@) =~= view_turns(old_turns).push(view_turn(t)));
                match sp_doc_turns(r@) {
                    Ok(more) => {
                        assert(sp_doc_turns(old_cur) == Ok::<Seq<TurnV>, ParseFailV>(
                            seq![view_turn(t)] + more,
                        ));
                        assert(view_turns(old_turns) + (seq![view_turn(t)] + more) =~= view_turns(
                            turns@,
                        ) + more);
                    },
                    Err(f) => {
                        assert(sp_doc_turns(old_cur) == Err::<Seq<TurnV>, ParseFailV>(f));
                    },
                }
                assert(turns_v_wf(view_turns(turns@)));
            }
        }
    }
}

impl BasicMove {
    /// Parse a whole string as a basic move; a failure names the violated
    /// rule, with a failing square's own error inside `PositionInvalid`.
    pub fn from_text(s: &str) -> (r: Result<BasicMove, MoveError>)
        ensures
            match r {
                Ok(b) => sp_basic(s@) == Ok::<BasicMove, MoveError>(b) && bm_wf(b),
                Err(e) => sp_basic(s@) == Err::<BasicMove, MoveError>(e),
            },
    {
        let v = str_chars(s);
        x_basic(v.as_slice())
    }
}

impl Move {
    /// Parse a whole string as a move; a token starting "O-O" that is no
    /// castle fails with the distinct `Castle` error.
    pub fn from_text(s: &str) -> (r: Result<Move, MoveError>)
        ensures
            match r {
                Ok(m) => sp_move(s@) == Ok::<Move, MoveError>(m) && move_wf(m),
                Err(e) => sp_move(s@) == Err::<Move, MoveError>(e),
            },
    {
        let v = str_chars(s);
        x_move(v.as_slice())
    }
}

impl core::str::FromStr for PGN4 {
    type Err = PGN4Error;

    fn from_str(s: &str) -> Result<PGN4, PGN4Error> {
        PGN4::from_text(s)
    }
}

impl core::str::FromStr for BasicMove {
    type Err = MoveError;

    fn from_str(s: &str) -> Result<BasicMove, MoveError> {
        BasicMove::from_text(s)
    }
}

impl core::str::FromStr for Move {
    type Err = MoveError;

    fn from_str(s: &str) -> Result<Move, MoveError> {
        Move::from_text(s)
    }
}

} // verus!
