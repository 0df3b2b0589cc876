use crate::num::{dec_rep, push_dec};
use crate::types::{
    bm_wf, move_wf, pgn_v_wf, pos_wf, qturn_v_wf, turn_v_wf, turns_v_wf, view_pgn, view_qturn,
    view_turn, view_turns, BasicMove, Move, Pgn4V, Position, QTurnV, QuarterTurn, Turn, TurnV, PGN4,
};
use vstd::prelude::*;

verus! {

/// The same character repeated.
pub open spec fn repeat_char(c: char, n: nat) -> Seq<char>
    decreases n,
{
    if n == 0 {
        Seq::empty()
    } else {
        repeat_char(c, (n - 1) as nat).push(c)
    }
}

/// The lowercase file letter for a column.
pub open spec fn col_char(c: nat) -> char {
    ((c + 97) as u8) as char
}

/// The textual form of a square: file letter, then the 1-based rank.
pub open spec fn pos_str(p: Position) -> Seq<char> {
    seq![col_char(p.col as nat)] + dec_rep((p.row + 1) as nat)
}

/// The textual form of a basic move. Pawn letters are left out, the
/// separator is 'x' exactly for captures, then the promotion suffix and one
/// '+' per check and one '#' per mate.
pub open spec fn bm_str(b: BasicMove) -> Seq<char> {
    (if b.piece != 'P' {
        seq![b.piece]
    } else {
        Seq::empty()
    }) + pos_str(b.from) + (match b.captured {
        Some(p) => seq!['x'] + if p != 'P' {
            seq![p]
        } else {
            Seq::empty()
        },
        None => seq!['-'],
    }) + pos_str(b.to) + (match b.promotion {
        Some(p) => seq!['=', p],
        None => Seq::empty(),
    }) + repeat_char('+', b.checks as nat) + repeat_char('#', b.mates as nat)
}

/// The textual form of any move.
pub open spec fn move_str(m: Move) -> Seq<char> {
    match m {
        Move::Checkmate => seq!['#'],
        Move::Stalemate => seq!['S'],
        Move::Timeout => seq!['T'],
        Move::Resign => seq!['R'],
        Move::KingCastle(s) => seq!['O', '-', 'O'] + repeat_char('#', s as nat),
        Move::QueenCastle(s) => seq!['O', '-', 'O', '-', 'O'] + repeat_char('#', s as nat),
        Move::Normal(b) => bm_str(b),
    }
}

/// The textual form of a quarter-turn: the move pair, the extra stalemate
/// marker, the braced description, then each alternative in parentheses.
pub open spec fn qturn_str(q: QTurnV) -> Seq<char>
    decreases q, 0int,
{
    move_str(q.main) + (match q.modifier {
        Some(m) => move_str(m),
        None => Seq::empty(),
    }) + (if q.extra_stalemate {
        seq!['S']
    } else {
        Seq::empty()
    }) + (match q.description {
        Some(d) => seq![' ', '{', ' '] + d + seq![' ', '}'],
        None => Seq::empty(),
    }) + alts_str(q.alternatives)
}

pub open spec fn alts_str(aa: Seq<Seq<TurnV>>) -> Seq<char>
    decreases aa, 0int,
{
    if aa.len() == 0 {
        Seq::empty()
    } else {
        alt_str(aa[0]) + alts_str(aa.drop_first())
    }
}

/// One alternative: " ( " when it starts mid-turn (number 0), otherwise a
/// newline and "(", its turns joined by newlines, and always " ) ". An empty
/// alternative is not written at all.
pub open spec fn alt_str(ts: Seq<TurnV>) -> Seq<char>
    decreases ts, 1int,
{
    if ts.len() == 0 {
        Seq::empty()
    } else {
        (if ts[0].number == 0 {
            seq![' ', '(', ' ']
        } else {
            seq!['\n', '(']
        }) + turns_nl_str(ts) + seq![' ', ')', ' ']
    }
}

/// Turns joined by newlines.
pub open spec fn turns_nl_str(ts: Seq<TurnV>) -> Seq<char>
    decreases ts, 0int,
{
    if ts.len() == 0 {
        Seq::empty()
    } else if ts.len() == 1 {
        turn_str(ts[0])
    } else {
        turn_str(ts[0]) + seq!['\n'] + turns_nl_str(ts.drop_first())
    }
}

/// One turn: the number unless it is 0, ". " or ".. ", then its
/// quarter-turns joined by " .. ".
pub open spec fn turn_str(t: TurnV) -> Seq<char>
    decreases t, 0int,
{
    (if t.number != 0 {
        dec_rep(t.number as nat)
    } else {
        Seq::empty()
    }) + (if t.double_dot {
        seq!['.', '.', ' ']
    } else {
        seq!['.', ' ']
    }) + qturns_sep_str(t.turns)
}

pub open spec fn qturns_sep_str(qs: Seq<QTurnV>) -> Seq<char>
    decreases qs, 0int,
{
    if qs.len() == 0 {
        Seq::empty()
    } else if qs.len() == 1 {
        qturn_str(qs[0])
    } else {
        qturn_str(qs[0]) + seq![' ', '.', '.', ' '] + qturns_sep_str(qs.drop_first())
    }
}

/// One header pair, as a bracketed line.
pub open spec fn header_str(kv: (Seq<char>, Seq<char>)) -> Seq<char> {
    seq!['['] + kv.0 + seq![' ', '"'] + kv.1 + seq!['"', ']', '\n']
}

pub open spec fn headers_str(bs: Seq<(Seq<char>, Seq<char>)>) -> Seq<char>
    decreases bs,
{
    if bs.len() == 0 {
        Seq::empty()
    } else {
        header_str(bs[0]) + headers_str(bs.drop_first())
    }
}

/// The textual form of a whole document: the headers, a blank gap when any
/// header exists, then the main line of turns joined by newlines.
pub open spec fn pgn_str(p: Pgn4V) -> Seq<char> {
    headers_str(p.bracketed) + (if p.bracketed.len() > 0 {
        seq!['\n', '\n', '\n']
    } else {
        Seq::empty()
    }) + turns_nl_str(p.turns)
}

pub proof fn lemma_alts_str_snoc(aa: Seq<Seq<TurnV>>, x: Seq<TurnV>)
    ensures
        alts_str(aa.push(x)) == alts_str(aa) + alt_str(x),
    decreases aa.len(),
{
    if aa.len() == 0 {
        assert(aa.push(x)[0] == x);
        assert(aa.push(x).drop_first() =~= Seq::<Seq<TurnV>>::empty());
        assert(alts_str(Seq::<Seq<TurnV>>::empty()) == Seq::<char>::empty());
        assert(alts_str(aa.push(x)) == alt_str(x) + alts_str(aa.push(x).drop_first()));
        assert(alts_str(aa.push(x)) =~= alts_str(aa) + alt_str(x));
    } else {
        lemma_alts_str_snoc(aa.drop_first(), x);
        assert(aa.push(x).drop_first() =~= aa.drop_first().push(x));
        assert(aa.push(x)[0] == aa[0]);
        assert(alts_str(aa.push(x)) == alt_str(aa[0]) + alts_str(aa.drop_first().push(x)));
        assert(alts_str(aa.push(x)) =~= alts_str(aa) + alt_str(x));
    }
}

pub proof fn lemma_turns_nl_str_snoc(ts: Seq<TurnV>, x: TurnV)
    ensures
        turns_nl_str(ts.push(x)) == turns_nl_str(ts) + (if ts.len() > 0 {
            seq!['\n']
        } else {
            Seq::<char>::empty()
        }) + turn_str(x),
    decreases ts.len(),
{
    if ts.len() == 0 {
        assert(ts.push(x)[0] == x);
        assert(turns_nl_str(ts.push(x)) =~= turns_nl_str(ts) + Seq::<char>::empty() + turn_str(x));
    } else {
        lemma_turns_nl_str_snoc(ts.drop_first(), x);
        assert(ts.push(x).drop_first() =~= ts.drop_first().push(x));
        assert(ts.push(x)[0] == ts[0]);
        assert(ts.push(x).len() == ts.len() + 1 >= 2);
        assert(turns_nl_str(ts.push(x)) == turn_str(ts[0]) + seq!['\n'] + turns_nl_str(
            ts.drop_first().push(x),
        ));
        if ts.len() == 1 {
            assert(ts.drop_first().len() == 0);
            assert(turns_nl_str(ts.push(x)) =~= turns_nl_str(ts) + seq!['\n'] + turn_str(x));
        } else {
            assert(turns_nl_str(ts.push(x)) =~= turns_nl_str(ts) + seq!['\n'] + turn_str(x));
        }
    }
}

pub proof fn lemma_qturns_sep_str_snoc(qs: Seq<QTurnV>, x: QTurnV)
    ensures
        qturns_sep_str(qs.push(x)) == qturns_sep_str(qs) + (if qs.len() > 0 {
            seq![' ', '.', '.', ' ']
        } else {
            Seq::<char>::empty()
        }) + qturn_str(x),
    decreases qs.len(),
{
    if qs.len() == 0 {
        assert(qs.push(x)[0] == x);
        assert(qturns_sep_str(qs.push(x)) =~= qturns_sep_str(qs) + Seq::<char>::empty()
            + qturn_str(x));
    } else {
        lemma_qturns_sep_str_snoc(qs.drop_first(), x);
        assert(qs.push(x).drop_first() =~= qs.drop_first().push(x));
        assert(qs.push(x)[0] == qs[0]);
        assert(qs.push(x).len() == qs.len() + 1 >= 2);
        assert(qturns_sep_str(qs.push(x)) == qturn_str(qs[0]) + seq![' ', '.', '.', ' ']
            + qturns_sep_str(qs.drop_first().push(x)));
        assert(qturns_sep_str(qs.push(x)) =~= qturns_sep_str(qs) + seq![' ', '.', '.', ' ']
            + qturn_str(x));
    }
}

pub proof fn lemma_headers_str_snoc(bs: Seq<(Seq<char>, Seq<char>)>, x: (Seq<char>, Seq<char>))
    ensures
        headers_str(bs.push(x)) == headers_str(bs) + header_str(x),
    decreases bs.len(),
{
    if bs.len() == 0 {
        assert(bs.push(x)[0] == x);
        assert(bs.push(x).drop_first() =~= Seq::<(Seq<char>, Seq<char>)>::empty());
        assert(headers_str(Seq::<(Seq<char>, Seq<char>)>::empty()) == Seq::<char>::empty());
        assert(headers_str(bs.push(x)) == header_str(x) + headers_str(bs.push(x).drop_first()));
        assert(headers_str(bs.push(x)) =~= headers_str(bs) + header_str(x));
    } else {
        lemma_headers_str_snoc(bs.drop_first(), x);
        assert(bs.push(x).drop_first() =~= bs.drop_first().push(x));
        assert(bs.push(x)[0] == bs[0]);
        assert(headers_str(bs.push(x)) =~= headers_str(bs) + header_str(x));
    }
}

/// Append every character of a repeated marker.
fn push_repeat(out: &mut Vec<char>, c: char, n: usize)
    ensures
        final(out)@ == old(out)@ + repeat_char(c, n as nat),
{
    let mut i: usize = 0;
    while i < n
        invariant
            i <= n,
            out@ == old(out)@ + repeat_char(c, i as nat),
        decreases n - i,
    {
        out.push(c);
        i += 1;
    }
}

/// Append every character of a string.
fn push_str_chars(out: &mut Vec<char>, s: &str)
    ensures
        final(out)@ == old(out)@ + s@,
{
    let n = s.unicode_len();
    let mut i: usize = 0;
    while i < n
        invariant
            i <= n,
            n == s@.len(),
            out@ == old(out)@ + s@.subrange(0, i as int),
        decreases n - i,
    {
        let c = s.get_char(i);
        out.push(c);
        proof {
            assert(s@.subrange(0, i + 1) =~= s@.subrange(0, i as int).push(s@[i as int]));
        }
        i += 1;
    }
    proof {
        assert(s@.subrange(0, s@.len() as int) =~= s@);
    }
}

fn write_pos(out: &mut Vec<char>, p: &Position)
    requires
        pos_wf(*p),
    ensures
        final(out)@ == old(out)@ + pos_str(*p),
{
    let letter = ((p.col as u8) + 97) as char;
    out.push(letter);
    push_dec(out, p.row + 1);
    proof {
        assert(out@ =~= old(out)@ + pos_str(*p));
    }
}

#[verifier::rlimit(50)]
fn write_bm(out: &mut Vec<char>, b: &BasicMove)
    requires
        bm_wf(*b),
    ensures
        final(out)@ == old(out)@ + bm_str(*b),
{
    if b.piece != 'P' {
        out.push(b.piece);
    }
    write_pos(out, &b.from);
    match b.captured {
        Some(p) => {
            out.push('x');
            if p != 'P' {
                out.push(p);
            }
        },
        None => {
            out.push('-');
        },
    }
    write_pos(out, &b.to);
    match b.promotion {
        Some(p) => {
            out.push('=');
            out.push(p);
        },
        None => {},
    }
    push_repeat(out, '+', b.checks);
    push_repeat(out, '#', b.mates);
    proof {
        assert(out@ =~= old(out)@ + bm_str(*b));
    }
}

fn write_move(out: &mut Vec<char>, m: &Move)
    requires
        move_wf(*m),
    ensures
        final(out)@ == old(out)@ + move_str(*m),
{
    match m {
        Move::Checkmate => {
            out.push('#');
        },
        Move::Stalemate => {
            out.push('S');
        },
        Move::Timeout => {
            out.push('T');
        },
        Move::Resign => {
            out.push('R');
        },
        Move::KingCastle(s) => {
            out.push('O');
            out.push('-');
            out.push('O');
            push_repeat(out, '#', *s);
            proof {
                assert(out@ =~= old(out)@ + move_str(*m));
            }
        },
        Move::QueenCastle(s) => {
            out.push('O');
            out.push('-');
            out.push('O');
            out.push('-');
            out.push('O');
            push_repeat(out, '#', *s);
            proof {
                assert(out@ =~= old(out)@ + move_str(*m));
            }
        },
        Move::Normal(b) => {
            write_bm(out, b);
        },
    }
    proof {
        assert(out@ =~= old(out)@ + move_str(*m));
    }
}

#[verifier::rlimit(50)]
fn write_qturn(out: &mut Vec<char>, q: &QuarterTurn)
    requires
        qturn_v_wf(view_qturn(*q)),
    ensures
        final(out)@ == old(out)@ + qturn_str(view_qturn(*q)),
    decreases *q,
{
    let ghost qv = view_qturn(*q);
    write_move(out, &q.main);
    match &q.modifier {
        Some(m) => {
            write_move(out, m);
        },
        None => {},
    }
    if q.extra_stalemate {
        out.push('S');
    }
    match &q.description {
        Some(d) => {
            out.push(' ');
            out.push('{');
            out.push(' ');
            push_str_chars(out, d.as_str());
            out.push(' ');
            out.push('}');
        },
        None => {},
    }
    let ghost before_alts = out@;
    let mut i: usize = 0;
    while i < q.alternatives.len()
        invariant
            i <= q.alternatives@.len(),
            qturn_v_wf(view_qturn(*q)),
            qv == view_qturn(*q),
            out@ == before_alts + alts_str(qv.alternatives.subrange(0, i as int)),
        decreases q.alternatives@.len() - i,
    {
        proof {
            assert(turns_v_wf(qv.alternatives[i as int]));
            assert(qv.alternatives[i as int] == view_turns(q.alternatives@[i as int]@));
        }
        write_alt(out, &q.alternatives[i]);
        proof {
            assert(qv.alternatives.subrange(0, i + 1) =~= qv.alternatives.subrange(
                0,
                i as int,
            ).push(qv.alternatives[i as int]));
            lemma_alts_str_snoc(qv.alternatives.subrange(0, i as int), qv.alternatives[i as int]);
            assert(out@ =~= before_alts + alts_str(qv.alternatives.subrange(0, i + 1)));
        }
        i += 1;
    }
    proof {
        assert(qv.alternatives.subrange(0, qv.alternatives.len() as int) =~= qv.alternatives);
        assert(out@ =~= old(out)@ + qturn_str(qv));
    }
}

fn write_alt(out: &mut Vec<char>, ts: &Vec<Turn>)
    requires
        turns_v_wf(view_turns(ts@)),
    ensures
        final(out)@ == old(out)@ + alt_str(view_turns(ts@)),
    decreases *ts,
{
    let ghost tv = view_turns(ts@);
    if ts.len() == 0 {
        proof {
            assert(out@ =~= old(out)@ + alt_str(tv));
        }
        return ;
    }
    if ts[0].number == 0 {
        out.push(' ');
        out.push('(');
        out.push(' ');
    } else {
        out.push('\n');
        out.push('(');
    }
    proof {
        assert(tv[0] == view_turn(ts@[0]));
    }
    let ghost before_turns = out@;
    let mut i: usize = 0;
    while i < ts.len()
        invariant
            i <= ts@.len(),
            turns_v_wf(view_turns(ts@)),
            tv == view_turns(ts@),
            out@ == before_turns + turns_nl_str(tv.subrange(0, i as int)),
        decreases ts@.len() - i,
    {
        if i > 0 {
            out.push('\n');
        }
        proof {
            assert(turn_v_wf(tv[i as int]));
            assert(tv[i as int] == view_turn(ts@[i as int]));
        }
        write_turn(out, &ts[i]);
        proof {
            assert(tv.subrange(0, i + 1) =~= tv.subrange(0, i as int).push(tv[i as int]));
            lemma_turns_nl_str_snoc(tv.subrange(0, i as int), tv[i as int]);
            assert(out@ =~= before_turns + turns_nl_str(tv.subrange(0, i + 1)));
        }
        i += 1;
    }
    out.push(' ');
    out.push(')');
    out.push(' ');
    proof {
        assert(tv.subrange(0, tv.len() as int) =~= tv);
        assert(out@ =~= old(out)@ + alt_str(tv));
    }
}

fn write_turn(out: &mut Vec<char>, t: &Turn)
    requires
        turn_v_wf(view_turn(*t)),
    ensures
        final(out)@ == old(out)@ + turn_str(view_turn(*t)),
    decreases *t,
{
    let ghost tv = view_turn(*t);
    if t.number != 0 {
        push_dec(out, t.number);
    }
    if t.double_dot {
        out.push('.');
        out.push('.');
        out.push(' ');
    } else {
        out.push('.');
        out.push(' ');
    }
    let ghost before_qs = out@;
    let mut i: usize = 0;
    while i < t.turns.len()
        invariant
            i <= t.turns@.len(),
            turn_v_wf(view_turn(*t)),
            tv == view_turn(*t),
            out@ == before_qs + qturns_sep_str(tv.turns.subrange(0, i as int)),
        decreases t.turns@.len() - i,
    {
        if i > 0 {
            out.push(' ');
            out.push('.');
            out.push('.');
            out.push(' ');
        }
        proof {
            assert(qturn_v_wf(tv.turns[i as int]));
            assert(tv.turns[i as int] == view_qturn(t.turns@[i as int]));
        }
        write_qturn(out, &t.turns[i]);
        proof {
            assert(tv.turns.subrange(0, i + 1) =~= tv.turns.subrange(0, i as int).push(
                tv.turns[i as int],
            ));
            lemma_qturns_sep_str_snoc(tv.turns.subrange(0, i as int), tv.turns[i as int]);
            assert(out@ =~= before_qs + qturns_sep_str(tv.turns.subrange(0, i + 1)));
        }
        i += 1;
    }
    proof {
        assert(tv.turns.subrange(0, tv.turns.len() as int) =~= tv.turns);
        assert(out@ =~= old(out)@ + turn_str(tv));
    }
}

/// Relies on collecting an iterator of chars into a `String`
/// (`String::from_iter`): the result holds exactly those characters in order.
#[verifier::external_body]
pub(crate) fn chars_to_string(v: &Vec<char>) -> (r: String)
    ensures
        r@ == v@,
{
    v.iter().collect()
}

impl Move {
    /// The textual form of this move.
    pub fn to_text(&self) -> (r: String)
        requires
            move_wf(*self),
        ensures
            r@ == move_str(*self),
    {
        let mut out: Vec<char> = Vec::new();
        write_move(&mut out, self);
        chars_to_string(&out)
    }
}

impl BasicMove {
    /// The textual form of this basic move.
    pub fn to_text(&self) -> (r: String)
        requires
            bm_wf(*self),
        ensures
            r@ == bm_str(*self),
    {
        let mut out: Vec<char> = Vec::new();
        write_bm(&mut out, self);
        chars_to_string(&out)
    }
}

impl QuarterTurn {
    /// The textual form of this quarter-turn.
    pub fn to_text(&self) -> (r: String)
        requires
            qturn_v_wf(view_qturn(*self)),
        ensures
            r@ == qturn_str(view_qturn(*self)),
    {
        let mut out: Vec<char> = Vec::new();
        write_qturn(&mut out, self);
        chars_to_string(&out)
    }
}

impl Turn {
    /// The textual form of this turn.
    pub fn to_text(&self) -> (r: String)
        requires
            turn_v_wf(view_turn(*self)),
        ensures
            r@ == turn_str(view_turn(*self)),
    {
        let mut out: Vec<char> = Vec::new();
        write_turn(&mut out, self);
        chars_to_string(&out)
    }
}

impl PGN4 {
    /// The textual form of the whole document.
    pub fn to_text(&self) -> (r: String)
        requires
            pgn_v_wf(view_pgn(*self)),
        ensures
            r@ == pgn_str(view_pgn(*self)),
    {
        let ghost pv = view_pgn(*self);
        let mut out: Vec<char> = Vec::new();
        let mut i: usize = 0;
        while i < self.bracketed.len()
            invariant
                i <= self.bracketed@.len(),
                pv == view_pgn(*self),
                out@ == headers_str(pv.bracketed.subrange(0, i as int)),
            decreases self.bracketed@.len() - i,
        {
            out.push('[');
            push_str_chars(&mut out, self.bracketed[i].0.as_str());
            out.push(' ');
            out.push('"');
            push_str_chars(&mut out, self.bracketed[i].1.as_str());
            out.push('"');
            out.push(']');
            out.push('\n');
            proof {
                assert(pv.bracketed[i as int] == (self.bracketed@[i as int].0@,
                self.bracketed@[i as int].1@));
                assert(pv.bracketed.subrange(0, i + 1) =~= pv.bracketed.subrange(0, i as int).push(
                    pv.bracketed[i as int],
                ));
                lemma_headers_str_snoc(pv.bracketed.subrange(0, i as int), pv.bracketed[i as int]);
                assert(out@ =~= headers_str(pv.bracketed.subrange(0, i + 1)));
            }
            i += 1;
        }
        proof {
            assert(pv.bracketed.subrange(0, pv.bracketed.len() as int) =~= pv.bracketed);
        }
        if self.bracketed.len() > 0 {
            out.push('\n');
            out.push('\n');
            out.push('\n');
        }
        let ghost before_turns = out@;
        let mut i: usize = 0;
        while i < self.turns.len()
            invariant
                i <= self.turns@.len(),
                pv == view_pgn(*self),
                pgn_v_wf(view_pgn(*self)),
                out@ == before_turns + turns_nl_str(pv.turns.subrange(0, i as int)),
            decreases self.turns@.len() - i,
        {
            if i > 0 {
                out.push('\n');
            }
            proof {
                assert(turn_v_wf(pv.turns[i as int]));
                assert(pv.turns[i as int] == view_turn(self.turns@[i as int]));
            }
            write_turn(&mut out, &self.turns[i]);
            proof {
                assert(pv.turns.subrange(0, i + 1) =~= pv.turns.subrange(0, i as int).push(
                    pv.turns[i as int],
                ));
                lemma_turns_nl_str_snoc(pv.turns.subrange(0, i as int), pv.turns[i as int]);
                assert(out@ =~= before_turns + turns_nl_str(pv.turns.subrange(0, i + 1)));
            }
            i += 1;
        }
        proof {
            assert(pv.turns.subrange(0, pv.turns.len() as int) =~= pv.turns);
            assert(out@ =~= pgn_str(pv));
        }
        chars_to_string(&out)
    }
}

} // verus!
