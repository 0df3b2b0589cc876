use vstd::prelude::*;

verus! {

/// A square on the 14x14 four-player board. The textual form is a lowercase
/// file letter 'a'..'n' (column 0..13) followed by the 1-based rank number.
#[derive(Clone, Copy, Debug, PartialEq, Eq, Hash)]
pub struct Position {
    pub col: usize,
    pub row: usize,
}

/// Both coordinates of a square lie in [0, 14).
pub open spec fn pos_wf(p: Position) -> bool {
    p.row < 14 && p.col < 14
}

/// The most common type of move, with from and to squares.
///
/// If the piece moved is a pawn, `piece` is 'P'; likewise a captured pawn is
/// recorded as `Some('P')`. Neither letter is written in the textual form.
#[derive(Clone, Copy, Debug, PartialEq, Eq, Hash)]
pub struct BasicMove {
    pub piece: char,
    pub from: Position,
    pub captured: Option<char>,
    pub to: Position,
    pub promotion: Option<char>,
    pub checks: usize,
    pub mates: usize,
}

pub open spec fn bm_wf(b: BasicMove) -> bool {
    pos_wf(b.from) && pos_wf(b.to)
}

/// Any move: a player leaving the game ('#', 'S', 'T', 'R'), castling, or a
/// basic move. Castle moves record only how many simultaneous mates they give.
#[derive(Clone, Copy, Debug, PartialEq, Eq, Hash)]
pub enum Move {
    Checkmate,
    Timeout,
    Stalemate,
    Resign,
    KingCastle(usize),
    QueenCastle(usize),
    Normal(BasicMove),
}

pub open spec fn move_wf(m: Move) -> bool {
    match m {
        Move::Normal(b) => bm_wf(b),
        _ => true,
    }
}

/// A single move, optionally with a forced follow-up move, a free-text
/// description, and any number of alternative lines.
#[derive(Debug, PartialEq)]
pub struct QuarterTurn {
    pub main: Move,
    /// A second move forced on the same ply when a seat leaves the game.
    pub modifier: Option<Move>,
    /// An extra stalemate marker 'S' written after the move.
    pub extra_stalemate: bool,
    /// Free text notated as " { description } ".
    pub description: Option<String>,
    /// Alternative lines, each an ordered sequence of turns.
    pub alternatives: Vec<Vec<Turn>>,
}

/// Up to four quarter-turns sharing one turn number.
#[derive(Debug, PartialEq)]
pub struct Turn {
    /// The number shown at the head of the turn; 0 suppresses it.
    pub number: usize,
    /// Whether a second '.' follows the number, marking a mid-turn start.
    pub double_dot: bool,
    pub turns: Vec<QuarterTurn>,
}

/// The parsed form of the "Result" header tag.
#[derive(PartialEq, Eq, Clone, Copy, Debug)]
pub enum GameResult {
    /// The tag is missing or cannot be read.
    Error,
    /// The game was aborted.
    Aborted,
    /// Whether red/yellow won, and whether blue/green won; (false, false)
    /// is a draw.
    Team(bool, bool),
    /// Points for red, blue, yellow and green, in order.
    FFA([u16; 4]),
}

/// A parsed document: header tag pairs and the main line of turns.
#[derive(Debug, PartialEq)]
pub struct PGN4 {
    pub bracketed: Vec<(String, String)>,
    pub turns: Vec<Turn>,
}

/// Mathematical model of a quarter-turn.
#[verifier::ext_equal]
pub ghost struct QTurnV {
    pub main: Move,
    pub modifier: Option<Move>,
    pub extra_stalemate: bool,
    pub description: Option<Seq<char>>,
    pub alternatives: Seq<Seq<TurnV>>,
}

/// Mathematical model of a turn.
#[verifier::ext_equal]
pub ghost struct TurnV {
    pub number: usize,
    pub double_dot: bool,
    pub turns: Seq<QTurnV>,
}

/// Mathematical model of a document.
#[verifier::ext_equal]
pub ghost struct Pgn4V {
    pub bracketed: Seq<(Seq<char>, Seq<char>)>,
    pub turns: Seq<TurnV>,
}

pub open spec fn view_qturn(q: QuarterTurn) -> QTurnV
    decreases q,
{
    QTurnV {
        main: q.main,
        modifier: q.modifier,
        extra_stalemate: q.extra_stalemate,
        description: match q.description {
            Some(d) => Some(d@),
            None => None,
        },
        alternatives: Seq::new(
            q.alternatives@.len(),
            |i: int|
                if 0 <= i < q.alternatives@.len() {
                    view_turns(q.alternatives@[i]@)
                } else {
                    Seq::empty()
                },
        ),
    }
}

/// The models of a list of alternatives.
pub open spec fn view_alts(aa: Seq<Vec<Turn>>) -> Seq<Seq<TurnV>> {
    Seq::new(aa.len(), |i: int| if 0 <= i < aa.len() { view_turns(aa[i]@) } else { Seq::empty() })
}

/// The models of a list of quarter-turns.
pub open spec fn view_qturns(qs: Seq<QuarterTurn>) -> Seq<QTurnV> {
    Seq::new(qs.len(), |i: int| if 0 <= i < qs.len() { view_qturn(qs[i]) } else { arbitrary() })
}

/// A quarter-turn's model is assembled from its parts.
pub proof fn lemma_view_qturn_parts(q: QuarterTurn)
    ensures
        view_qturn(q).alternatives == view_alts(q.alternatives@),
{
    assert(view_qturn(q).alternatives =~= view_alts(q.alternatives@));
}

/// A turn's model is assembled from its parts.
pub proof fn lemma_view_turn_parts(t: Turn)
    ensures
        view_turn(t).turns == view_qturns(t.turns@),
{
    assert(view_turn(t).turns =~= view_qturns(t.turns@));
}

pub open spec fn view_turns(ts: Seq<Turn>) -> Seq<TurnV>
    decreases ts,
{
    Seq::new(ts.len(), |i: int| if 0 <= i < ts.len() { view_turn(ts[i]) } else { arbitrary() })
}

pub open spec fn view_turn(t: Turn) -> TurnV
    decreases t,
{
    TurnV {
        number: t.number,
        double_dot: t.double_dot,
        turns: Seq::new(
            t.turns@.len(),
            |i: int| if 0 <= i < t.turns@.len() { view_qturn(t.turns@[i]) } else { arbitrary() },
        ),
    }
}

/// The models of a list of header pairs.
pub open spec fn view_headers(bs: Seq<(String, String)>) -> Seq<(Seq<char>, Seq<char>)> {
    Seq::new(bs.len(), |i: int| (bs[i].0@, bs[i].1@))
}

pub open spec fn view_pgn(p: PGN4) -> Pgn4V {
    Pgn4V { bracketed: view_headers(p.bracketed@), turns: view_turns(p.turns@) }
}

/// Well-formedness of a modelled quarter-turn: its moves lie on the board and
/// every alternative is a sequence of well-formed turns.
pub open spec fn qturn_v_wf(q: QTurnV) -> bool
    decreases q,
{
    &&& move_wf(q.main)
    &&& match q.modifier {
        Some(m) => move_wf(m),
        None => true,
    }
    &&& forall|i: int|
        0 <= i < q.alternatives.len() ==> turns_v_wf(#[trigger] q.alternatives[i])
}

/// Well-formedness of a sequence of modelled turns.
pub open spec fn turns_v_wf(ts: Seq<TurnV>) -> bool
    decreases ts,
{
    forall|i: int| 0 <= i < ts.len() ==> turn_v_wf(#[trigger] ts[i])
}

/// Well-formedness of a modelled turn: it holds at least one quarter-turn.
pub open spec fn turn_v_wf(t: TurnV) -> bool
    decreases t,
{
    &&& 1 <= t.turns.len()
    &&& forall|i: int| 0 <= i < t.turns.len() ==> qturn_v_wf(#[trigger] t.turns[i])
}

pub open spec fn pgn_v_wf(p: Pgn4V) -> bool {
    turns_v_wf(p.turns)
}

impl QuarterTurn {
    /// The quarter-turn's model.
    pub open spec fn model(&self) -> QTurnV {
        view_qturn(*self)
    }
}

impl Turn {
    /// The turn's model.
    pub open spec fn model(&self) -> TurnV {
        view_turn(*self)
    }
}

impl PGN4 {
    /// The document's model.
    pub open spec fn model(&self) -> Pgn4V {
        view_pgn(*self)
    }
}

impl From<Move> for QuarterTurn {
    /// A quarter-turn holding just the given move.
    fn from(main: Move) -> (r: Self) {
        Self {
            main,
            modifier: None,
            extra_stalemate: false,
            description: None,
            alternatives: Vec::new(),
        }
    }
}

impl vstd::std_specs::convert::FromSpecImpl<Move> for QuarterTurn {
    // A `Vec` value cannot be written down in a specification, so the
    // conversion promises nothing here; `QuarterTurn::with_main` is the
    // contract-carrying way to build the same value.
    open spec fn obeys_from_spec() -> bool {
        false
    }

    open spec fn from_spec(main: Move) -> Self {
        arbitrary()
    }
}

impl QuarterTurn {
    /// A quarter-turn holding just the given move.
    pub fn with_main(main: Move) -> (r: Self)
        ensures
            view_qturn(r) == (QTurnV {
                main,
                modifier: None,
                extra_stalemate: false,
                description: None,
                alternatives: Seq::empty(),
            }),
    {
        let r = QuarterTurn {
            main,
            modifier: None,
            extra_stalemate: false,
            description: None,
            alternatives: Vec::new(),
        };
        proof {
            assert(view_qturn(r).alternatives =~= Seq::<Seq<TurnV>>::empty());
            assert(view_qturn(r) =~= QTurnV {
                main,
                modifier: None,
                extra_stalemate: false,
                description: None,
                alternatives: Seq::empty(),
            });
        }
        r
    }
}

/// Whether two moves are equal in every field.
pub fn move_eq(a: &Move, b: &Move) -> (r: bool)
    ensures
        r <==> *a == *b,
{
    match (a, b) {
        (Move::Checkmate, Move::Checkmate) => true,
        (Move::Timeout, Move::Timeout) => true,
        (Move::Stalemate, Move::Stalemate) => true,
        (Move::Resign, Move::Resign) => true,
        (Move::KingCastle(x), Move::KingCastle(y)) => x == y,
        (Move::QueenCastle(x), Move::QueenCastle(y)) => x == y,
        (Move::Normal(x), Move::Normal(y)) => {
            let pieces = x.piece == y.piece;
            let froms = x.from.col == y.from.col && x.from.row == y.from.row;
            let tos = x.to.col == y.to.col && x.to.row == y.to.row;
            let caps = match (x.captured, y.captured) {
                (Some(c), Some(d)) => c == d,
                (None, None) => true,
                _ => false,
            };
            let proms = match (x.promotion, y.promotion) {
                (Some(c), Some(d)) => c == d,
                (None, None) => true,
                _ => false,
            };
            pieces && froms && caps && tos && proms && x.checks == y.checks && x.mates == y.mates
        },
        _ => false,
    }
}

/// Whether two optional moves are equal.
pub fn opt_move_eq(a: &Option<Move>, b: &Option<Move>) -> (r: bool)
    ensures
        r <==> *a == *b,
{
    match (a, b) {
        (Some(x), Some(y)) => move_eq(x, y),
        (None, None) => true,
        _ => false,
    }
}

fn copy_opt_string(s: &Option<String>) -> (r: Option<String>)
    ensures
        r matches Some(x) ==> s matches Some(y) && x@ == y@,
        r is None <==> s is None,
{
    match s {
        Some(x) => Some(x.clone()),
        None => None,
    }
}

fn copy_qturn(q: &QuarterTurn) -> (r: QuarterTurn)
    ensures
        view_qturn(r) == view_qturn(*q),
    decreases *q,
{
    let mut alternatives: Vec<Vec<Turn>> = Vec::new();
    let mut i: usize = 0;
    while i < q.alternatives.len()
        invariant
            i <= q.alternatives@.len(),
            alternatives@.len() == i as int,
            forall|k: int|
                0 <= k < i ==> view_turns(#[trigger] alternatives@[k]@) == view_turns(
                    q.alternatives@[k]@,
                ),
        decreases q.alternatives@.len() - i,
    {
        let alt = copy_turns(&q.alternatives[i]);
        alternatives.push(alt);
        i += 1;
    }
    let r = QuarterTurn {
        main: q.main,
        modifier: q.modifier,
        extra_stalemate: q.extra_stalemate,
        description: copy_opt_string(&q.description),
        alternatives,
    };
    proof {
        assert forall|k: int| 0 <= k < r.alternatives@.len() implies view_turns(
            #[trigger] r.alternatives@[k]@,
        ) == view_turns(q.alternatives@[k]@) by {}
        assert(view_qturn(r).alternatives =~= view_qturn(*q).alternatives);
        assert(view_qturn(r) =~= view_qturn(*q));
    }
    r
}

fn copy_turns(ts: &Vec<Turn>) -> (r: Vec<Turn>)
    ensures
        view_turns(r@) == view_turns(ts@),
    decreases *ts,
{
    let mut r: Vec<Turn> = Vec::new();
    let mut i: usize = 0;
    while i < ts.len()
        invariant
            i <= ts@.len(),
            r@.len() == i as int,
            forall|k: int| 0 <= k < i ==> view_turn(#[trigger] r@[k]) == view_turn(ts@[k]),
        decreases ts@.len() - i,
    {
        let t = copy_turn(&ts[i]);
        r.push(t);
        i += 1;
    }
    proof {
        assert(view_turns(r@) =~= view_turns(ts@));
    }
    r
}

fn copy_turn(t: &Turn) -> (r: Turn)
    ensures
        view_turn(r) == view_turn(*t),
    decreases *t,
{
    let mut turns: Vec<QuarterTurn> = Vec::new();
    let mut i: usize = 0;
    while i < t.turns.len()
        invariant
            i <= t.turns@.len(),
            turns@.len() == i as int,
            forall|k: int| 0 <= k < i ==> view_qturn(#[trigger] turns@[k]) == view_qturn(t.turns@[k]),
        decreases t.turns@.len() - i,
    {
        let q = copy_qturn(&t.turns[i]);
        turns.push(q);
        i += 1;
    }
    let r = Turn { number: t.number, double_dot: t.double_dot, turns };
    proof {
        assert forall|k: int| 0 <= k < r.turns@.len() implies view_qturn(#[trigger] r.turns@[k])
            == view_qturn(t.turns@[k]) by {
            assert(view_qturn(turns@[k]) == view_qturn(t.turns@[k]));
        }
        assert(view_turn(r).turns =~= view_turn(*t).turns);
        assert(view_turn(r) =~= view_turn(*t));
    }
    r
}

impl Clone for QuarterTurn {
    /// A clone has the same model as the original.
    fn clone(&self) -> (r: Self)
        ensures
            view_qturn(r) == view_qturn(*self),
    {
        copy_qturn(self)
    }
}

impl Clone for Turn {
    /// A clone has the same model as the original.
    fn clone(&self) -> (r: Self)
        ensures
            view_turn(r) == view_turn(*self),
    {
        copy_turn(self)
    }
}

impl Clone for PGN4 {
    /// A clone has the same model as the original.
    fn clone(&self) -> (r: Self)
        ensures
            view_pgn(r) == view_pgn(*self),
    {
        let mut bracketed: Vec<(String, String)> = Vec::new();
        let mut i: usize = 0;
        while i < self.bracketed.len()
            invariant
                i <= self.bracketed@.len(),
                bracketed@.len() == i as int,
                forall|k: int|
                    0 <= k < i ==> (#[trigger] bracketed@[k]).0@ == self.bracketed@[k].0@
                        && bracketed@[k].1@ == self.bracketed@[k].1@,
            decreases self.bracketed@.len() - i,
        {
            let pair = (self.bracketed[i].0.clone(), self.bracketed[i].1.clone());
            bracketed.push(pair);
            i += 1;
        }
        let turns = copy_turns(&self.turns);
        let r = PGN4 { bracketed, turns };
        proof {
            assert(view_pgn(r).bracketed =~= view_pgn(*self).bracketed);
            assert(view_pgn(r) =~= view_pgn(*self));
        }
        r
    }
}

} // verus!
