use crate::types::{view_qturn, view_turns, QuarterTurn, Turn, TurnV, PGN4};
use vstd::prelude::*;
use vstd::slice::{slice_index_get, slice_subrange};

verus! {

/// A partially followed path: the settled even-length prefix, and how many
/// plies of the next segment have been walked.
#[derive(Clone, Debug, PartialEq)]
pub struct PartialPath<'a> {
    main: &'a [usize],
    last: usize,
}

/// Whether a partial path has fully walked `path`.
pub open spec fn sp_done(pm: Seq<usize>, pl: usize, path: Seq<usize>) -> bool {
    path.len() == pm.len() + 1 && path[path.len() - 1] == pl && path.take(pm.len() as int) == pm
}

impl<'a> PartialPath<'a> {
    pub closed spec fn prefix(&self) -> Seq<usize> {
        self.main@
    }

    pub closed spec fn walked(&self) -> usize {
        self.last
    }

    /// Whether this partial path has fully walked `path`.
    pub fn done(&self, path: &[usize]) -> (r: bool)
        ensures
            r == sp_done(self.prefix(), self.walked(), path@),
    {
        let n = self.main.len();
        if path.len() > 0 && path.len() - 1 == n && *slice_index_get(path, path.len() - 1)
            == self.last {
            let mut i: usize = 0;
            while i < self.main.len()
                invariant
                    i <= self.main@.len(),
                    path@.len() == self.main@.len() + 1,
                    path@[path@.len() - 1] == self.last,
                    forall|k: int| 0 <= k < i ==> path@[k] == self.main@[k],
                decreases self.main@.len() - i,
            {
                if *slice_index_get(path, i) != *slice_index_get(self.main, i) {
                    proof {
                        assert(path@.take(self.main@.len() as int)[i as int] != self.main@[i as int]);
                    }
                    return false;
                }
                i += 1;
            }
            proof {
                assert(path@.take(self.main@.len() as int) =~= self.main@);
            }
            true
        } else {
            proof {
                if path@.len() == self.main@.len() + 1 {
                    assert(path@[path@.len() - 1] != self.last);
                }
            }
            false
        }
    }
}

impl<'a> Default for PartialPath<'a> {
    /// An empty prefix with no plies walked.
    fn default() -> (r: Self)
        ensures
            r.prefix() == Seq::<usize>::empty(),
            r.walked() == 0,
    {
        let r = PartialPath { main: &[], last: 0 };
        proof {
            assert(r.main@ =~= Seq::<usize>::empty());
        }
        r
    }
}

/// The ways walking a tree can fail.
#[derive(PartialEq, Debug, Clone, Copy)]
pub enum VisitingError {
    /// The partial path does not fit the path being followed.
    PartialPathWrong,
    /// The path has an even number of entries.
    EvenPath,
    /// The walk was already at the last quarter-turn of its line.
    UnexpectedEndOfGame,
    /// A zero ply stands anywhere but in the bare path `[0]`.
    ZeroInPath,
    /// A turn with no quarter-turns was met.
    EmptyTurn,
    /// No quarter-turn is hovered, or the alternative index is out of range.
    InvalidAlternative,
    /// An inconsistent walk state was met.
    Internal,
}

/// A cursor position is the sentinel start, or a quarter-turn in range.
pub open spec fn cursor_inv(ts: Seq<TurnV>, i: usize, j: usize) -> bool {
    if j == usize::MAX {
        i == 0
    } else {
        i < ts.len() && j < ts[i as int].turns.len()
    }
}

/// Whether no quarter-turn follows the position.
pub open spec fn sp_last(ts: Seq<TurnV>, i: usize, j: usize) -> bool {
    (i == 0 && j == usize::MAX && ts.len() == 0) || (j != usize::MAX && i + 1 == ts.len() && j + 1
        == ts[i as int].turns.len())
}

/// How many alternatives hang off the hovered quarter-turn.
pub open spec fn sp_alt_count(ts: Seq<TurnV>, i: usize, j: usize) -> usize {
    if j == usize::MAX {
        0
    } else {
        ts[i as int].turns[j as int].alternatives.len() as usize
    }
}

/// The position one quarter-turn further, crossing turn boundaries.
pub open spec fn sp_next(ts: Seq<TurnV>, i: usize, j: usize) -> Result<(usize, usize), VisitingError> {
    if i == 0 && j == usize::MAX {
        if ts.len() == 0 {
            Err(VisitingError::UnexpectedEndOfGame)
        } else if ts[0].turns.len() == 0 {
            Err(VisitingError::EmptyTurn)
        } else {
            Ok((0usize, 0usize))
        }
    } else {
        if j >= ts[i as int].turns.len() {
            Err(VisitingError::Internal)
        } else if j + 1 == ts[i as int].turns.len() {
            if i + 1 == ts.len() {
                Err(VisitingError::UnexpectedEndOfGame)
            } else if ts[i + 1].turns.len() == 0 {
                Err(VisitingError::EmptyTurn)
            } else {
                Ok(((i + 1) as usize, 0usize))
            }
        } else {
            Ok((i, (j + 1) as usize))
        }
    }
}


/// One step of following a path: advance a ply when the walked count lags,
/// and descend into an alternative when a segment is complete. The pair
/// holds the cursor outcome and the partial path's new state.
pub open spec fn sp_follow_once(
    ts: Seq<TurnV>,
    i: usize,
    j: usize,
    pm: Seq<usize>,
    pl: usize,
    main: Seq<usize>,
) -> (Result<(Seq<TurnV>, usize, usize), VisitingError>, Seq<usize>, usize) {
    let len = pm.len() as int;
    if len >= main.len() || pm != main.take(len) || pl > main[len] {
        (Err(VisitingError::PartialPathWrong), pm, pl)
    } else if pl != main[len] {
        match sp_next(ts, i, j) {
            Err(e) => (Err(e), pm, pl),
            Ok((i2, j2)) => sp_follow_tail(ts, i2, j2, pm, (pl + 1) as usize, main, true),
        }
    } else {
        sp_follow_tail(ts, i, j, pm, pl, main, false)
    }
}

/// The rest of one following step, after any ply advance.
pub open spec fn sp_follow_tail(
    ts: Seq<TurnV>,
    i: usize,
    j: usize,
    pm: Seq<usize>,
    pl: usize,
    main: Seq<usize>,
    incremented: bool,
) -> (Result<(Seq<TurnV>, usize, usize), VisitingError>, Seq<usize>, usize) {
    let len = pm.len() as int;
    if pl == main[len] {
        if main.len() == len + 1 {
            if !incremented {
                (Err(VisitingError::UnexpectedEndOfGame), pm, pl)
            } else {
                (Ok((ts, i, j)), pm, pl)
            }
        } else if main.len() == len + 2 {
            (Err(VisitingError::EvenPath), pm, pl)
        } else {
            let alt = main[len + 1];
            if main[len + 2] == 0 {
                (Err(VisitingError::ZeroInPath), pm, pl)
            } else if j == usize::MAX || alt == 0 || sp_alt_count(ts, i, j) < alt {
                (Err(VisitingError::InvalidAlternative), pm, pl)
            } else {
                let l2 = ts[i as int].turns[j as int].alternatives[alt - 1];
                match sp_next(l2, 0, usize::MAX) {
                    Err(e) => (Err(e), pm, pl),
                    Ok((i2, j2)) => (Ok((l2, i2, j2)), main.take(len + 2), 1usize),
                }
            }
        }
    } else {
        (Ok((ts, i, j)), pm, pl)
    }
}

/// What all cursors offer: where they stand, what they hover over, and how
/// they advance, ply by ply and into alternatives.
pub trait VisitorCommon where Self: Sized {
    /// The line of turns the cursor stands in.
    spec fn line(&self) -> Seq<TurnV>;

    /// The turn index of the position.
    spec fn cur_i(&self) -> usize;

    /// The quarter-turn index of the position; `usize::MAX` stands for
    /// "before the first quarter-turn".
    spec fn cur_j(&self) -> usize;

    /// Whether this is the last quarter-turn of the line.
    fn last(&self) -> (r: bool)
        requires
            cursor_inv(self.line(), self.cur_i(), self.cur_j()),
        ensures
            r == sp_last(self.line(), self.cur_i(), self.cur_j()),
    ;

    /// How many alternatives the hovered quarter-turn has.
    fn alternatives(&self) -> (r: usize)
        requires
            cursor_inv(self.line(), self.cur_i(), self.cur_j()),
        ensures
            r == sp_alt_count(self.line(), self.cur_i(), self.cur_j()),
    ;

    /// The hovered quarter-turn, if one is hovered.
    fn qturn(&self) -> (r: Option<&QuarterTurn>)
        requires
            cursor_inv(self.line(), self.cur_i(), self.cur_j()),
        ensures
            match r {
                Some(q) => self.cur_j() != usize::MAX && view_qturn(*q) == self.line()[self.cur_i() as int].turns[self.cur_j() as int],
                None => self.cur_j() == usize::MAX,
            },
    ;

    /// Move one quarter-turn forward.
    fn next(self) -> (r: Result<Self, VisitingError>)
        requires
            cursor_inv(self.line(), self.cur_i(), self.cur_j()),
        ensures
            match r {
                Ok(v) => v.line() == self.line() && sp_next(self.line(), self.cur_i(), self.cur_j())
                    == Ok::<_, VisitingError>((v.cur_i(), v.cur_j())) && cursor_inv(
                    v.line(),
                    v.cur_i(),
                    v.cur_j(),
                ),
                Err(e) => sp_next(self.line(), self.cur_i(), self.cur_j()) == Err::<
                    (usize, usize),
                    _,
                >(e),
            },
    ;

    /// Enter the `alt`-th (1-based) alternative of the hovered quarter-turn,
    /// standing before its first quarter-turn.
    fn into_alternative(self, alt: usize) -> (r: Result<Self, VisitingError>)
        requires
            cursor_inv(self.line(), self.cur_i(), self.cur_j()),
        ensures
            match r {
                Ok(v) => self.cur_j() != usize::MAX && 1 <= alt && alt <= sp_alt_count(
                    self.line(),
                    self.cur_i(),
                    self.cur_j(),
                ) && v.line() == self.line()[self.cur_i() as int].turns[self.cur_j() as int].alternatives[alt - 1]
                    && v.cur_i() == 0 && v.cur_j() == usize::MAX,
                Err(e) => e == VisitingError::InvalidAlternative && (self.cur_j() == usize::MAX
                    || alt == 0 || sp_alt_count(self.line(), self.cur_i(), self.cur_j()) < alt),
            },
    ;

    /// Follow one step of a path against a partially followed prefix.
    fn follow_once<'p>(self, partial: &mut PartialPath<'p>, main: &'p [usize]) -> (r: Result<
        Self,
        VisitingError,
    >)
        requires
            cursor_inv(self.line(), self.cur_i(), self.cur_j()),
        ensures
            ({
                let (res, pm2, pl2) = sp_follow_once(
                    self.line(),
                    self.cur_i(),
                    self.cur_j(),
                    old(partial).prefix(),
                    old(partial).walked(),
                    main@,
                );
                final(partial).prefix() == pm2 && final(partial).walked() == pl2 && match r {
                    Ok(v) => res == Ok::<_, VisitingError>((v.line(), v.cur_i(), v.cur_j()))
                        && cursor_inv(v.line(), v.cur_i(), v.cur_j()),
                    Err(e) => res == Err::<(Seq<TurnV>, usize, usize), _>(e),
                }
            }),
    {
        let mut cur = self;
        let len = partial.main.len();
        if len >= main.len() {
            return Err(VisitingError::PartialPathWrong);
        }
        let mut k: usize = 0;
        while k < len
            invariant
                k <= len,
                len == partial.main@.len(),
                len < main@.len(),
                forall|t: int| 0 <= t < k ==> partial.main@[t] == main@[t],
            decreases len - k,
        {
            if *slice_index_get(partial.main, k) != *slice_index_get(main, k) {
                proof {
                    assert(partial.main@[k as int] != main@.take(len as int)[k as int]);
                }
                return Err(VisitingError::PartialPathWrong);
            }
            k += 1;
        }
        proof {
            assert(partial.main@ =~= main@.take(len as int));
        }
        let target = *slice_index_get(main, len);
        if partial.last > target {
            return Err(VisitingError::PartialPathWrong);
        }
        let increment = partial.last != target;
        if increment {
            cur = match cur.next() {
                Ok(v) => v,
                Err(e) => {
                    return Err(e);
                },
            };
            partial.last = partial.last + 1;
        }
        if partial.last == target {
            if main.len() == len + 1 {
                if !increment {
                    return Err(VisitingError::UnexpectedEndOfGame);
                }
            } else if main.len() == len + 2 {
                return Err(VisitingError::EvenPath);
            } else {
                let alt = *slice_index_get(main, len + 1);
                if *slice_index_get(main, len + 2) == 0 {
                    return Err(VisitingError::ZeroInPath);
                }
                cur = match cur.into_alternative(alt) {
                    Ok(v) => v,
                    Err(e) => {
                        return Err(e);
                    },
                };
                cur = match cur.next() {
                    Ok(v) => v,
                    Err(e) => {
                        return Err(e);
                    },
                };
                partial.main = slice_subrange(main, 0, len + 2);
                partial.last = 1;
                proof {
                    assert(partial.main@ =~= main@.take(len + 2));
                }
            }
        }
        Ok(cur)
    }

    /// Follow a whole path from a partially followed prefix: the spec walks
    /// one following step at a time until the partial path has covered the
    /// whole path. An even-length path fails with `EvenPath`, a zero
    /// anywhere but in the bare path `[0]` with `ZeroInPath`; `[0]` itself
    /// is a no-op.
    fn follow_path<'p>(self, partial: &mut PartialPath<'p>, path: &'p [usize]) -> (r: Result<
        Self,
        VisitingError,
    >)
        requires
            cursor_inv(self.line(), self.cur_i(), self.cur_j()),
        ensures
            path@.len() % 2 == 0 ==> r == Err::<Self, VisitingError>(VisitingError::EvenPath),
            path@.len() == 1 && path@[0] == 0 ==> (r matches Ok(v) && v == self) && *final(partial)
                == *old(partial),
            path@.len() % 2 == 1 && !(path@.len() == 1 && path@[0] == 0) && (exists|t: int|
                0 <= t < path@.len() && path@[t] == 0) ==> r == Err::<Self, VisitingError>(
                VisitingError::ZeroInPath,
            ),
            (path@.len() % 2 == 1 && !(path@.len() == 1 && path@[0] == 0) && (forall|t: int|
                0 <= t < path@.len() ==> path@[t] != 0)) ==> ({
                let res = sp_follow_path(
                    self.line(),
                    self.cur_i(),
                    self.cur_j(),
                    old(partial).prefix(),
                    old(partial).walked(),
                    path@,
                );
                match r {
                    Ok(v) => res == Ok::<(Seq<TurnV>, usize, usize, Seq<usize>, usize),
                        VisitingError,
                    >(
                        (
                            v.line(),
                            v.cur_i(),
                            v.cur_j(),
                            final(partial).prefix(),
                            final(partial).walked(),
                        ),
                    ) && cursor_inv(v.line(), v.cur_i(), v.cur_j()) && sp_done(
                        final(partial).prefix(),
                        final(partial).walked(),
                        path@,
                    ),
                    Err(e) => res == Err::<
                        (Seq<TurnV>, usize, usize, Seq<usize>, usize),
                        VisitingError,
                    >(e),
                }
            }),
    {
        if path.len() % 2 == 0 {
            return Err(VisitingError::EvenPath);
        }
        if path.len() == 1 && *slice_index_get(path, 0) == 0 {
            return Ok(self);
        }
        let mut k: usize = 0;
        while k < path.len()
            invariant
                k <= path@.len(),
                path@.len() % 2 == 1,
                !(path@.len() == 1 && path@[0] == 0),
                forall|t: int| 0 <= t < k ==> path@[t] != 0,
            decreases path@.len() - k,
        {
            if *slice_index_get(path, k) == 0 {
                return Err(VisitingError::ZeroInPath);
            }
            k += 1;
        }
        let ghost line0 = self.line();
        let ghost i0 = self.cur_i();
        let ghost j0 = self.cur_j();
        let ghost pm_start = partial.prefix();
        let ghost pl_start = partial.walked();
        let mut cur = self;
        loop
            invariant
                cursor_inv(cur.line(), cur.cur_i(), cur.cur_j()),
                path@.len() % 2 == 1,
                !(path@.len() == 1 && path@[0] == 0),
                forall|t: int| 0 <= t < path@.len() ==> path@[t] != 0,
                line0 == self.line() && i0 == self.cur_i() && j0 == self.cur_j(),
                pm_start == old(partial).prefix() && pl_start == old(partial).walked(),
                sp_follow_path(line0, i0, j0, pm_start, pl_start, path@) == sp_follow_path(
                    cur.line(),
                    cur.cur_i(),
                    cur.cur_j(),
                    partial.prefix(),
                    partial.walked(),
                    path@,
                ),
            decreases
                    path@.len() - partial.prefix().len(),
                    (if partial.prefix().len() < path@.len() {
                        let v = path@[partial.prefix().len() as int] - partial.walked();
                        if v >= 0 {
                            v
                        } else {
                            0
                        }
                    } else {
                        0int
                    }),
        {
            let is_done = partial.done(path);
            if is_done {
                proof {
                    assert(sp_follow_path(
                        cur.line(),
                        cur.cur_i(),
                        cur.cur_j(),
                        partial.prefix(),
                        partial.walked(),
                        path@,
                    ) == Ok::<(Seq<TurnV>, usize, usize, Seq<usize>, usize), VisitingError>(
                        (
                            cur.line(),
                            cur.cur_i(),
                            cur.cur_j(),
                            partial.prefix(),
                            partial.walked(),
                        ),
                    ));
                }
                return Ok(cur);
            }
            let ghost pm0 = partial.prefix();
            let ghost pl0 = partial.walked();
            let ghost lc = cur.line();
            let ghost ic = cur.cur_i();
            let ghost jc = cur.cur_j();
            cur = match cur.follow_once(partial, path) {
                Ok(v) => v,
                Err(e) => {
                    proof {
                        assert(!sp_done(pm0, pl0, path@));
                        assert(sp_follow_path(lc, ic, jc, pm0, pl0, path@) == Err::<
                            (Seq<TurnV>, usize, usize, Seq<usize>, usize),
                            VisitingError,
                        >(e));
                    }
                    return Err(e);
                },
            };
            proof {
                assert(!sp_done(pm0, pl0, path@));
                lemma_follow_once_progress(lc, ic, jc, pm0, pl0, path@);
                assert(sp_follow_path(lc, ic, jc, pm0, pl0, path@) == sp_follow_path(
                    cur.line(),
                    cur.cur_i(),
                    cur.cur_j(),
                    partial.prefix(),
                    partial.walked(),
                    path@,
                ));
            }
        }
    }
}

/// Following a whole path, as one step at a time: done means the cursor
/// stands where the path points; otherwise one following step runs and the
/// walk goes on from its outcome.
pub open spec fn sp_follow_path(
    ts: Seq<TurnV>,
    i: usize,
    j: usize,
    pm: Seq<usize>,
    pl: usize,
    path: Seq<usize>,
) -> Result<(Seq<TurnV>, usize, usize, Seq<usize>, usize), VisitingError>
    decreases
            path.len() - pm.len(),
            (if pm.len() < path.len() && pl <= path[pm.len() as int] {
                path[pm.len() as int] - pl
            } else {
                0int
            }),
{
    if sp_done(pm, pl, path) {
        Ok((ts, i, j, pm, pl))
    } else {
        let (res, pm2, pl2) = sp_follow_once(ts, i, j, pm, pl, path);
        match res {
            Err(e) => Err(e),
            Ok((ts2, i2, j2)) => {
                if pm2.len() <= path.len() && path.len() - pm2.len() < path.len() - pm.len() {
                    sp_follow_path(ts2, i2, j2, pm2, pl2, path)
                } else if pm2 == pm && pl < pl2 && pm.len() < path.len() && pl2 <= path[pm.len() as int] {
                    sp_follow_path(ts2, i2, j2, pm2, pl2, path)
                } else {
                    Err(VisitingError::Internal)
                }
            },
        }
    }
}

/// A successful following step that has not finished the path makes
/// progress: it either settles two more path entries, or walks one more ply
/// of the current segment.
proof fn lemma_follow_once_progress(
    ts: Seq<TurnV>,
    i: usize,
    j: usize,
    pm: Seq<usize>,
    pl: usize,
    main: Seq<usize>,
)
    requires
        !sp_done(pm, pl, main),
    ensures
        ({
            let (res, pm2, pl2) = sp_follow_once(ts, i, j, pm, pl, main);
            res is Ok ==> (pm2.len() <= main.len() && main.len() - pm2.len() < main.len()
                - pm.len()) || (pm2 == pm && pl < pl2 && pm.len() < main.len() && pl2
                <= main[pm.len() as int])
        }),
{
    let len = pm.len() as int;
    let (res, pm2, pl2) = sp_follow_once(ts, i, j, pm, pl, main);
    if res is Ok {
        assert(len < main.len() && pm == main.take(len) && pl <= main[len]);
        if pl != main[len] {
            match sp_next(ts, i, j) {
                Err(_) => {},
                Ok((i2, j2)) => {
                    assert((res, pm2, pl2) == sp_follow_tail(
                        ts,
                        i2,
                        j2,
                        pm,
                        (pl + 1) as usize,
                        main,
                        true,
                    ));
                },
            }
        } else {
            assert((res, pm2, pl2) == sp_follow_tail(ts, i, j, pm, pl, main, false));
            if main.len() == len + 1 {
                assert(sp_done(pm, pl, main));
            }
        }
    }
}
/// A read-only cursor over the quarter-turns of a line.
#[derive(Debug, Clone)]
pub struct Visitor<'a> {
    turns: &'a Vec<Turn>,
    i: usize,
    j: usize,
}

impl<'a> Visitor<'a> {
    /// A cursor standing before the first quarter-turn of a document's main
    /// line.
    pub fn new(pgn4: &'a PGN4) -> (r: Self)
        ensures
            r.line() == view_turns(pgn4.turns@),
            r.cur_i() == 0,
            r.cur_j() == usize::MAX,
            cursor_inv(r.line(), r.cur_i(), r.cur_j()),
    {
        Self { turns: &pgn4.turns, i: 0, j: usize::MAX }
    }
}

impl<'a> VisitorCommon for Visitor<'a> {
    closed spec fn line(&self) -> Seq<TurnV> {
        view_turns(self.turns@)
    }

    closed spec fn cur_i(&self) -> usize {
        self.i
    }

    closed spec fn cur_j(&self) -> usize {
        self.j
    }

    fn last(&self) -> (r: bool) {
        let n_turns = self.turns.len();
        if self.i == 0 && self.j == usize::MAX && n_turns == 0 {
            true
        } else if self.j == usize::MAX {
            false
        } else {
            self.i + 1 == n_turns && self.j + 1 == self.turns[self.i].turns.len()
        }
    }

    fn alternatives(&self) -> (r: usize) {
        if self.j == usize::MAX {
            0
        } else {
            proof {
                assert(self.line()[self.i as int].turns[self.j as int] == view_qturn(
                    self.turns@[self.i as int].turns@[self.j as int],
                ));
                crate::types::lemma_view_turn_parts(self.turns@[self.i as int]);
                crate::types::lemma_view_qturn_parts(self.turns@[self.i as int].turns@[self.j as int]);
            }
            self.turns[self.i].turns[self.j].alternatives.len()
        }
    }

    fn qturn(&self) -> (r: Option<&QuarterTurn>) {
        if self.j == usize::MAX {
            None
        } else {
            proof {
                crate::types::lemma_view_turn_parts(self.turns@[self.i as int]);
            }
            Some(&self.turns[self.i].turns[self.j])
        }
    }

    fn next(self) -> (r: Result<Self, VisitingError>) {
        let i = self.i;
        let j = self.j;
        if i == 0 && j == usize::MAX {
            return if self.turns.len() == 0 {
                Err(VisitingError::UnexpectedEndOfGame)
            } else if self.turns[0].turns.len() == 0 {
                proof {
                    crate::types::lemma_view_turn_parts(self.turns@[0]);
                }
                Err(VisitingError::EmptyTurn)
            } else {
                proof {
                    crate::types::lemma_view_turn_parts(self.turns@[0]);
                }
                Ok(Self { turns: self.turns, i: 0, j: 0 })
            };
        }
        let n_turns = self.turns.len();
        let len = self.turns[i].turns.len();
        proof {
            crate::types::lemma_view_turn_parts(self.turns@[i as int]);
        }
        if j >= len {
            Err(VisitingError::Internal)
        } else if j + 1 == len {
            if i + 1 == n_turns {
                Err(VisitingError::UnexpectedEndOfGame)
            } else if self.turns[i + 1].turns.len() == 0 {
                proof {
                    crate::types::lemma_view_turn_parts(self.turns@[i + 1]);
                }
                Err(VisitingError::EmptyTurn)
            } else {
                proof {
                    crate::types::lemma_view_turn_parts(self.turns@[i + 1]);
                }
                Ok(Self { turns: self.turns, i: i + 1, j: 0 })
            }
        } else {
            Ok(Self { turns: self.turns, i, j: j + 1 })
        }
    }

    fn into_alternative(self, alt: usize) -> (r: Result<Self, VisitingError>) {
        if self.j == usize::MAX {
            return Err(VisitingError::InvalidAlternative);
        }
        proof {
            crate::types::lemma_view_turn_parts(self.turns@[self.i as int]);
            crate::types::lemma_view_qturn_parts(self.turns@[self.i as int].turns@[self.j as int]);
        }
        if alt == 0 || self.turns[self.i].turns[self.j].alternatives.len() < alt {
            return Err(VisitingError::InvalidAlternative);
        }
        let r = Self {
            turns: &self.turns[self.i].turns[self.j].alternatives[alt - 1],
            i: 0,
            j: usize::MAX,
        };
        proof {
            assert(r.line() == self.line()[self.i as int].turns[self.j as int].alternatives[alt
                - 1]);
        }
        Ok(r)
    }
}

/// A mutable cursor over the quarter-turns of a line.
#[derive(Debug)]
pub struct VisitorMut<'a> {
    turns: &'a mut Vec<Turn>,
    i: usize,
    j: usize,
}

impl<'a> VisitorMut<'a> {
    /// A mutable cursor standing before the first quarter-turn of a
    /// document's main line.
    pub fn new(pgn4: &'a mut PGN4) -> (r: Self)
        ensures
            r.line() == view_turns(old(pgn4).turns@),
            r.cur_i() == 0,
            r.cur_j() == usize::MAX,
    {
        Self { turns: &mut pgn4.turns, i: 0, j: usize::MAX }
    }

    /// A shorter-lived cursor at the same spot, so a caller can keep a
    /// trail of handles and backtrack.
    pub fn reborrow<'b>(&'b mut self) -> (r: VisitorMut<'b>)
        ensures
            r.line() == old(self).line(),
            r.cur_i() == old(self).cur_i(),
            r.cur_j() == old(self).cur_j(),
    {
        VisitorMut { turns: &mut self.turns, i: self.i, j: self.j }
    }

    /// The hovered quarter-turn, mutably, if one is hovered.
    pub fn qturn_mut<'b>(&'b mut self) -> (r: Option<&'b mut QuarterTurn>)
        requires
            cursor_inv(self.line(), self.cur_i(), self.cur_j()),
        ensures
            (r is Some) == (old(self).cur_j() != usize::MAX),
    {
        if self.j == usize::MAX {
            None
        } else {
            proof {
                crate::types::lemma_view_turn_parts(self.turns@[self.i as int]);
            }
            Some(&mut self.turns[self.i].turns[self.j])
        }
    }
}

impl<'a> VisitorCommon for VisitorMut<'a> {
    closed spec fn line(&self) -> Seq<TurnV> {
        view_turns(self.turns@)
    }

    closed spec fn cur_i(&self) -> usize {
        self.i
    }

    closed spec fn cur_j(&self) -> usize {
        self.j
    }

    fn last(&self) -> (r: bool) {
        let n_turns = self.turns.len();
        if self.i == 0 && self.j == usize::MAX && n_turns == 0 {
            true
        } else if self.j == usize::MAX {
            false
        } else {
            self.i + 1 == n_turns && self.j + 1 == self.turns[self.i].turns.len()
        }
    }

    fn alternatives(&self) -> (r: usize) {
        if self.j == usize::MAX {
            0
        } else {
            proof {
                crate::types::lemma_view_turn_parts(self.turns@[self.i as int]);
                crate::types::lemma_view_qturn_parts(self.turns@[self.i as int].turns@[self.j as int]);
            }
            self.turns[self.i].turns[self.j].alternatives.len()
        }
    }

    fn qturn(&self) -> (r: Option<&QuarterTurn>) {
        if self.j == usize::MAX {
            None
        } else {
            proof {
                crate::types::lemma_view_turn_parts(self.turns@[self.i as int]);
            }
            Some(&self.turns[self.i].turns[self.j])
        }
    }

    fn next(self) -> (r: Result<Self, VisitingError>) {
        let i = self.i;
        let j = self.j;
        if i == 0 && j == usize::MAX {
            return if self.turns.len() == 0 {
                Err(VisitingError::UnexpectedEndOfGame)
            } else if self.turns[0].turns.len() == 0 {
                proof {
                    crate::types::lemma_view_turn_parts(self.turns@[0]);
                }
                Err(VisitingError::EmptyTurn)
            } else {
                proof {
                    crate::types::lemma_view_turn_parts(self.turns@[0]);
                }
                Ok(Self { turns: self.turns, i: 0, j: 0 })
            };
        }
        let n_turns = self.turns.len();
        let len = self.turns[i].turns.len();
        proof {
            crate::types::lemma_view_turn_parts(self.turns@[i as int]);
        }
        if j >= len {
            Err(VisitingError::Internal)
        } else if j + 1 == len {
            if i + 1 == n_turns {
                Err(VisitingError::UnexpectedEndOfGame)
            } else if self.turns[i + 1].turns.len() == 0 {
                proof {
                    crate::types::lemma_view_turn_parts(self.turns@[i + 1]);
                }
                Err(VisitingError::EmptyTurn)
            } else {
                proof {
                    crate::types::lemma_view_turn_parts(self.turns@[i + 1]);
                }
                Ok(Self { turns: self.turns, i: i + 1, j: 0 })
            }
        } else {
            Ok(Self { turns: self.turns, i, j: j + 1 })
        }
    }

    fn into_alternative(self, alt: usize) -> (r: Result<Self, VisitingError>) {
        if self.j == usize::MAX {
            return Err(VisitingError::InvalidAlternative);
        }
        proof {
            crate::types::lemma_view_turn_parts(self.turns@[self.i as int]);
            crate::types::lemma_view_qturn_parts(self.turns@[self.i as int].turns@[self.j as int]);
        }
        if alt == 0 || self.turns[self.i].turns[self.j].alternatives.len() < alt {
            return Err(VisitingError::InvalidAlternative);
        }
        let i = self.i;
        let j = self.j;
        let ghost self_line = self.line();
        let r = Self {
            turns: &mut self.turns[i].turns[j].alternatives[alt - 1],
            i: 0,
            j: usize::MAX,
        };
        proof {
            assert(r.line() == self_line[i as int].turns[j as int].alternatives[alt - 1]);
        }
        Ok(r)
    }
}

} // verus!
