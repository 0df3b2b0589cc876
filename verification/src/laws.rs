use crate::edit::{
    sp_append, sp_append_move, sp_append_qs, sp_append_turns, sp_delete, sp_delete_move,
    sp_delete_qs, sp_delete_turns, sp_promote, sp_promote_move, sp_promote_qs, sp_promote_turns,
};
use crate::grammar::sp_position;
use crate::num::{dec_rep, dec_val, lemma_dec_rep, sp_usize};
use crate::types::{pos_wf, Pgn4V, Position, QTurnV, TurnV};
use crate::write::{col_char, pos_str};
use vstd::prelude::*;

verus! {

/// A well-formed square's textual form parses back to the same square: the
/// round-trip law, shown for the square codec.
pub proof fn lemma_position_round_trip(p: Position)
    requires
        pos_wf(p),
    ensures
        sp_position(pos_str(p)) == Ok::<Position, crate::parse::PositionParseError>(p),
{
    let s = pos_str(p);
    let digits = dec_rep((p.row + 1) as nat);
    lemma_dec_rep((p.row + 1) as nat);
    assert(digits.len() == 1 || digits.len() == 2) by {
        if p.row + 1 >= 10 {
            assert(digits == dec_rep(((p.row + 1) / 10) as nat).push(
                crate::num::dec_digit(((p.row + 1) % 10) as nat),
            ));
            assert((p.row + 1) / 10 < 10);
        }
    }
    assert(s.len() == 1 + digits.len());
    assert(s[0] == col_char(p.col as nat));
    assert('a' as int == 97 && 'n' as int == 110 && 'z' as int == 122);
    assert(col_char(p.col as nat) as int == p.col + 97);
    assert('a' <= s[0] && s[0] <= 'n');
    assert(s.drop_first() =~= digits);
    assert(digits[0] != '+') by {
        assert(crate::num::is_digit(digits[0]));
        assert('+' as int == 43 && '0' as int == 48);
    }
    assert(sp_usize(digits) == Some((p.row + 1) as usize)) by {
        assert(dec_val(digits) == p.row + 1);
        assert(dec_val(digits) <= usize::MAX);
    }
    assert((s[0] as usize - 97) as usize == p.col);
}

/// Appending the continuation a slot already holds changes nothing and
/// reports index 0; so a second append of what a first append put on the
/// main line is a no-op. This is the idempotence law for `append_move`.
pub proof fn lemma_append_idempotent(p: Pgn4V, path: Seq<usize>, q: QTurnV)
    ensures
        match sp_append_move(p, path, q) {
            Some((p1, idx)) => idx == 0 ==> sp_append_move(p1, path, q) == Some((p1, 0usize)),
            None => true,
        },
{
    if path.len() % 2 == 0 {
    } else if path.len() == 1 && path[0] == 0 && p.turns.len() == 0 {
        match sp_append_move(p, path, q) {
            Some((p1, idx)) => {
                let nt = TurnV { number: 1, double_dot: false, turns: seq![q] };
                assert(p1.turns == seq![nt]);
                assert(sp_append_qs(p1.turns, 0, 0, path, q, 0, 0) == Some((p1.turns, 0usize)));
                assert(sp_append(p1.turns, path, q, 0) == Some((p1.turns, 0usize)));
                assert(Pgn4V { turns: p1.turns, ..p1 } =~= p1);
            },
            None => {},
        }
    } else {
        lemma_append_line(p.turns, path, q, 0);
        match sp_append(p.turns, path, q, 0) {
            Some((ts1, idx)) => {
                if idx == 0 {
                    let p1 = Pgn4V { turns: ts1, ..p };
                    assert(sp_append_move(p, path, q) == Some((p1, 0usize)));
                    assert(!(path.len() == 1 && path[0] == 0 && p1.turns.len() == 0));
                    assert(sp_append(p1.turns, path, q, 0) == Some((ts1, 0usize)));
                    assert(Pgn4V { turns: ts1, ..p1 } =~= p1);
                }
            },
            None => {},
        }
    }
}

/// Idempotence of the line-level walk.
proof fn lemma_append_line(ts: Seq<TurnV>, path: Seq<usize>, q: QTurnV, total: usize)
    requires
        path.len() >= 1,
        path.len() % 2 == 1,
    ensures
        match sp_append(ts, path, q, total) {
            Some((ts1, idx)) => ts1.len() >= ts.len() && (idx == 0 ==> sp_append(ts1, path, q, total)
                == Some((ts1, 0usize))),
            None => true,
        },
    decreases ts, 2 * ts.len() + 4, 0int,
{
    if path.len() > 2 && path[0] == 0 {
    } else {
        lemma_append_walk_turns(ts, 0, path, q, 0, total);
    }
}

/// Idempotence of the walk from turn `i` on. For an insertion at the very
/// end of the line the new line's shape is stated instead, since the second
/// walk meets the inserted move before it runs off the end.
proof fn lemma_append_walk_turns(
    ts: Seq<TurnV>,
    i: int,
    path: Seq<usize>,
    q: QTurnV,
    current: nat,
    total: usize,
)
    requires
        path.len() >= 1,
        path.len() % 2 == 1,
    ensures
        match sp_append_turns(ts, i, path, q, current, total) {
            Some((ts1, idx)) => {
                &&& ts1.len() >= ts.len()
                &&& forall|k: int| 0 <= k < i && k + 1 < ts.len() ==> ts1[k] == ts[k]
                &&& (i == ts.len() ==> {
                    &&& path.len() <= 2 && path[0] == current && idx == 0
                    &&& (if total as int % 4 == 0 {
                        ts1 == ts.push(
                            TurnV {
                                number: ((total as int) / 4 + 1) as usize,
                                double_dot: false,
                                turns: seq![q],
                            },
                        )
                    } else {
                        ts.len() > 0 && ts1 == ts.update(
                            ts.len() - 1,
                            TurnV { turns: ts[ts.len() - 1].turns.push(q), ..ts[ts.len() - 1] },
                        )
                    })
                })
                &&& (0 <= i < ts.len() ==> ts1[i].turns.len() >= ts[i].turns.len()
                    && ts1[i].number == ts[i].number && ts1[i].double_dot == ts[i].double_dot)
                &&& (0 <= i < ts.len() && idx == 0 ==> sp_append_turns(ts1, i, path, q, current, total)
                    == Some((ts1, 0usize)))
            },
            None => true,
        },
    decreases ts, 2 * (ts.len() - i) + 3, 0int,
{
    if i < 0 || i > ts.len() {
    } else if i == ts.len() {
    } else {
        lemma_append_walk_qs(ts, i, 0, path, q, current, total);
        match sp_append_turns(ts, i, path, q, current, total) {
            Some((ts1, idx)) => {
                if idx == 0 {
                    assert(sp_append_qs(ts1, i, 0, path, q, current, total) == Some((ts1, 0usize)));
                    assert(0 <= ts1[i].turns.len());
                    assert(sp_append_turns(ts1, i, path, q, current, total) == Some((ts1, 0usize)));
                }
            },
            None => {},
        }
    }
}


spec fn qs_post(
    ts: Seq<TurnV>,
    i: int,
    j: int,
    path: Seq<usize>,
    q: QTurnV,
    current: nat,
    total: usize,
) -> bool {
    match sp_append_qs(ts, i, j, path, q, current, total) {
        Some((ts1, idx)) => {
            &&& ts1.len() >= ts.len()
            &&& forall|k: int| 0 <= k < i ==> ts1[k] == ts[k]
            &&& ts1[i].turns.len() >= ts[i].turns.len()
            &&& ts1[i].number == ts[i].number && ts1[i].double_dot == ts[i].double_dot
            &&& forall|t: int| 0 <= t < j && t < ts[i].turns.len() ==> ts1[i].turns[t] == ts[i].turns[t]
            &&& (idx == 0 ==> sp_append_qs(ts1, i, j, path, q, current, total) == Some(
                (ts1, 0usize),
            ))
        },
        None => true,
    }
}

/// Idempotence of the walk within a turn, from quarter-turn `j` on.
proof fn lemma_append_walk_qs(
    ts: Seq<TurnV>,
    i: int,
    j: int,
    path: Seq<usize>,
    q: QTurnV,
    current: nat,
    total: usize,
)
    requires
        path.len() >= 1,
        path.len() % 2 == 1,
        0 <= i < ts.len(),
        0 <= j <= ts[i].turns.len(),
    ensures
        match sp_append_qs(ts, i, j, path, q, current, total) {
            Some((ts1, idx)) => {
                &&& ts1.len() >= ts.len()
                &&& forall|k: int| 0 <= k < i ==> ts1[k] == ts[k]
                &&& ts1[i].turns.len() >= ts[i].turns.len()
                &&& ts1[i].number == ts[i].number && ts1[i].double_dot == ts[i].double_dot
                &&& forall|t: int| 0 <= t < j && t < ts[i].turns.len() ==> ts1[i].turns[t] == ts[i].turns[t]
                &&& (idx == 0 ==> sp_append_qs(ts1, i, j, path, q, current, total) == Some(
                    (ts1, 0usize),
                ))
            },
            None => true,
        },
    decreases ts, 2 * (ts.len() - i) + 2, ts[i].turns.len() - j + 1,
{
    if j >= ts[i].turns.len() {
        // the walk leaves this turn
        lemma_append_walk_turns(ts, i + 1, path, q, current, total);
        match sp_append_turns(ts, i + 1, path, q, current, total) {
            Some((ts1, idx)) => {
                if i + 1 < ts.len() {
                    assert(ts1[i] == ts[i]);
                    assert(ts1[i].turns.len() >= ts[i].turns.len());
                    if idx == 0 {
                        assert(sp_append_turns(ts1, i + 1, path, q, current, total) == Some(
                            (ts1, 0usize),
                        ));
                        assert(j >= ts1[i].turns.len());
                        assert(sp_append_qs(ts1, i, j, path, q, current, total) == Some((ts1, 0usize)));
                    }
                } else {
                    // the insertion went at the end of the line
                    assert(i + 1 == ts.len());
                    assert(idx == 0);
                    if total as int % 4 == 0 {
                        let nt = TurnV {
                            number: ((total as int) / 4 + 1) as usize,
                            double_dot: false,
                            turns: seq![q],
                        };
                        assert(ts1 == ts.push(nt));
                        assert(ts1[i] == ts[i]);
                        assert(sp_append_qs(ts1, i, j, path, q, current, total)
                            == sp_append_turns(ts1, i + 1, path, q, current, total));
                        assert(ts1[i + 1] == nt);
                        assert(ts1[i + 1].turns[0] == q);
                        assert(sp_append_qs(ts1, i + 1, 0, path, q, current, total) == Some((ts1, 0usize)));
                        assert(sp_append_turns(ts1, i + 1, path, q, current, total) == Some(
                            (ts1, 0usize),
                        ));
                    } else {
                        assert(ts.len() > 0 && i == ts.len() - 1);
                        let last = ts[i];
                        assert(ts1 == ts.update(i, TurnV { turns: last.turns.push(q), ..last }));
                        assert(ts1[i].turns.len() == ts[i].turns.len() + 1);
                        assert(j == ts[i].turns.len());
                        assert(ts1[i].turns[j] == q);
                        assert(sp_append_qs(ts1, i, j, path, q, current, total) == Some((ts1, 0usize)));
                    }
                }
            },
            None => {},
        }
        assert(qs_post(ts, i, j, path, q, current, total));
    } else {
        let t = ts[i];
        let qt = t.turns[j];
        let ply = path[0];
        if path.len() > 2 && ply == current + 1 {
            let alt = path[1] as int;
            if alt == 0 || qt.alternatives.len() < alt {
            } else {
                assert(path.skip(2).len() == path.len() - 2);
                assert(path.skip(2).len() % 2 == 1) by {
                    assert((path.len() - 2) % 2 == path.len() % 2);
                }
                assert(path.skip(2)[0] == path[2]);
                lemma_append_line(qt.alternatives[alt - 1], path.skip(2), q, total);
                match sp_append(qt.alternatives[alt - 1], path.skip(2), q, total) {
                    Some((sub, idx)) => {
                        let nq = QTurnV { alternatives: qt.alternatives.update(alt - 1, sub), ..qt };
                        let nts = ts.update(i, TurnV { turns: t.turns.update(j, nq), ..t });
                        assert(sp_append_qs(ts, i, j, path, q, current, total) == Some(
                            (nts, idx),
                        ));
                        assert(nts.len() == ts.len());
                        assert(nts[i].turns.len() == ts[i].turns.len());
                        assert(nts[i].number == ts[i].number && nts[i].double_dot
                            == ts[i].double_dot);
                        assert(forall|t2: int|
                            0 <= t2 < j ==> nts[i].turns[t2] == ts[i].turns[t2]);
                        if idx == 0 {
                            assert(sp_append(sub, path.skip(2), q, total) == Some((sub, 0usize)));
                            let t1 = nts[i];
                            let qt1 = t1.turns[j];
                            assert(qt1 == nq);
                            assert(qt1.alternatives[alt - 1] == sub);
                            let nq2 = QTurnV {
                                alternatives: qt1.alternatives.update(alt - 1, sub),
                                ..qt1
                            };
                            assert(nq2.alternatives =~= nq.alternatives);
                            assert(nq2 =~= nq);
                            let nts2 = nts.update(i, TurnV { turns: t1.turns.update(j, nq2), ..t1 });
                            assert(t1.turns.update(j, nq2) =~= t1.turns);
                            assert(TurnV { turns: t1.turns.update(j, nq2), ..t1 } =~= t1);
                            assert(nts2 =~= nts);
                            assert(sp_append_qs(nts, i, j, path, q, current, total) == Some((nts2, 0usize)));
                            assert(sp_append_qs(nts, i, j, path, q, current, total) == Some((nts, 0usize)));
                        }
                    },
                    None => {},
                }
            }
            assert(qs_post(ts, i, j, path, q, current, total));
        } else if path.len() <= 2 && ply == current {
            if qt.main == q.main && qt.modifier == q.modifier {
                assert(sp_append_qs(ts, i, j, path, q, current, total) == Some((ts, 0usize)));
            } else {
                match crate::edit::sp_find_alt(qt.alternatives, 0, q) {
                    None => {},
                    Some(Some(k)) => {
                        // found as an existing alternative: index is not 0
                        assert(0 <= k) by {
                            lemma_find_alt_bounds(qt.alternatives, 0, q);
                        }
                        assert(sp_append_qs(ts, i, j, path, q, current, total) == Some(
                            (ts, (k + 1) as usize),
                        ));
                    },
                    Some(None) => {
                        // a fresh alternative: its index is its 1-based
                        // position, never 0
                        let number: usize = if total as int % 4 == 0 {
                            ((total as int) / 4 + 1) as usize
                        } else {
                            0
                        };
                        let nt = TurnV { number, double_dot: true, turns: seq![q] };
                        let nq = QTurnV { alternatives: qt.alternatives.push(seq![nt]), ..qt };
                        let nts = ts.update(i, TurnV { turns: t.turns.update(j, nq), ..t });
                        assert(sp_append_qs(ts, i, j, path, q, current, total) == Some(
                            (nts, (qt.alternatives.len() + 1) as usize),
                        ));
                        assert(nts.len() == ts.len());
                        assert(nts[i].turns.len() == ts[i].turns.len());
                        assert(forall|t2: int|
                            0 <= t2 < j ==> nts[i].turns[t2] == ts[i].turns[t2]);
                        if (qt.alternatives.len() + 1) as usize == 0 {
                            // only reachable for lines far past any machine
                            // size, but the walk still answers consistently
                            lemma_find_alt_after_push(qt.alternatives, 0, q, seq![nt]);
                            assert(nts[i].turns[j] == nq);
                            assert(!(nq.main == q.main && nq.modifier == q.modifier));
                            assert(crate::edit::sp_find_alt(nq.alternatives, 0, q) == Some(
                                Some(qt.alternatives.len() as int),
                            ));
                            assert(sp_append_qs(nts, i, j, path, q, current, total) == Some(
                                (nts, (qt.alternatives.len() + 1) as usize),
                            ));
                            assert(sp_append_qs(nts, i, j, path, q, current, total) == Some(
                                (nts, 0usize),
                            ));
                        }
                    },
                }
            }
            assert(qs_post(ts, i, j, path, q, current, total));
        } else {
            if total == usize::MAX {
            } else {
                lemma_append_walk_qs(ts, i, j + 1, path, q, current + 1, (total + 1) as usize);
                match sp_append_qs(ts, i, j + 1, path, q, current + 1, (total + 1) as usize) {
                    Some((ts1, idx)) => {
                        assert(sp_append_qs(ts, i, j, path, q, current, total) == Some(
                            (ts1, idx),
                        ));
                        if idx == 0 {
                            assert(sp_append_qs(ts1, i, j + 1, path, q, current + 1, (total
                                + 1) as usize) == Some((ts1, 0usize)));
                            assert(j < ts1[i].turns.len());
                            assert(sp_append_qs(ts1, i, j, path, q, current, total) == Some((ts1, 0usize)));
                        }
                    },
                    None => {},
                }
                assert(qs_post(ts, i, j, path, q, current, total));
            }
        }
    }
}

/// Pushing a matching alternative onto a list with no earlier match makes
/// it the first match.
proof fn lemma_find_alt_after_push(alts: Seq<Seq<TurnV>>, s: int, q: QTurnV, a0: Seq<TurnV>)
    requires
        0 <= s <= alts.len(),
        crate::edit::sp_find_alt(alts, s, q) == Some(None::<int>),
        a0.len() > 0,
        a0[0].turns.len() > 0,
        a0[0].turns[0].main == q.main,
        a0[0].turns[0].modifier == q.modifier,
    ensures
        crate::edit::sp_find_alt(alts.push(a0), s, q) == Some(Some(alts.len() as int)),
    decreases alts.len() - s,
{
    if s >= alts.len() {
        assert(s == alts.len());
        assert(alts.push(a0)[s] == a0);
    } else {
        assert(alts.push(a0)[s] == alts[s]);
        lemma_find_alt_after_push(alts, s + 1, q, a0);
    }
}

/// A found alternative index lies within the list.
proof fn lemma_find_alt_bounds(alts: Seq<Seq<TurnV>>, s: int, q: QTurnV)
    requires
        0 <= s,
    ensures
        match crate::edit::sp_find_alt(alts, s, q) {
            Some(Some(k)) => s <= k < alts.len(),
            _ => true,
        },
    decreases alts.len() - s,
{
    if s < alts.len() {
        lemma_find_alt_bounds(alts, s + 1, q);
    }
}

/// The quarter-turns of a line, in walking order.
pub open spec fn flat_line(ts: Seq<TurnV>) -> Seq<QTurnV>
    decreases ts.len(),
{
    if ts.len() == 0 {
        Seq::empty()
    } else {
        ts[0].turns + flat_line(ts.drop_first())
    }
}

proof fn lemma_flat_take_snoc(ts: Seq<TurnV>, i: int)
    requires
        0 <= i < ts.len(),
    ensures
        flat_line(ts.take(i + 1)) == flat_line(ts.take(i)) + ts[i].turns,
    decreases i,
{
    if i == 0 {
        assert(ts.take(0) =~= Seq::<TurnV>::empty());
        assert(ts.take(1)[0] == ts[0]);
        assert(ts.take(1).drop_first() =~= Seq::<TurnV>::empty());
        assert(flat_line(ts.take(1)) =~= flat_line(ts.take(0)) + ts[0].turns);
    } else {
        lemma_flat_take_snoc(ts.drop_first(), i - 1);
        assert(ts.take(i + 1)[0] == ts[0]);
        assert(ts.take(i + 1).drop_first() =~= ts.drop_first().take(i));
        assert(ts.take(i)[0] == ts[0]);
        assert(ts.take(i).drop_first() =~= ts.drop_first().take(i - 1));
        assert(ts.drop_first()[i - 1] == ts[i]);
        assert(flat_line(ts.take(i + 1)) == ts[0].turns + flat_line(ts.drop_first().take(i)));
        assert(flat_line(ts.take(i)) == ts[0].turns + flat_line(ts.drop_first().take(i - 1)));
        assert(flat_line(ts.take(i + 1)) =~= flat_line(ts.take(i)) + ts[i].turns);
    }
}

proof fn lemma_flat_index(ts: Seq<TurnV>, i: int, j: int)
    requires
        0 <= i < ts.len(),
        0 <= j < ts[i].turns.len(),
    ensures
        flat_line(ts.take(i)).len() + j < flat_line(ts).len(),
        flat_line(ts)[flat_line(ts.take(i)).len() + j] == ts[i].turns[j],
    decreases i,
{
    if i == 0 {
        assert(ts.take(0) =~= Seq::<TurnV>::empty());
        assert(flat_line(ts) == ts[0].turns + flat_line(ts.drop_first()));
    } else {
        lemma_flat_index(ts.drop_first(), i - 1, j);
        assert(ts.drop_first()[i - 1] == ts[i]);
        assert(ts.take(i)[0] == ts[0]);
        assert(ts.take(i).drop_first() =~= ts.drop_first().take(i - 1));
        assert(flat_line(ts.take(i)) == ts[0].turns + flat_line(ts.drop_first().take(i - 1)));
        assert(flat_line(ts) == ts[0].turns + flat_line(ts.drop_first()));
    }
}

/// Promoting the only alternative at a slot twice restores the line: the
/// inverse-pair law, shown for a path that names one slot of the line.
pub proof fn lemma_promote_involution(p: Pgn4V, path: Seq<usize>)
    requires
        path.len() == 3,
    ensures
        match sp_promote_move(p, path) {
            Some(p1) => (path[0] >= 1 && flat_line(p.turns)[path[0] - 1].alternatives.len() == 1)
                ==> sp_promote_move(p1, path) == Some(p),
            None => true,
        },
{
    match sp_promote_move(p, path) {
        Some(p1) => {
            if path[0] >= 1 && flat_line(p.turns)[path[0] - 1].alternatives.len() == 1 {
                lemma_promote_walk_turns(p.turns, 0, path, 0);
                assert(sp_promote(p.turns, path) == sp_promote_turns(p.turns, 0, path, 0));
                assert(p1 == Pgn4V { turns: sp_promote(p.turns, path)->0, ..p });
                assert(sp_promote(p1.turns, path) == Some(p.turns));
                assert(Pgn4V { turns: p.turns, ..p1 } =~= p);
            }
        },
        None => {},
    }
}

proof fn lemma_promote_walk_turns(ts: Seq<TurnV>, i: int, path: Seq<usize>, current: nat)
    requires
        path.len() == 3,
        path[0] >= 1,
        0 <= i,
        current == flat_line(ts.take(i)).len(),
    ensures
        match sp_promote_turns(ts, i, path, current) {
            Some(ts1) => {
                &&& forall|k: int| 0 <= k < i ==> ts1[k] == ts[k]
                &&& ts1.len() > i
                &&& (flat_line(ts)[path[0] - 1].alternatives.len() == 1 ==> sp_promote_turns(
                    ts1,
                    i,
                    path,
                    current,
                ) == Some(ts))
            },
            None => true,
        },
    decreases ts, 2 * (ts.len() - i) + 2, 0int,
{
    if i < 0 || i >= ts.len() {
    } else {
        lemma_promote_walk_qs(ts, i, 0, path, current);
        match sp_promote_turns(ts, i, path, current) {
            Some(ts1) => {
                if flat_line(ts)[path[0] - 1].alternatives.len() == 1 {
                    assert(sp_promote_qs(ts1, i, 0, path, current) == Some(ts));
                }
            },
            None => {},
        }
    }
}

spec fn promote_qs_post(ts: Seq<TurnV>, i: int, j: int, path: Seq<usize>, current: nat) -> bool {
    match sp_promote_qs(ts, i, j, path, current) {
        Some(ts1) => {
            &&& forall|k: int| 0 <= k < i ==> ts1[k] == ts[k]
            &&& ts1.len() > i
            &&& ts1[i].number == ts[i].number && ts1[i].double_dot == ts[i].double_dot
            &&& ts1[i].turns.len() > j || (j == ts[i].turns.len() && ts1[i] == ts[i])
            &&& forall|t: int| 0 <= t < j ==> ts1[i].turns[t] == ts[i].turns[t]
            &&& (flat_line(ts)[path[0] - 1].alternatives.len() == 1 ==> sp_promote_qs(
                ts1,
                i,
                j,
                path,
                current,
            ) == Some(ts))
        },
        None => true,
    }
}

proof fn lemma_promote_walk_qs(ts: Seq<TurnV>, i: int, j: int, path: Seq<usize>, current: nat)
    requires
        path.len() == 3,
        path[0] >= 1,
        0 <= i < ts.len(),
        0 <= j <= ts[i].turns.len(),
        current == flat_line(ts.take(i)).len() + j,
    ensures
        match sp_promote_qs(ts, i, j, path, current) {
            Some(ts1) => {
                &&& forall|k: int| 0 <= k < i ==> ts1[k] == ts[k]
                &&& ts1.len() > i
                &&& ts1[i].number == ts[i].number && ts1[i].double_dot == ts[i].double_dot
                &&& ts1[i].turns.len() > j || (j == ts[i].turns.len() && ts1[i] == ts[i])
                &&& forall|t: int| 0 <= t < j ==> ts1[i].turns[t] == ts[i].turns[t]
                &&& (flat_line(ts)[path[0] - 1].alternatives.len() == 1 ==> sp_promote_qs(
                    ts1,
                    i,
                    j,
                    path,
                    current,
                ) == Some(ts))
            },
            None => true,
        },
    decreases ts, 2 * (ts.len() - i) + 1, ts[i].turns.len() - j + 1,
{
    let ply = path[0];
    if j >= ts[i].turns.len() {
        // the walk leaves this turn
        lemma_flat_take_snoc(ts, i);
        lemma_promote_walk_turns(ts, i + 1, path, current);
        match sp_promote_turns(ts, i + 1, path, current) {
            Some(ts1) => {
                assert(ts1[i] == ts[i]);
                if flat_line(ts)[ply - 1].alternatives.len() == 1 {
                    assert(sp_promote_turns(ts1, i + 1, path, current) == Some(ts));
                    assert(sp_promote_qs(ts1, i, j, path, current) == Some(ts));
                }
            },
            None => {},
        }
        assert(promote_qs_post(ts, i, j, path, current));
    } else if current + 1 == ply {
        // the addressed slot
        let t = ts[i];
        let qt = t.turns[j];
        lemma_flat_index(ts, i, j);
        assert(flat_line(ts)[ply - 1] == qt);
        let alt = path[1] as int;
        if alt == 0 || qt.alternatives.len() < alt {
        } else if qt.alternatives[alt - 1].len() == 0 || qt.alternatives[alt - 1][0].turns.len()
            == 0 {
        } else {
            let a = qt.alternatives[alt - 1];
            assert(path.skip(2).len() == 1);
            assert(path.skip(2)[0] == path[2]);
            match sp_promote(a, path.skip(2)) {
                None => {},
                Some(promoted) => {
                    assert(promoted == a);
                    // the general shape of the spliced line, for the walk
                    // facts that hold whatever the slot held
                    let rem_g = qt.alternatives.remove(alt - 1);
                    let qt_new_g = QTurnV { alternatives: promoted[0].turns[0].alternatives, ..qt };
                    let demoted_first_g = TurnV {
                        number: promoted[0].number,
                        double_dot: promoted[0].double_dot,
                        turns: seq![qt_new_g] + t.turns.skip(j + 1),
                    };
                    let demoted_g = seq![demoted_first_g] + ts.skip(i + 1);
                    let pq_g = QTurnV {
                        alternatives: seq![demoted_g] + rem_g,
                        ..promoted[0].turns[0]
                    };
                    let merged_g = TurnV {
                        number: t.number,
                        double_dot: t.double_dot,
                        turns: t.turns.take(j) + (seq![pq_g] + promoted[0].turns.skip(1)),
                    };
                    let ts1_g = ts.take(i) + seq![merged_g] + promoted.skip(1);
                    assert(sp_promote_qs(ts, i, j, path, current) == Some(ts1_g));
                    assert(ts1_g.len() == i + promoted.len());
                    assert(ts1_g[i] == merged_g);
                    assert(merged_g.turns.len() == j + promoted[0].turns.len());
                    assert(forall|t2: int| 0 <= t2 < j ==> merged_g.turns[t2] == t.turns[t2]);
                    assert(forall|k: int| 0 <= k < i ==> ts1_g[k] == ts[k]);
                    if qt.alternatives.len() == 1 {
                        assert(alt == 1);
                        let rem = qt.alternatives.remove(0);
                        assert(rem =~= Seq::<Seq<TurnV>>::empty());
                        let qt_new = QTurnV { alternatives: a[0].turns[0].alternatives, ..qt };
                        let demoted_first = TurnV {
                            number: a[0].number,
                            double_dot: a[0].double_dot,
                            turns: seq![qt_new] + t.turns.skip(j + 1),
                        };
                        let demoted = seq![demoted_first] + ts.skip(i + 1);
                        let pq = QTurnV { alternatives: seq![demoted] + rem, ..a[0].turns[0] };
                        let merged = TurnV {
                            number: t.number,
                            double_dot: t.double_dot,
                            turns: t.turns.take(j) + (seq![pq] + a[0].turns.skip(1)),
                        };
                        let ts1 = ts.take(i) + seq![merged] + promoted.skip(1);
                        assert(promoted.skip(1) =~= a.skip(1));
                        assert(sp_promote_qs(ts, i, j, path, current) == Some(ts1));
                        assert(ts1.len() == i + 1 + a.len() - 1);
                        assert(ts1[i] == merged);
                        assert(merged.turns.len() == j + 1 + a[0].turns.len() - 1);
                        assert(forall|t2: int| 0 <= t2 < j ==> merged.turns[t2] == t.turns[t2]);
                        // the second walk meets the same slot and puts the
                        // demoted line back
                        assert(ts1.take(i) =~= ts.take(i));
                        assert(merged.turns[j] == pq);
                        assert(pq.alternatives.len() == 1);
                        let a2 = pq.alternatives[0];
                        assert(a2 == demoted);
                        assert(a2[0].turns[0] == qt_new);
                        let rem2 = pq.alternatives.remove(0);
                        assert(rem2 =~= Seq::<Seq<TurnV>>::empty());
                        let qt_new2 = QTurnV { alternatives: a2[0].turns[0].alternatives, ..pq };
                        assert(qt_new2 =~= a[0].turns[0]);
                        let demoted_first2 = TurnV {
                            number: a2[0].number,
                            double_dot: a2[0].double_dot,
                            turns: seq![qt_new2] + merged.turns.skip(j + 1),
                        };
                        assert(merged.turns.skip(j + 1) =~= a[0].turns.skip(1));
                        assert(demoted_first2.turns =~= seq![qt_new2] + a[0].turns.skip(1));
                        assert(seq![qt_new2] + a[0].turns.skip(1) =~= a[0].turns.update(
                            0,
                            qt_new2,
                        ));
                        assert(a[0].turns.update(0, qt_new2) =~= a[0].turns);
                        assert(demoted_first2 =~= a[0]);
                        let demoted2 = seq![demoted_first2] + ts1.skip(i + 1);
                        assert(ts1.skip(i + 1) =~= a.skip(1));
                        assert(demoted2 =~= seq![a[0]] + a.skip(1));
                        assert(seq![a[0]] + a.skip(1) =~= a);
                        let pq2 = QTurnV { alternatives: seq![demoted2] + rem2, ..a2[0].turns[0] };
                        assert(seq![demoted2] + rem2 =~= seq![a]);
                        assert(seq![a] =~= qt.alternatives);
                        assert(pq2 =~= qt);
                        let merged2 = TurnV {
                            number: merged.number,
                            double_dot: merged.double_dot,
                            turns: merged.turns.take(j) + (seq![pq2] + a2[0].turns.skip(1)),
                        };
                        assert(merged.turns.take(j) =~= t.turns.take(j));
                        assert(a2[0].turns.skip(1) =~= t.turns.skip(j + 1));
                        assert(merged2.turns =~= t.turns.take(j) + (seq![qt] + t.turns.skip(j
                            + 1)));
                        assert(t.turns.take(j) + (seq![qt] + t.turns.skip(j + 1)) =~= t.turns);
                        assert(merged2 =~= t);
                        let ts2 = ts1.take(i) + seq![merged2] + a2.skip(1);
                        assert(a2.skip(1) =~= ts.skip(i + 1));
                        assert(ts2 =~= ts.take(i) + seq![ts[i]] + ts.skip(i + 1));
                        assert(ts.take(i) + seq![ts[i]] + ts.skip(i + 1) =~= ts);
                        // now read the second walk off these pieces
                        assert(sp_promote(a2, path.skip(2)) == Some(a2));
                        assert(a2.len() > 0 && a2[0].turns.len() > 0);
                        assert(sp_promote_qs(ts1, i, j, path, current) == Some(ts2));
                        assert(sp_promote_qs(ts1, i, j, path, current) == Some(ts));
                    }
                },
            }
        }
        assert(promote_qs_post(ts, i, j, path, current));
    } else {
        if current + 1 > usize::MAX {
        } else {
            lemma_promote_walk_qs(ts, i, j + 1, path, current + 1);
            match sp_promote_qs(ts, i, j + 1, path, current + 1) {
                Some(ts1) => {
                    assert(sp_promote_qs(ts, i, j, path, current) == Some(ts1));
                    if flat_line(ts)[ply - 1].alternatives.len() == 1 {
                        assert(sp_promote_qs(ts1, i, j + 1, path, current + 1) == Some(ts));
                        assert(j < ts1[i].turns.len());
                        assert(sp_promote_qs(ts1, i, j, path, current) == Some(ts));
                    }
                },
                None => {},
            }
            assert(promote_qs_post(ts, i, j, path, current));
        }
    }
}

proof fn lemma_flat_prefix_le(ts: Seq<TurnV>, k: int)
    requires
        0 <= k <= ts.len(),
    ensures
        flat_line(ts.take(k)).len() <= flat_line(ts).len(),
        k < ts.len() ==> flat_line(ts.take(k + 1)).len() <= flat_line(ts).len(),
    decreases ts.len() - k,
{
    if k == ts.len() {
        assert(ts.take(k) =~= ts);
    } else {
        lemma_flat_take_snoc(ts, k);
        lemma_flat_prefix_le(ts, k + 1);
    }
}

/// Appending at the very end of a line puts the move at its end.
proof fn lemma_append_end_turns(
    ts: Seq<TurnV>,
    i: int,
    path: Seq<usize>,
    q: QTurnV,
    current: nat,
    total: usize,
)
    requires
        path.len() == 1,
        path[0] == flat_line(ts).len(),
        0 <= i <= ts.len(),
        current == flat_line(ts.take(i)).len(),
        total == current,
    ensures
        sp_append_turns(ts, i, path, q, current, total) == (if (flat_line(ts).len() as int) % 4
            == 0 {
            Some(
                (
                    ts.push(
                        TurnV {
                            number: ((flat_line(ts).len() as int) / 4 + 1) as usize,
                            double_dot: false,
                            turns: seq![q],
                        },
                    ),
                    0usize,
                ),
            )
        } else if ts.len() == 0 {
            None::<(Seq<TurnV>, usize)>
        } else {
            Some(
                (
                    ts.update(
                        ts.len() - 1,
                        TurnV { turns: ts[ts.len() - 1].turns.push(q), ..ts[ts.len() - 1] },
                    ),
                    0usize,
                ),
            )
        }),
    decreases ts, 2 * (ts.len() - i) + 2, 0int,
{
    if i == ts.len() {
        assert(ts.take(i) =~= ts);
        assert(current == flat_line(ts).len());
    } else {
        lemma_append_end_qs(ts, i, 0, path, q, current, total);
    }
}

proof fn lemma_append_end_qs(
    ts: Seq<TurnV>,
    i: int,
    j: int,
    path: Seq<usize>,
    q: QTurnV,
    current: nat,
    total: usize,
)
    requires
        path.len() == 1,
        path[0] == flat_line(ts).len(),
        0 <= i < ts.len(),
        0 <= j <= ts[i].turns.len(),
        current == flat_line(ts.take(i)).len() + j,
        total == current,
    ensures
        sp_append_qs(ts, i, j, path, q, current, total) == sp_append_turns(
            ts,
            ts.len() as int,
            path,
            q,
            flat_line(ts).len(),
            flat_line(ts).len() as usize,
        ),
    decreases ts, 2 * (ts.len() - i) + 1, ts[i].turns.len() - j + 1,
{
    lemma_flat_prefix_le(ts, i);
    lemma_flat_take_snoc(ts, i);
    if j >= ts[i].turns.len() {
        lemma_append_end_turns(ts, i + 1, path, q, current, total);
        if i + 1 == ts.len() {
            assert(ts.take(i + 1) =~= ts);
        }
    } else {
        lemma_flat_index(ts, i, j);
        assert(current < flat_line(ts).len());
        assert(current + 1 <= flat_line(ts).len());
        assert(total < usize::MAX) by {
            assert(flat_line(ts).len() == path[0]);
        }
        lemma_append_end_qs(ts, i, j + 1, path, q, current + 1, (total + 1) as usize);
    }
}

/// Deleting the last ply of a line whose final quarter-turn has no
/// alternatives removes just that quarter-turn, and its turn when alone.
proof fn lemma_delete_last_turns(ts: Seq<TurnV>, i: int, path: Seq<usize>, current: nat)
    requires
        path.len() == 1,
        path[0] == flat_line(ts).len(),
        path[0] >= 1,
        ts.len() > 0,
        ts[ts.len() - 1].turns.len() >= 1,
        ts[ts.len() - 1].turns.last().alternatives.len() == 0,
        0 <= i <= ts.len(),
        current == flat_line(ts.take(i)).len(),
        current < flat_line(ts).len(),
    ensures
        sp_delete_turns(ts, i, path, current) == Some(
            if ts[ts.len() - 1].turns.len() == 1 {
                ts.drop_last()
            } else {
                ts.update(
                    ts.len() - 1,
                    TurnV {
                        turns: ts[ts.len() - 1].turns.drop_last(),
                        ..ts[ts.len() - 1]
                    },
                )
            },
        ),
    decreases ts, 2 * (ts.len() - i) + 2, 0int,
{
    if i == ts.len() {
        assert(ts.take(i) =~= ts);
        assert(false);
    } else {
        lemma_delete_last_qs(ts, i, 0, path, current);
    }
}

proof fn lemma_delete_last_qs(ts: Seq<TurnV>, i: int, j: int, path: Seq<usize>, current: nat)
    requires
        path.len() == 1,
        path[0] == flat_line(ts).len(),
        path[0] >= 1,
        ts.len() > 0,
        ts[ts.len() - 1].turns.len() >= 1,
        ts[ts.len() - 1].turns.last().alternatives.len() == 0,
        0 <= i < ts.len(),
        0 <= j <= ts[i].turns.len(),
        current == flat_line(ts.take(i)).len() + j,
        current < flat_line(ts).len(),
    ensures
        sp_delete_qs(ts, i, j, path, current) == Some(
            if ts[ts.len() - 1].turns.len() == 1 {
                ts.drop_last()
            } else {
                ts.update(
                    ts.len() - 1,
                    TurnV {
                        turns: ts[ts.len() - 1].turns.drop_last(),
                        ..ts[ts.len() - 1]
                    },
                )
            },
        ),
    decreases ts, 2 * (ts.len() - i) + 1, ts[i].turns.len() - j + 1,
{
    let n = flat_line(ts).len();
    lemma_flat_prefix_le(ts, i);
    lemma_flat_take_snoc(ts, i);
    if j >= ts[i].turns.len() {
        lemma_delete_last_qs_exit(ts, i, j, path, current);
    } else if current + 1 == path[0] {
        // this is the final ply
        lemma_flat_index(ts, i, j);
        // everything after this quarter-turn is empty, and the last turn is
        // not, so this is the last turn
        assert(flat_line(ts.take(i)).len() + j + 1 == n);
        assert(flat_line(ts.take(i + 1)).len() <= n);
        assert(j + 1 == ts[i].turns.len());
        if i < ts.len() - 1 {
            lemma_flat_index(ts, ts.len() - 1, ts[ts.len() - 1].turns.len() - 1);
            lemma_flat_prefix_between(ts, i + 1, ts.len() - 1);
            assert(false);
        }
        assert(i == ts.len() - 1);
        assert(ts[i].turns[j] == ts[ts.len() - 1].turns.last());
        let t = ts[i];
        let qt = t.turns[j];
        assert(qt.alternatives.len() == 0);
        if j == 0 {
            assert(ts.take(i) =~= ts.drop_last());
        } else {
            assert(t.turns.take(j) =~= t.turns.drop_last());
            assert(ts.take(i) + seq![TurnV { turns: t.turns.take(j), ..t }] =~= ts.update(
                ts.len() - 1,
                TurnV { turns: ts[ts.len() - 1].turns.drop_last(), ..ts[ts.len() - 1] },
            ));
        }
    } else {
        lemma_flat_index(ts, i, j);
        assert(current + 1 <= usize::MAX) by {
            assert(current < n == path[0]);
        }
        lemma_delete_last_qs(ts, i, j + 1, path, current + 1);
    }
}

proof fn lemma_delete_last_qs_exit(ts: Seq<TurnV>, i: int, j: int, path: Seq<usize>, current: nat)
    requires
        path.len() == 1,
        path[0] == flat_line(ts).len(),
        path[0] >= 1,
        ts.len() > 0,
        ts[ts.len() - 1].turns.len() >= 1,
        ts[ts.len() - 1].turns.last().alternatives.len() == 0,
        0 <= i < ts.len(),
        j >= ts[i].turns.len(),
        0 <= j <= ts[i].turns.len(),
        current == flat_line(ts.take(i)).len() + j,
        current < flat_line(ts).len(),
    ensures
        sp_delete_qs(ts, i, j, path, current) == Some(
            if ts[ts.len() - 1].turns.len() == 1 {
                ts.drop_last()
            } else {
                ts.update(
                    ts.len() - 1,
                    TurnV {
                        turns: ts[ts.len() - 1].turns.drop_last(),
                        ..ts[ts.len() - 1]
                    },
                )
            },
        ),
    decreases ts, 2 * (ts.len() - i) + 1, 0int,
{
    lemma_flat_take_snoc(ts, i);
    if i + 1 == ts.len() {
        assert(ts.take(i + 1) =~= ts);
        assert(false);
    } else {
        lemma_delete_last_turns(ts, i + 1, path, current);
    }
}

/// Between two prefixes, the flat count only grows.
proof fn lemma_flat_prefix_between(ts: Seq<TurnV>, a: int, b: int)
    requires
        0 <= a <= b <= ts.len(),
    ensures
        flat_line(ts.take(a)).len() <= flat_line(ts.take(b)).len(),
    decreases b - a,
{
    if a < b {
        lemma_flat_take_snoc(ts, a);
        lemma_flat_prefix_between(ts, a + 1, b);
    }
}

/// A move appended at the end of the game is removed again by deleting the
/// ply it created: the construction/deletion inverse law, shown for one
/// append at the game's end; a run of appends is undone by unwinding them
/// in turn.
pub proof fn lemma_append_delete_inverse(p: Pgn4V, q: QTurnV)
    requires
        q.alternatives.len() == 0,
        flat_line(p.turns).len() < usize::MAX,
        crate::types::pgn_v_wf(p),
    ensures
        ({
            let n = flat_line(p.turns).len();
            match sp_append_move(p, seq![n as usize], q) {
                Some((p1, idx)) => idx == 0 && sp_delete_move(p1, seq![(n + 1) as usize]) == Some(
                    p,
                ),
                None => true,
            }
        }),
{
    let n = flat_line(p.turns).len();
    let path = seq![n as usize];
    let dpath = seq![(n + 1) as usize];
    if path.len() == 1 && path[0] == 0 && p.turns.len() == 0 {
        match sp_append_move(p, path, q) {
            Some((p1, idx)) => {
                let nt = TurnV { number: 1, double_dot: false, turns: seq![q] };
                assert(p1.turns == seq![nt]);
                assert(flat_line(p1.turns) =~= seq![q]) by {
                    assert(p1.turns.drop_first() =~= Seq::<TurnV>::empty());
                    assert(flat_line(Seq::<TurnV>::empty()) =~= Seq::<QTurnV>::empty());
                    assert(flat_line(p1.turns) == nt.turns + flat_line(p1.turns.drop_first()));
                }
                lemma_delete_last_turns(p1.turns, 0, dpath, 0);
                assert(p1.turns.take(0) =~= Seq::<TurnV>::empty());
                assert(sp_delete(p1.turns, dpath) == Some(p1.turns.drop_last()));
                assert(p1.turns.drop_last() =~= p.turns);
                assert(Pgn4V { turns: p1.turns.drop_last(), ..p1 } =~= p);
            },
            None => {},
        }
    } else {
        let ts = p.turns;
        assert(p.turns.take(0) =~= Seq::<TurnV>::empty());
        lemma_append_end_turns(ts, 0, path, q, 0, 0);
        assert(sp_append(ts, path, q, 0) == sp_append_turns(ts, 0, path, q, 0, 0));
        match sp_append_move(p, path, q) {
            Some((p1, idx)) => {
                assert(idx == 0);
                let ts1 = p1.turns;
                if (n as int) % 4 == 0 {
                    let nt = TurnV {
                        number: ((n as int) / 4 + 1) as usize,
                        double_dot: false,
                        turns: seq![q],
                    };
                    assert(ts1 == ts.push(nt));
                    lemma_flat_take_snoc(ts1, ts1.len() - 1);
                    assert(ts1.take(ts1.len() - 1) =~= ts);
                    assert(ts1.take(ts1.len() as int) =~= ts1);
                    assert(flat_line(ts1) == flat_line(ts) + nt.turns);
                    assert(flat_line(ts1).len() == n + 1);
                    lemma_delete_last_turns(ts1, 0, dpath, 0);
                    assert(ts1.take(0) =~= Seq::<TurnV>::empty());
                    assert(ts1[ts1.len() - 1].turns.len() == 1);
                    assert(sp_delete(ts1, dpath) == Some(ts1.drop_last()));
                    assert(ts1.drop_last() =~= ts);
                    assert(Pgn4V { turns: ts1.drop_last(), ..p1 } =~= p);
                } else {
                    let last = ts[ts.len() - 1];
                    assert(crate::types::turn_v_wf(last));
                    assert(last.turns.len() >= 1);
                    assert(ts1 == ts.update(
                        ts.len() - 1,
                        TurnV { turns: last.turns.push(q), ..last },
                    ));
                    lemma_flat_take_snoc(ts1, ts1.len() - 1);
                    lemma_flat_take_snoc(ts, ts.len() - 1);
                    assert(ts1.take(ts1.len() - 1) =~= ts.take(ts.len() - 1));
                    assert(ts1.take(ts1.len() as int) =~= ts1);
                    assert(ts.take(ts.len() as int) =~= ts);
                    assert(flat_line(ts1) == flat_line(ts.take(ts.len() - 1)) + last.turns.push(q));
                    assert(flat_line(ts) == flat_line(ts.take(ts.len() - 1)) + last.turns);
                    assert(flat_line(ts1).len() == n + 1);
                    lemma_delete_last_turns(ts1, 0, dpath, 0);
                    assert(ts1.take(0) =~= Seq::<TurnV>::empty());
                    assert(ts1[ts1.len() - 1].turns.len() == last.turns.len() + 1 >= 2);
                    assert(ts1[ts1.len() - 1].turns.last() == q);
                    assert(sp_delete(ts1, dpath) == Some(
                        ts1.update(
                            ts1.len() - 1,
                            TurnV {
                                turns: ts1[ts1.len() - 1].turns.drop_last(),
                                ..ts1[ts1.len() - 1]
                            },
                        ),
                    ));
                    assert(ts1[ts1.len() - 1].turns.drop_last() =~= last.turns);
                    assert(ts1.update(
                        ts1.len() - 1,
                        TurnV {
                            turns: ts1[ts1.len() - 1].turns.drop_last(),
                            ..ts1[ts1.len() - 1]
                        },
                    ) =~= ts);
                    assert(Pgn4V { turns: ts, ..p1 } =~= p);
                }
            },
            None => {},
        }
    }
}

} // verus!
