use crate::types::{
    move_eq, opt_move_eq, view_alts, view_pgn, view_qturn, view_qturns, view_turn, view_turns,
    Pgn4V, QTurnV, QuarterTurn, Turn, TurnV, PGN4,
};
use vstd::prelude::*;
use vstd::slice::{slice_index_get, slice_subrange};

verus! {

/// The first alternative whose opening move pair matches `q`, if any;
/// the outer `None` marks a malformed alternative met on the way.
pub open spec fn sp_find_alt(alts: Seq<Seq<TurnV>>, i: int, q: QTurnV) -> Option<Option<int>>
    decreases alts.len() - i,
{
    if i < 0 || i >= alts.len() {
        Some(None)
    } else if alts[i].len() == 0 || alts[i][0].turns.len() == 0 {
        None
    } else if alts[i][0].turns[0].main == q.main && alts[i][0].turns[0].modifier == q.modifier {
        Some(Some(i))
    } else {
        sp_find_alt(alts, i + 1, q)
    }
}

/// Insert `q` one ply past the addressed spot in a line of turns. `path` is
/// the odd-length address, `current` counts the plies walked in this line,
/// and `total` counts plies from the start of the game. Yields the new line
/// and the index the insertion got: 0 for the main line, otherwise the
/// 1-based index of the alternative that holds the move.
pub open spec fn sp_append(ts: Seq<TurnV>, path: Seq<usize>, q: QTurnV, total: usize) -> Option<
    (Seq<TurnV>, usize),
>
    decreases ts, 2 * ts.len() + 3, 0int,
{
    if path.len() > 2 && path[0] == 0 {
        None
    } else {
        sp_append_turns(ts, 0, path, q, 0, total)
    }
}

/// The walk over whole turns, from turn `i` on.
pub open spec fn sp_append_turns(
    ts: Seq<TurnV>,
    i: int,
    path: Seq<usize>,
    q: QTurnV,
    current: nat,
    total: usize,
) -> Option<(Seq<TurnV>, usize)>
    decreases ts, 2 * (ts.len() - i) + 2, 0int,
{
    if i < 0 || i > ts.len() {
        None
    } else if i == ts.len() {
        if path.len() <= 2 && path[0] == current {
            if total as int % 4 == 0 {
                let nt = TurnV {
                    number: ((total as int) / 4 + 1) as usize,
                    double_dot: false,
                    turns: seq![q],
                };
                Some((ts.push(nt), 0))
            } else if ts.len() == 0 {
                None
            } else {
                let last = ts[ts.len() - 1];
                Some((ts.update(ts.len() - 1, TurnV { turns: last.turns.push(q), ..last }), 0))
            }
        } else {
            None
        }
    } else {
        sp_append_qs(ts, i, 0, path, q, current, total)
    }
}

/// The walk within one turn, from quarter-turn `j` on.
pub open spec fn sp_append_qs(
    ts: Seq<TurnV>,
    i: int,
    j: int,
    path: Seq<usize>,
    q: QTurnV,
    current: nat,
    total: usize,
) -> Option<(Seq<TurnV>, usize)>
    decreases ts, 2 * (ts.len() - i) + 1, ts[i].turns.len() - j,
{
    if !(0 <= i < ts.len() && 0 <= j) {
        None
    } else if j >= ts[i].turns.len() {
        sp_append_turns(ts, i + 1, path, q, current, total)
    } else {
        let t = ts[i];
        let qt = t.turns[j];
        let ply = path[0];
        if path.len() > 2 && ply == current + 1 {
            let alt = path[1] as int;
            if alt == 0 || qt.alternatives.len() < alt {
                None
            } else {
                match sp_append(qt.alternatives[alt - 1], path.skip(2), q, total) {
                    None => None,
                    Some((sub, idx)) => {
                        let nq = QTurnV { alternatives: qt.alternatives.update(alt - 1, sub), ..qt };
                        Some((ts.update(i, TurnV { turns: t.turns.update(j, nq), ..t }), idx))
                    },
                }
            }
        } else if path.len() <= 2 && ply == current {
            if qt.main == q.main && qt.modifier == q.modifier {
                Some((ts, 0))
            } else {
                match sp_find_alt(qt.alternatives, 0, q) {
                    None => None,
                    Some(Some(k)) => Some((ts, (k + 1) as usize)),
                    Some(None) => {
                        let number: usize = if total as int % 4 == 0 {
                            ((total as int) / 4 + 1) as usize
                        } else {
                            0
                        };
                        let nt = TurnV { number, double_dot: true, turns: seq![q] };
                        let nq = QTurnV { alternatives: qt.alternatives.push(seq![nt]), ..qt };
                        Some(
                            (
                                ts.update(i, TurnV { turns: t.turns.update(j, nq), ..t }),
                                (qt.alternatives.len() + 1) as usize,
                            ),
                        )
                    },
                }
            }
        } else {
            if total == usize::MAX {
                None
            } else {
                sp_append_qs(ts, i, j + 1, path, q, current + 1, (total + 1) as usize)
            }
        }
    }
}

/// Insert `q` after the addressed spot of a document. `[0]` on an empty
/// document starts turn 1; an even-length path fails.
pub open spec fn sp_append_move(p: Pgn4V, path: Seq<usize>, q: QTurnV) -> Option<(Pgn4V, usize)> {
    if path.len() % 2 == 0 {
        None
    } else if path.len() == 1 && path[0] == 0 && p.turns.len() == 0 {
        let nt = TurnV { number: 1, double_dot: false, turns: seq![q] };
        Some((Pgn4V { turns: seq![nt], ..p }, 0))
    } else {
        match sp_append(p.turns, path, q, 0) {
            None => None,
            Some((ts, idx)) => Some((Pgn4V { turns: ts, ..p }, idx)),
        }
    }
}

proof fn lemma_view_turns_update(ts: Seq<Turn>, i: int, t: Turn)
    requires
        0 <= i < ts.len(),
    ensures
        view_turns(ts.update(i, t)) =~= view_turns(ts).update(i, view_turn(t)),
{
}

proof fn lemma_view_qturns_update(qs: Seq<QuarterTurn>, j: int, q: QuarterTurn)
    requires
        0 <= j < qs.len(),
    ensures
        view_qturns(qs.update(j, q)) =~= view_qturns(qs).update(j, view_qturn(q)),
{
}

proof fn lemma_view_alts_update(aa: Seq<Vec<Turn>>, k: int, a: Vec<Turn>)
    requires
        0 <= k < aa.len(),
    ensures
        view_alts(aa.update(k, a)) =~= view_alts(aa).update(k, view_turns(a@)),
{
}

proof fn lemma_view_alts_concat(a: Seq<Vec<Turn>>, b: Seq<Vec<Turn>>)
    ensures
        view_alts(a + b) =~= view_alts(a) + view_alts(b),
{
    assert forall|k: int| 0 <= k < a.len() + b.len() implies view_alts(a + b)[k] == (view_alts(a)
        + view_alts(b))[k] by {
        if k < a.len() {
            assert((a + b)[k] == a[k]);
        } else {
            assert((a + b)[k] == b[k - a.len()]);
        }
    }
}

/// Insert `q` into one line.
#[verifier::rlimit(100)]
fn append_helper(turns: &mut Vec<Turn>, path: &[usize], q: QuarterTurn, total: usize) -> (r:
    Result<usize, ()>)
    requires
        path@.len() >= 1,
        path@.len() % 2 == 1,
    ensures
        match r {
            Ok(idx) => sp_append(view_turns(old(turns)@), path@, view_qturn(q), total) == Some(
                (view_turns(final(turns)@), idx),
            ),
            Err(_) => sp_append(view_turns(old(turns)@), path@, view_qturn(q), total) is None
                && view_turns(final(turns)@) == view_turns(old(turns)@),
        },
    decreases *old(turns), 0int,
{
    let ghost ts = view_turns(turns@);
    let ghost qv = view_qturn(q);
    let ply = *slice_index_get(path, 0);
    if path.len() > 2 && ply == 0 {
        return Err(());
    }
    let mut i: usize = 0;
    let mut current: usize = 0;
    let mut tot: usize = total;
    while i < turns.len()
        invariant
            turns@ == old(turns)@,
            ts == view_turns(turns@),
            qv == view_qturn(q),
            i <= turns@.len(),
            current <= tot,
            path@.len() >= 1 && path@.len() % 2 == 1,
            ply == path@[0],
            !(path@.len() > 2 && ply == 0),
            tot - total == current,
            sp_append(ts, path@, qv, total) == sp_append_turns(
                ts,
                i as int,
                path@,
                qv,
                current as nat,
                tot,
            ),
        decreases turns@.len() - i,
    {
        let n_qs = turns[i].turns.len();
        let mut j: usize = 0;
        proof {
            assert(ts[i as int] == view_turn(turns@[i as int]));
            crate::types::lemma_view_turn_parts(turns@[i as int]);
        }
        while j < n_qs
            invariant
                turns@ == old(turns)@,
                ts == view_turns(turns@),
                qv == view_qturn(q),
                i < turns@.len(),
                n_qs == turns@[i as int].turns@.len(),
                j <= n_qs,
                current <= tot,
                path@.len() >= 1 && path@.len() % 2 == 1,
                ply == path@[0],
                !(path@.len() > 2 && ply == 0),
                tot - total == current,
                sp_append(ts, path@, qv, total) == sp_append_qs(
                    ts,
                    i as int,
                    j as int,
                    path@,
                    qv,
                    current as nat,
                    tot,
                ),
            decreases n_qs - j,
        {
            proof {
                assert(ts[i as int] == view_turn(turns@[i as int]));
                crate::types::lemma_view_turn_parts(turns@[i as int]);
                assert(ts[i as int].turns.len() == n_qs);
                assert(ts[i as int].turns[j as int] == view_qturn(turns@[i as int].turns@[j as int]));
                crate::types::lemma_view_qturn_parts(turns@[i as int].turns@[j as int]);
            }
            if path.len() > 2 && ply >= 1 && ply - 1 == current {
                let alt = *slice_index_get(path, 1);
                let n_alts = turns[i].turns[j].alternatives.len();
                if alt == 0 || n_alts < alt {
                    return Err(());
                }
                let sub_path = slice_subrange(path, 2, path.len());
                proof {
                    assert(sub_path@ =~= path@.skip(2));
                }
                let ghost old_whole = turns@;
                let sub = &mut turns[i].turns[j].alternatives[alt - 1];
                let ghost sub_old = sub@;
                let res = append_helper(sub, sub_path, q, tot);
                proof {
                    assert(sub_old == old_whole[i as int].turns@[j as int].alternatives@[alt
                        - 1]@);
                }
                match res {
                    Ok(idx) => {
                        proof {
                            let tv = ts[i as int];
                            let qtv = tv.turns[j as int];
                            assert(view_turns(sub_old) == qtv.alternatives[alt - 1]);
                            let subv = view_turns(final(sub)@);
                            let nq = QTurnV {
                                alternatives: qtv.alternatives.update(alt - 1, subv),
                                ..qtv
                            };
                            let nts = ts.update(
                                i as int,
                                TurnV { turns: tv.turns.update(j as int, nq), ..tv },
                            );
                            assert(sp_append_qs(
                                ts,
                                i as int,
                                j as int,
                                path@,
                                qv,
                                current as nat,
                                tot,
                            ) == Some((nts, idx)));
                            let new_qturn = turns@[i as int].turns@[j as int];
                            lemma_view_alts_update(
                                old_whole[i as int].turns@[j as int].alternatives@,
                                alt - 1,
                                new_qturn.alternatives@[alt - 1],
                            );
                            crate::types::lemma_view_qturn_parts(new_qturn);
                            crate::types::lemma_view_qturn_parts(
                                old_whole[i as int].turns@[j as int],
                            );
                            assert(turns@[i as int].turns@[j as int].alternatives@
                                =~= old_whole[i as int].turns@[j as int].alternatives@.update(
                                alt - 1,
                                turns@[i as int].turns@[j as int].alternatives@[alt - 1],
                            ));
                            assert(view_qturn(new_qturn) =~= nq);
                            lemma_view_qturns_update(
                                old_whole[i as int].turns@,
                                j as int,
                                new_qturn,
                            );
                            assert(turns@[i as int].turns@ =~= old_whole[i as int].turns@.update(
                                j as int,
                                new_qturn,
                            ));
                            crate::types::lemma_view_turn_parts(turns@[i as int]);
                            crate::types::lemma_view_turn_parts(old_whole[i as int]);
                            assert(view_turn(turns@[i as int]) =~= TurnV {
                                turns: tv.turns.update(j as int, nq),
                                ..tv
                            });
                            lemma_view_turns_update(old_whole, i as int, turns@[i as int]);
                            assert(turns@ =~= old_whole.update(i as int, turns@[i as int]));
                            assert(view_turns(turns@) =~= nts);
                        }
                        return Ok(idx);
                    },
                    Err(_) => {
                        proof {
                            let tv = ts[i as int];
                            let qtv = tv.turns[j as int];
                            let new_qturn = turns@[i as int].turns@[j as int];
                            assert(view_turns(final(sub)@) == view_turns(sub_old));
                            assert(turns@[i as int].turns@[j as int].alternatives@
                                =~= old_whole[i as int].turns@[j as int].alternatives@.update(
                                alt - 1,
                                turns@[i as int].turns@[j as int].alternatives@[alt - 1],
                            ));
                            lemma_view_alts_update(
                                old_whole[i as int].turns@[j as int].alternatives@,
                                alt - 1,
                                new_qturn.alternatives@[alt - 1],
                            );
                            crate::types::lemma_view_qturn_parts(new_qturn);
                            crate::types::lemma_view_qturn_parts(
                                old_whole[i as int].turns@[j as int],
                            );
                            assert(view_alts(new_qturn.alternatives@) =~= view_alts(
                                old_whole[i as int].turns@[j as int].alternatives@,
                            ));
                            assert(view_qturn(new_qturn) =~= qtv);
                            lemma_view_qturns_update(
                                old_whole[i as int].turns@,
                                j as int,
                                new_qturn,
                            );
                            assert(turns@[i as int].turns@ =~= old_whole[i as int].turns@.update(
                                j as int,
                                new_qturn,
                            ));
                            assert(view_qturns(turns@[i as int].turns@) =~= view_qturns(
                                old_whole[i as int].turns@,
                            ).update(j as int, qtv));
                            assert(view_qturns(old_whole[i as int].turns@).update(j as int, qtv)
                                =~= view_qturns(old_whole[i as int].turns@));
                            crate::types::lemma_view_turn_parts(turns@[i as int]);
                            crate::types::lemma_view_turn_parts(old_whole[i as int]);
                            assert(view_turn(turns@[i as int]) =~= tv);
                            lemma_view_turns_update(old_whole, i as int, turns@[i as int]);
                            assert(turns@ =~= old_whole.update(i as int, turns@[i as int]));
                            assert(view_turns(turns@) =~= ts);
                        }
                        return Err(());
                    },
                }
            }
            if path.len() <= 2 && ply == current {
                let same = {
                    let qt = &turns[i].turns[j];
                    move_eq(&qt.main, &q.main) && opt_move_eq(&qt.modifier, &q.modifier)
                };
                if same {
                    return Ok(0);
                }
                let ghost qtv = ts[i as int].turns[j as int];
                let n_alts = turns[i].turns[j].alternatives.len();
                let mut k: usize = 0;
                while k < n_alts
                    invariant
                        turns@ == old(turns)@,
                        ts == view_turns(turns@),
                        qv == view_qturn(q),
                        i < turns@.len(),
                        j < turns@[i as int].turns@.len(),
                        qtv == ts[i as int].turns[j as int],
                        qtv == view_qturn(turns@[i as int].turns@[j as int]),
                        n_alts == turns@[i as int].turns@[j as int].alternatives@.len(),
                        n_alts == qtv.alternatives.len(),
                        k <= n_alts,
                        path@.len() >= 1 && path@.len() % 2 == 1,
                        path@.len() <= 2,
                        ply == path@[0],
                        ply == current,
                        !(qtv.main == qv.main && qtv.modifier == qv.modifier),
                        sp_append(ts, path@, qv, total) == sp_append_qs(
                            ts,
                            i as int,
                            j as int,
                            path@,
                            qv,
                            current as nat,
                            tot,
                        ),
                        sp_find_alt(qtv.alternatives, 0, qv) == sp_find_alt(
                            qtv.alternatives,
                            k as int,
                            qv,
                        ),
                    decreases n_alts - k,
                {
                    proof {
                        crate::types::lemma_view_qturn_parts(turns@[i as int].turns@[j as int]);
                        assert(qtv.alternatives[k as int] == view_turns(
                            turns@[i as int].turns@[j as int].alternatives@[k as int]@,
                        ));
                    }
                    let altref = &turns[i].turns[j].alternatives[k];
                    if altref.len() == 0 {
                        proof {
                            assert(qtv.alternatives[k as int].len() == 0);
                            assert(sp_find_alt(qtv.alternatives, k as int, qv) is None);
                            assert(sp_append_qs(
                                ts,
                                i as int,
                                j as int,
                                path@,
                                qv,
                                current as nat,
                                tot,
                            ) is None);
                        }
                        return Err(());
                    }
                    proof {
                        assert(qtv.alternatives[k as int][0] == view_turn(altref@[0]));
                        crate::types::lemma_view_turn_parts(altref@[0]);
                    }
                    if altref[0].turns.len() == 0 {
                        proof {
                            assert(qtv.alternatives[k as int][0].turns.len() == 0);
                            assert(sp_find_alt(qtv.alternatives, k as int, qv) is None);
                            assert(sp_append_qs(
                                ts,
                                i as int,
                                j as int,
                                path@,
                                qv,
                                current as nat,
                                tot,
                            ) is None);
                        }
                        return Err(());
                    }
                    let cand = &altref[0].turns[0];
                    proof {
                        assert(qtv.alternatives[k as int][0].turns[0] == view_qturn(altref@[0].turns@[0]));
                    }
                    if move_eq(&cand.main, &q.main) && opt_move_eq(&cand.modifier, &q.modifier) {
                        proof {
                            assert(sp_find_alt(qtv.alternatives, k as int, qv) == Some(
                                Some(k as int),
                            ));
                            assert(sp_append_qs(
                                ts,
                                i as int,
                                j as int,
                                path@,
                                qv,
                                current as nat,
                                tot,
                            ) == Some((ts, (k + 1) as usize)));
                        }
                        return Ok(k + 1);
                    }
                    k += 1;
                }
                proof {
                    assert(sp_find_alt(qtv.alternatives, n_alts as int, qv) == Some(
                        None::<int>,
                    ));
                }
                let number: usize = if tot % 4 == 0 {
                    tot / 4 + 1
                } else {
                    0
                };
                let new_turn = Turn { number, double_dot: true, turns: vec![q] };
                proof {
                    crate::types::lemma_view_turn_parts(new_turn);
                    assert(view_qturns(new_turn.turns@) =~= seq![qv]);
                    assert(view_turn(new_turn) =~= TurnV {
                        number,
                        double_dot: true,
                        turns: seq![qv],
                    });
                }
                let new_alt = vec![new_turn];
                let ghost old_whole = turns@;
                turns[i].turns[j].alternatives.push(new_alt);
                let n2 = turns[i].turns[j].alternatives.len();
                proof {
                    let tv = ts[i as int];
                    let nt = TurnV { number, double_dot: true, turns: seq![qv] };
                    let nq = QTurnV { alternatives: qtv.alternatives.push(seq![nt]), ..qtv };
                    let nts = ts.update(
                        i as int,
                        TurnV { turns: tv.turns.update(j as int, nq), ..tv },
                    );
                    assert(sp_append_qs(ts, i as int, j as int, path@, qv, current as nat, tot)
                        == Some((nts, (qtv.alternatives.len() + 1) as usize)));
                    let new_qturn = turns@[i as int].turns@[j as int];
                    assert(new_qturn.alternatives@ =~= old_whole[i as int].turns@[j as int].alternatives@.push(
                        new_qturn.alternatives@[n_alts as int],
                    ));
                    crate::types::lemma_view_qturn_parts(new_qturn);
                    crate::types::lemma_view_qturn_parts(old_whole[i as int].turns@[j as int]);
                    assert(view_turns(new_qturn.alternatives@[n_alts as int]@) =~= seq![
                        view_turn(new_turn),
                    ]);
                    assert(view_alts(new_qturn.alternatives@) =~= view_alts(
                        old_whole[i as int].turns@[j as int].alternatives@,
                    ).push(seq![view_turn(new_turn)]));
                    assert(view_qturn(new_qturn) =~= nq);
                    lemma_view_qturns_update(old_whole[i as int].turns@, j as int, new_qturn);
                    assert(turns@[i as int].turns@ =~= old_whole[i as int].turns@.update(
                        j as int,
                        new_qturn,
                    ));
                    crate::types::lemma_view_turn_parts(turns@[i as int]);
                    crate::types::lemma_view_turn_parts(old_whole[i as int]);
                    assert(view_turn(turns@[i as int]) =~= TurnV {
                        turns: ts[i as int].turns.update(j as int, nq),
                        ..ts[i as int]
                    });
                    lemma_view_turns_update(old_whole, i as int, turns@[i as int]);
                    assert(turns@ =~= old_whole.update(i as int, turns@[i as int]));
                    assert(view_turns(turns@) =~= nts);
                    assert(n2 == qtv.alternatives.len() + 1);
                }
                return Ok(n2);
            }
            if tot == usize::MAX {
                return Err(());
            }
            current += 1;
            tot += 1;
            j += 1;
        }
        i += 1;
        proof {
            assert(sp_append(ts, path@, qv, total) == sp_append_turns(
                ts,
                i as int,
                path@,
                qv,
                current as nat,
                tot,
            ));
        }
    }
    if path.len() <= 2 && ply == current {
        if tot % 4 == 0 {
            let new_turn = Turn { number: tot / 4 + 1, double_dot: false, turns: vec![q] };
            proof {
                crate::types::lemma_view_turn_parts(new_turn);
                assert(view_qturns(new_turn.turns@) =~= seq![qv]);
                assert(view_turn(new_turn) =~= TurnV {
                    number: ((tot as int) / 4 + 1) as usize,
                    double_dot: false,
                    turns: seq![qv],
                });
            }
            let ghost old_whole = turns@;
            turns.push(new_turn);
            proof {
                assert(turns@ =~= old_whole.push(new_turn));
                assert(view_turns(turns@) =~= view_turns(old_whole).push(view_turn(new_turn)));
                assert(view_turns(turns@) =~= ts.push(
                    TurnV {
                        number: ((tot as int) / 4 + 1) as usize,
                        double_dot: false,
                        turns: seq![qv],
                    },
                ));
            }
            return Ok(0);
        }
        if turns.len() == 0 {
            return Err(());
        }
        let last = turns.len() - 1;
        let ghost old_whole = turns@;
        let ghost old_last_v = view_turn(turns@[last as int]);
        proof {
            crate::types::lemma_view_turn_parts(turns@[last as int]);
        }
        turns[last].turns.push(q);
        proof {
            let new_last = turns@[last as int];
            assert(new_last.turns@ =~= old_whole[last as int].turns@.push(q));
            crate::types::lemma_view_turn_parts(new_last);
            crate::types::lemma_view_turn_parts(old_whole[last as int]);
            assert(view_qturns(new_last.turns@) =~= view_qturns(
                old_whole[last as int].turns@,
            ).push(qv));
            assert(view_turn(new_last) =~= TurnV {
                turns: old_last_v.turns.push(qv),
                ..old_last_v
            });
            lemma_view_turns_update(old_whole, last as int, new_last);
            assert(turns@ =~= old_whole.update(last as int, new_last));
            assert(view_turns(turns@) =~= ts.update(
                last as int,
                TurnV { turns: ts[last as int].turns.push(qv), ..ts[last as int] },
            ));
        }
        return Ok(0);
    }
    Err(())
}

impl PGN4 {
    /// Insert `q` immediately after the spot `path` addresses. On an empty
    /// document, `[0]` starts turn 1. Returns 0 when the move went to (or
    /// already was) the main continuation, otherwise the 1-based index of
    /// the alternative holding it. An even-length path, an embedded zero, or
    /// an unresolvable address fails and leaves the document unchanged.
    pub fn append_move(&mut self, path: &[usize], q: QuarterTurn) -> (r: Result<usize, ()>)
        ensures
            match r {
                Ok(idx) => sp_append_move(view_pgn(*old(self)), path@, view_qturn(q)) == Some(
                    (view_pgn(*final(self)), idx),
                ),
                Err(_) => sp_append_move(view_pgn(*old(self)), path@, view_qturn(q)) is None
                    && view_pgn(*final(self)) == view_pgn(*old(self)),
            },
    {
        let ghost pv = view_pgn(*self);
        if path.len() % 2 == 0 {
            return Err(());
        }
        if path.len() == 1 && *slice_index_get(path, 0) == 0 && self.turns.len() == 0 {
            let ghost qv = view_qturn(q);
            let new_turn = Turn { number: 1, double_dot: false, turns: vec![q] };
            proof {
                crate::types::lemma_view_turn_parts(new_turn);
                assert(view_qturns(new_turn.turns@) =~= seq![qv]);
                assert(view_turn(new_turn) =~= TurnV {
                    number: 1,
                    double_dot: false,
                    turns: seq![qv],
                });
            }
            let ghost old_turns = self.turns@;
            self.turns.push(new_turn);
            proof {
                assert(view_turns(self.turns@) =~= view_turns(old_turns).push(
                    view_turn(new_turn),
                ));
                assert(view_turns(old_turns) =~= Seq::<TurnV>::empty());
                assert(view_turns(self.turns@) =~= seq![
                    TurnV { number: 1, double_dot: false, turns: seq![qv] },
                ]);
                assert(view_pgn(*self) =~= Pgn4V {
                    turns: seq![TurnV { number: 1, double_dot: false, turns: seq![qv] }],
                    ..pv
                });
            }
            return Ok(0);
        }
        let ghost qv = view_qturn(q);
        let r = append_helper(&mut self.turns, path, q, 0);
        proof {
            match r {
                Ok(idx) => {
                    assert(view_pgn(*self) =~= Pgn4V {
                        turns: view_turns(self.turns@),
                        ..pv
                    });
                },
                Err(_) => {
                    assert(view_pgn(*self) =~= pv);
                },
            }
        }
        r
    }
}

/// Promote the alternative a path names to be the main continuation of its
/// line. `current` counts the plies already walked in this line.
pub open spec fn sp_promote(ts: Seq<TurnV>, path: Seq<usize>) -> Option<Seq<TurnV>>
    decreases ts, 2 * ts.len() + 3, 0int,
{
    if path[0] == 0 {
        None
    } else if path.len() == 1 {
        Some(ts)
    } else {
        sp_promote_turns(ts, 0, path, 0)
    }
}

pub open spec fn sp_promote_turns(ts: Seq<TurnV>, i: int, path: Seq<usize>, current: nat) -> Option<
    Seq<TurnV>,
>
    decreases ts, 2 * (ts.len() - i) + 2, 0int,
{
    if i < 0 || i >= ts.len() {
        None
    } else {
        sp_promote_qs(ts, i, 0, path, current)
    }
}

pub open spec fn sp_promote_qs(
    ts: Seq<TurnV>,
    i: int,
    j: int,
    path: Seq<usize>,
    current: nat,
) -> Option<Seq<TurnV>>
    decreases ts, 2 * (ts.len() - i) + 1, ts[i].turns.len() - j,
{
    if !(0 <= i < ts.len() && 0 <= j) {
        None
    } else if j >= ts[i].turns.len() {
        sp_promote_turns(ts, i + 1, path, current)
    } else if current + 1 == path[0] {
        let t = ts[i];
        let qt = t.turns[j];
        let alt = path[1] as int;
        if alt == 0 || qt.alternatives.len() < alt {
            None
        } else if qt.alternatives[alt - 1].len() == 0 || qt.alternatives[alt - 1][0].turns.len()
            == 0 {
            None
        } else {
            match sp_promote(qt.alternatives[alt - 1], path.skip(2)) {
                None => None,
                Some(promoted) => {
                    if promoted.len() == 0 || promoted[0].turns.len() == 0 {
                        None
                    } else {
                        let rem_alts = qt.alternatives.remove(alt - 1);
                        let qt_new = QTurnV {
                            alternatives: promoted[0].turns[0].alternatives,
                            ..qt
                        };
                        let demoted_first = TurnV {
                            number: promoted[0].number,
                            double_dot: promoted[0].double_dot,
                            turns: seq![qt_new] + t.turns.skip(j + 1),
                        };
                        let demoted = seq![demoted_first] + ts.skip(i + 1);
                        let pq = QTurnV {
                            alternatives: seq![demoted] + rem_alts,
                            ..promoted[0].turns[0]
                        };
                        let merged = TurnV {
                            number: t.number,
                            double_dot: t.double_dot,
                            turns: t.turns.take(j) + (seq![pq] + promoted[0].turns.skip(1)),
                        };
                        Some(ts.take(i) + seq![merged] + promoted.skip(1))
                    }
                },
            }
        }
    } else {
        if current + 1 > usize::MAX {
            None
        } else {
            sp_promote_qs(ts, i, j + 1, path, current + 1)
        }
    }
}

/// Promote the alternative a path names in a document; an even-length path
/// fails.
pub open spec fn sp_promote_move(p: Pgn4V, path: Seq<usize>) -> Option<Pgn4V> {
    if path.len() % 2 == 0 || path.len() == 0 {
        None
    } else {
        match sp_promote(p.turns, path) {
            None => None,
            Some(ts) => Some(Pgn4V { turns: ts, ..p }),
        }
    }
}

/// A successful promotion keeps the line nonempty, and keeps its first turn
/// nonempty where it was.
proof fn lemma_promote_keeps_head(ts: Seq<TurnV>, path: Seq<usize>)
    ensures
        match sp_promote(ts, path) {
            Some(r) => ts.len() > 0 && ts[0].turns.len() > 0 ==> r.len() > 0 && r[0].turns.len()
                > 0,
            None => true,
        },
    decreases ts, 2 * ts.len() + 3, 0int,
{
    if path[0] == 0 || path.len() == 1 {
    } else {
        lemma_promote_keeps_head_turns(ts, 0, path, 0);
    }
}

proof fn lemma_promote_keeps_head_turns(ts: Seq<TurnV>, i: int, path: Seq<usize>, current: nat)
    ensures
        match sp_promote_turns(ts, i, path, current) {
            Some(r) => ts.len() > 0 && ts[0].turns.len() > 0 ==> r.len() > 0 && r[0].turns.len()
                > 0,
            None => true,
        },
    decreases ts, 2 * (ts.len() - i) + 2, 0int,
{
    if 0 <= i < ts.len() {
        lemma_promote_keeps_head_qs(ts, i, 0, path, current);
    }
}

proof fn lemma_promote_keeps_head_qs(
    ts: Seq<TurnV>,
    i: int,
    j: int,
    path: Seq<usize>,
    current: nat,
)
    ensures
        match sp_promote_qs(ts, i, j, path, current) {
            Some(r) => ts.len() > 0 && ts[0].turns.len() > 0 ==> r.len() > 0 && r[0].turns.len()
                > 0,
            None => true,
        },
    decreases ts, 2 * (ts.len() - i) + 1, ts[i].turns.len() - j,
{
    if !(0 <= i < ts.len() && 0 <= j) {
    } else if j >= ts[i].turns.len() {
        lemma_promote_keeps_head_turns(ts, i + 1, path, current);
    } else if current + 1 == path[0] {
        match sp_promote_qs(ts, i, j, path, current) {
            Some(r) => {
                if i > 0 {
                    assert(r[0] == ts[0]);
                } else {
                    assert(r[0].turns.len() > 0);
                }
            },
            None => {},
        }
    } else {
        if current + 1 <= usize::MAX {
            lemma_promote_keeps_head_qs(ts, i, j + 1, path, current + 1);
        }
    }
}

/// Promote inside one line.
#[verifier::rlimit(100)]
fn promote_helper(turns: &mut Vec<Turn>, path: &[usize]) -> (r: Result<(), ()>)
    requires
        path@.len() >= 1,
        path@.len() % 2 == 1,
    ensures
        match r {
            Ok(_) => sp_promote(view_turns(old(turns)@), path@) == Some(view_turns(final(turns)@)),
            Err(_) => sp_promote(view_turns(old(turns)@), path@) is None && view_turns(
                final(turns)@,
            ) == view_turns(old(turns)@),
        },
    decreases *old(turns), 0int,
{
    let ghost ts = view_turns(turns@);
    let ply = *slice_index_get(path, 0);
    if ply == 0 {
        return Err(());
    }
    if path.len() == 1 {
        return Ok(());
    }
    let mut i: usize = 0;
    let mut current: usize = 0;
    while i < turns.len()
        invariant
            turns@ == old(turns)@,
            ts == view_turns(turns@),
            i <= turns@.len(),
            path@.len() >= 3 && path@.len() % 2 == 1,
            ply == path@[0],
            ply != 0,
            sp_promote(ts, path@) == sp_promote_turns(ts, i as int, path@, current as nat),
        decreases turns@.len() - i,
    {
        let n_qs = turns[i].turns.len();
        let mut j: usize = 0;
        proof {
            assert(ts[i as int] == view_turn(turns@[i as int]));
            crate::types::lemma_view_turn_parts(turns@[i as int]);
        }
        while j < n_qs
            invariant
                turns@ == old(turns)@,
                ts == view_turns(turns@),
                i < turns@.len(),
                n_qs == turns@[i as int].turns@.len(),
                j <= n_qs,
                path@.len() >= 3 && path@.len() % 2 == 1,
                ply == path@[0],
                ply != 0,
                sp_promote(ts, path@) == sp_promote_qs(ts, i as int, j as int, path@, current as nat),
            decreases n_qs - j,
        {
            proof {
                assert(ts[i as int] == view_turn(turns@[i as int]));
                crate::types::lemma_view_turn_parts(turns@[i as int]);
                assert(ts[i as int].turns[j as int] == view_qturn(turns@[i as int].turns@[j as int]));
                crate::types::lemma_view_qturn_parts(turns@[i as int].turns@[j as int]);
            }
            if ply - 1 == current {
                let ghost tv = ts[i as int];
                let ghost qtv = tv.turns[j as int];
                let alt = *slice_index_get(path, 1);
                let n_alts = turns[i].turns[j].alternatives.len();
                if alt == 0 || n_alts < alt {
                    return Err(());
                }
                proof {
                    assert(qtv.alternatives[alt - 1] == view_turns(
                        turns@[i as int].turns@[j as int].alternatives@[alt - 1]@,
                    ));
                }
                if turns[i].turns[j].alternatives[alt - 1].len() == 0 {
                    return Err(());
                }
                proof {
                    let av = turns@[i as int].turns@[j as int].alternatives@[alt - 1]@;
                    assert(qtv.alternatives[alt - 1][0] == view_turn(av[0]));
                    crate::types::lemma_view_turn_parts(av[0]);
                }
                if turns[i].turns[j].alternatives[alt - 1][0].turns.len() == 0 {
                    return Err(());
                }
                let sub_path = slice_subrange(path, 2, path.len());
                proof {
                    assert(sub_path@ =~= path@.skip(2));
                }
                let ghost old_whole = turns@;
                let sub = &mut turns[i].turns[j].alternatives[alt - 1];
                let ghost sub_old = sub@;
                let res = promote_helper(sub, sub_path);
                proof {
                    assert(sub_old == old_whole[i as int].turns@[j as int].alternatives@[alt
                        - 1]@);
                }
                if res.is_err() {
                    proof {
                        let new_qturn = turns@[i as int].turns@[j as int];
                        assert(view_turns(final(sub)@) == view_turns(sub_old));
                        assert(turns@[i as int].turns@[j as int].alternatives@
                            =~= old_whole[i as int].turns@[j as int].alternatives@.update(
                            alt - 1,
                            turns@[i as int].turns@[j as int].alternatives@[alt - 1],
                        ));
                        lemma_view_alts_update(
                            old_whole[i as int].turns@[j as int].alternatives@,
                            alt - 1,
                            new_qturn.alternatives@[alt - 1],
                        );
                        crate::types::lemma_view_qturn_parts(new_qturn);
                        crate::types::lemma_view_qturn_parts(old_whole[i as int].turns@[j as int]);
                        assert(view_alts(new_qturn.alternatives@) =~= view_alts(
                            old_whole[i as int].turns@[j as int].alternatives@,
                        ));
                        assert(view_qturn(new_qturn) =~= qtv);
                        lemma_view_qturns_update(old_whole[i as int].turns@, j as int, new_qturn);
                        assert(turns@[i as int].turns@ =~= old_whole[i as int].turns@.update(
                            j as int,
                            new_qturn,
                        ));
                        assert(view_qturns(turns@[i as int].turns@) =~= view_qturns(
                            old_whole[i as int].turns@,
                        ).update(j as int, qtv));
                        assert(view_qturns(old_whole[i as int].turns@).update(j as int, qtv)
                            =~= view_qturns(old_whole[i as int].turns@));
                        crate::types::lemma_view_turn_parts(turns@[i as int]);
                        crate::types::lemma_view_turn_parts(old_whole[i as int]);
                        assert(view_turn(turns@[i as int]) =~= tv);
                        lemma_view_turns_update(old_whole, i as int, turns@[i as int]);
                        assert(turns@ =~= old_whole.update(i as int, turns@[i as int]));
                        assert(view_turns(turns@) =~= ts);
                    }
                    return Err(());
                }
                let ghost promoted_v = view_turns(final(sub)@);
                let ghost qt_new0 = QTurnV { alternatives: promoted_v[0].turns[0].alternatives, ..qtv };
                proof {
                    lemma_promote_keeps_head(view_turns(sub_old), sub_path@);
                    assert(promoted_v.len() > 0 && promoted_v[0].turns.len() > 0);
                    let new_qturn = turns@[i as int].turns@[j as int];
                    assert(turns@[i as int].turns@[j as int].alternatives@
                        =~= old_whole[i as int].turns@[j as int].alternatives@.update(
                        alt - 1,
                        turns@[i as int].turns@[j as int].alternatives@[alt - 1],
                    ));
                    lemma_view_alts_update(
                        old_whole[i as int].turns@[j as int].alternatives@,
                        alt - 1,
                        new_qturn.alternatives@[alt - 1],
                    );
                    crate::types::lemma_view_qturn_parts(new_qturn);
                    crate::types::lemma_view_qturn_parts(old_whole[i as int].turns@[j as int]);
                    assert(view_qturn(new_qturn) =~= QTurnV {
                        alternatives: qtv.alternatives.update(alt - 1, promoted_v),
                        ..qtv
                    });
                    lemma_view_qturns_update(old_whole[i as int].turns@, j as int, new_qturn);
                    assert(turns@[i as int].turns@ =~= old_whole[i as int].turns@.update(
                        j as int,
                        new_qturn,
                    ));
                    crate::types::lemma_view_turn_parts(turns@[i as int]);
                    crate::types::lemma_view_turn_parts(old_whole[i as int]);
                    lemma_view_turns_update(old_whole, i as int, turns@[i as int]);
                    assert(turns@ =~= old_whole.update(i as int, turns@[i as int]));
                }
                // The splice: the promoted line replaces this line from the
                // addressed quarter-turn on, and the replaced rest becomes
                // its first alternative.
                let ghost rem_alts = qtv.alternatives.remove(alt - 1);
                let ghost w0 = turns@;
                let mut promoted = turns[i].turns[j].alternatives.remove(alt - 1);
                proof {
                    assert(view_turns(promoted@) =~= promoted_v);
                    assert(turns@[i as int].turns@[j as int].alternatives@ =~= w0[i as int].turns@[j as int].alternatives@.remove(alt - 1));
                    crate::types::lemma_view_qturn_parts(turns@[i as int].turns@[j as int]);
                    crate::types::lemma_view_qturn_parts(w0[i as int].turns@[j as int]);
                    assert(view_alts(turns@[i as int].turns@[j as int].alternatives@)
                        =~= view_alts(w0[i as int].turns@[j as int].alternatives@).remove(alt - 1));
                    assert(view_alts(w0[i as int].turns@[j as int].alternatives@)
                        =~= qtv.alternatives.update(alt - 1, promoted_v));
                    assert(view_alts(turns@[i as int].turns@[j as int].alternatives@) =~= rem_alts);
                    assert(view_qturn(turns@[i as int].turns@[j as int]) =~= (QTurnV { alternatives: rem_alts, ..qtv }));
                }
                let ghost w1 = turns@;
                let ghost p1 = promoted@;
                core::mem::swap(
                    &mut promoted[0].turns[0].alternatives,
                    &mut turns[i].turns[j].alternatives,
                );
                proof {
                    // the two quarter-turns have traded their alternatives
                    assert(promoted@[0].turns@[0].alternatives == w1[i as int].turns@[j as int].alternatives);
                    assert(turns@[i as int].turns@[j as int].alternatives == p1[0].turns@[0].alternatives);
                    crate::types::lemma_view_qturn_parts(turns@[i as int].turns@[j as int]);
                    crate::types::lemma_view_qturn_parts(p1[0].turns@[0]);
                    crate::types::lemma_view_turn_parts(p1[0]);
                    assert(view_turn(p1[0]) == promoted_v[0]);
                    assert(view_qturn(p1[0].turns@[0]) == promoted_v[0].turns[0]);
                    assert(view_alts(turns@[i as int].turns@[j as int].alternatives@)
                        =~= promoted_v[0].turns[0].alternatives);
                    assert(view_qturn(turns@[i as int].turns@[j as int]) =~= qt_new0);
                    // and the promoted line's first quarter-turn now holds the slot's remaining ones
                    crate::types::lemma_view_qturn_parts(promoted@[0].turns@[0]);
                    assert(view_qturn(promoted@[0].turns@[0]) =~= (QTurnV { alternatives: rem_alts, ..promoted_v[0].turns[0] }));
                    crate::types::lemma_view_turn_parts(promoted@[0]);
                    crate::types::lemma_view_turn_parts(p1[0]);
                    assert(promoted@[0].turns@ =~= p1[0].turns@.update(0, promoted@[0].turns@[0]));
                    assert(view_qturns(promoted@[0].turns@) =~= promoted_v[0].turns.update(0, view_qturn(promoted@[0].turns@[0])));
                    // the line itself, around the addressed quarter-turn, is unchanged
                    assert(turns@[i as int].turns@ =~= w1[i as int].turns@.update(j as int, turns@[i as int].turns@[j as int]));
                    assert(turns@ =~= w1.update(i as int, turns@[i as int]));
                }
                let ghost w2 = turns@;
                let ghost p2 = promoted@;
                let n_now = turns.len();
                proof {
                    assert(i < n_now);
                }
                let mut tail = turns.split_off(i + 1);
                let qs_tail = turns[i].turns.split_off(j);
                proof {
                    assert(tail@ =~= w2.skip(i + 1));
                    assert(forall|k: int| 0 <= k < tail@.len() ==> tail@[k] == old_whole[i + 1 + k]);
                    assert(view_turns(tail@) =~= ts.skip(i + 1));
                    assert(qs_tail@ =~= w2[i as int].turns@.skip(j as int));
                    assert(turns@[i as int].turns@ =~= w2[i as int].turns@.take(j as int));
                }
                let mut demoted: Vec<Turn> = Vec::new();
                demoted.push(
                    Turn {
                        number: promoted[0].number,
                        double_dot: promoted[0].double_dot,
                        turns: qs_tail,
                    },
                );
                demoted.append(&mut tail);
                proof {
                    let d0 = demoted@[0];
                    crate::types::lemma_view_turn_parts(d0);
                    assert(d0.turns@ =~= w2[i as int].turns@.skip(j as int));
                    assert(d0.turns@[0] == w2[i as int].turns@[j as int]);
                    assert(view_qturn(d0.turns@[0]) =~= qt_new0);
                    assert forall|k: int| 1 <= k < d0.turns@.len() implies view_qturn(#[trigger] d0.turns@[k]) == tv.turns[j + k] by {
                        assert(d0.turns@[k] == w2[i as int].turns@[j + k]);
                        assert(w2[i as int].turns@[j + k] == old_whole[i as int].turns@[j + k]);
                    }
                    assert(view_qturns(d0.turns@) =~= seq![qt_new0] + tv.turns.skip(j + 1));
                    assert(p2[0].number == promoted_v[0].number && p2[0].double_dot == promoted_v[0].double_dot);
                    assert(view_turn(d0) =~= (TurnV {
                        number: promoted_v[0].number,
                        double_dot: promoted_v[0].double_dot,
                        turns: seq![qt_new0] + tv.turns.skip(j + 1),
                    }));
                    assert(view_turns(demoted@) =~= seq![view_turn(d0)] + ts.skip(i + 1));
                }
                let ghost demoted_view = view_turns(demoted@);
                promoted[0].turns[0].alternatives.insert(0, demoted);
                proof {
                    assert(promoted@[0].turns@[0].alternatives@ =~= p2[0].turns@[0].alternatives@.insert(0, demoted));
                    crate::types::lemma_view_qturn_parts(promoted@[0].turns@[0]);
                    crate::types::lemma_view_qturn_parts(p2[0].turns@[0]);
                    assert(view_alts(promoted@[0].turns@[0].alternatives@)
                        =~= seq![demoted_view] + view_alts(p2[0].turns@[0].alternatives@));
                    assert(view_alts(p2[0].turns@[0].alternatives@) =~= rem_alts);
                    assert(view_qturn(promoted@[0].turns@[0]) =~= (QTurnV {
                        alternatives: seq![demoted_view] + rem_alts,
                        ..promoted_v[0].turns[0]
                    }));
                    crate::types::lemma_view_turn_parts(promoted@[0]);
                    crate::types::lemma_view_turn_parts(p2[0]);
                    assert(promoted@[0].turns@ =~= p2[0].turns@.update(0, promoted@[0].turns@[0]));
                }
                let ghost p3 = promoted@;
                let mut pfirst = promoted.remove(0);
                turns[i].turns.append(&mut pfirst.turns);
                turns.append(&mut promoted);
                proof {
                    let pq = QTurnV {
                        alternatives: seq![demoted_view] + rem_alts,
                        ..promoted_v[0].turns[0]
                    };
                    let merged = TurnV {
                        number: tv.number,
                        double_dot: tv.double_dot,
                        turns: tv.turns.take(j as int) + (seq![pq] + promoted_v[0].turns.skip(1)),
                    };
                    // the merged turn
                    crate::types::lemma_view_turn_parts(turns@[i as int]);
                    assert(turns@[i as int].turns@ =~= w2[i as int].turns@.take(j as int) + p3[0].turns@);
                    assert forall|k: int| 0 <= k < j implies view_qturn(#[trigger] w2[i as int].turns@[k]) == tv.turns[k] by {
                        assert(w2[i as int].turns@[k] == old_whole[i as int].turns@[k]);
                    }
                    assert forall|k: int| 1 <= k < p3[0].turns@.len() implies view_qturn(#[trigger] p3[0].turns@[k]) == promoted_v[0].turns[k] by {
                        assert(p3[0].turns@[k] == p1[0].turns@[k]);
                    }
                    assert(view_qturn(p3[0].turns@[0]) == pq);
                    assert(view_qturns(turns@[i as int].turns@) =~= tv.turns.take(j as int) + (seq![pq] + promoted_v[0].turns.skip(1)));
                    assert(turns@[i as int].number == tv.number && turns@[i as int].double_dot == tv.double_dot);
                    assert(view_turn(turns@[i as int]) =~= merged);
                    // the whole line
                    assert(turns@ =~= w2.take(i + 1).update(i as int, turns@[i as int]) + p3.skip(1));
                    assert forall|k: int| 0 <= k < i implies view_turn(#[trigger] turns@[k]) == ts[k] by {
                        assert(turns@[k] == old_whole[k]);
                    }
                    assert forall|k: int| i + 1 <= k < turns@.len() implies view_turn(#[trigger] turns@[k]) == promoted_v[k - i] by {
                        assert(turns@[k] == p3[k - i]);
                        assert(p3[k - i] == p1[k - i]);
                    }
                    assert(view_turns(turns@) =~= ts.take(i as int) + seq![merged] + promoted_v.skip(1));
                    assert(sp_promote_qs(ts, i as int, j as int, path@, current as nat) == Some(
                        ts.take(i as int) + seq![merged] + promoted_v.skip(1),
                    ));
                }
                return Ok(());
            }
            if current == usize::MAX {
                return Err(());
            }
            current += 1;
            j += 1;
        }
        i += 1;
        proof {
            assert(sp_promote(ts, path@) == sp_promote_turns(
                ts,
                i as int,
                path@,
                current as nat,
            ));
        }
    }
    Err(())
}

impl PGN4 {
    /// Make the alternative the path names the main continuation at its
    /// slot, demoting the prior continuation to be the first alternative
    /// there. An even-length path, a zero ply, or an out-of-range
    /// alternative index fails and leaves the document unchanged.
    pub fn promote_to_mainline(&mut self, path: &[usize]) -> (r: Result<(), ()>)
        ensures
            match r {
                Ok(_) => sp_promote_move(view_pgn(*old(self)), path@) == Some(
                    view_pgn(*final(self)),
                ),
                Err(_) => sp_promote_move(view_pgn(*old(self)), path@) is None && view_pgn(
                    *final(self),
                ) == view_pgn(*old(self)),
            },
    {
        let ghost pv = view_pgn(*self);
        if path.len() % 2 == 0 {
            return Err(());
        }
        let r = promote_helper(&mut self.turns, path);
        proof {
            match r {
                Ok(_) => {
                    assert(view_pgn(*self) =~= Pgn4V { turns: view_turns(self.turns@), ..pv });
                },
                Err(_) => {
                    assert(view_pgn(*self) =~= pv);
                },
            }
        }
        r
    }
}

/// Truncate a line at the addressed ply. `current` counts plies already
/// walked in this line.
pub open spec fn sp_delete(ts: Seq<TurnV>, path: Seq<usize>) -> Option<Seq<TurnV>>
    decreases ts, 2 * ts.len() + 3, 0int,
{
    if path[0] == 0 {
        None
    } else {
        sp_delete_turns(ts, 0, path, 0)
    }
}

pub open spec fn sp_delete_turns(ts: Seq<TurnV>, i: int, path: Seq<usize>, current: nat) -> Option<
    Seq<TurnV>,
>
    decreases ts, 2 * (ts.len() - i) + 2, 0int,
{
    if i < 0 || i >= ts.len() {
        None
    } else {
        sp_delete_qs(ts, i, 0, path, current)
    }
}

pub open spec fn sp_delete_qs(
    ts: Seq<TurnV>,
    i: int,
    j: int,
    path: Seq<usize>,
    current: nat,
) -> Option<Seq<TurnV>>
    decreases ts, 2 * (ts.len() - i) + 1, ts[i].turns.len() - j,
{
    if !(0 <= i < ts.len() && 0 <= j) {
        None
    } else if j >= ts[i].turns.len() {
        sp_delete_turns(ts, i + 1, path, current)
    } else if current + 1 == path[0] {
        let t = ts[i];
        let qt = t.turns[j];
        if path.len() > 2 {
            let alt = path[1] as int;
            if alt == 0 || qt.alternatives.len() < alt {
                None
            } else {
                match sp_delete(qt.alternatives[alt - 1], path.skip(2)) {
                    None => None,
                    Some(sub) => {
                        let new_alts = if sub.len() == 0 {
                            qt.alternatives.remove(alt - 1)
                        } else {
                            qt.alternatives.update(alt - 1, sub)
                        };
                        let nq = QTurnV { alternatives: new_alts, ..qt };
                        Some(ts.update(i, TurnV { turns: t.turns.update(j, nq), ..t }))
                    },
                }
            }
        } else {
            if qt.alternatives.len() > 0 {
                let a0 = qt.alternatives[0];
                if a0.len() == 0 || a0[0].turns.len() == 0 {
                    None
                } else {
                    let pq = QTurnV {
                        alternatives: a0[0].turns[0].alternatives + qt.alternatives.skip(1),
                        ..a0[0].turns[0]
                    };
                    let merged = TurnV {
                        turns: t.turns.take(j) + (seq![pq] + a0[0].turns.skip(1)),
                        ..t
                    };
                    Some(ts.take(i) + seq![merged] + a0.skip(1))
                }
            } else {
                if j == 0 {
                    Some(ts.take(i))
                } else {
                    Some(ts.take(i) + seq![TurnV { turns: t.turns.take(j), ..t }])
                }
            }
        }
    } else {
        if current + 1 > usize::MAX {
            None
        } else {
            sp_delete_qs(ts, i, j + 1, path, current + 1)
        }
    }
}

/// Truncate a document at the addressed ply; an even-length path fails.
pub open spec fn sp_delete_move(p: Pgn4V, path: Seq<usize>) -> Option<Pgn4V> {
    if path.len() % 2 == 0 || path.len() == 0 {
        None
    } else {
        match sp_delete(p.turns, path) {
            None => None,
            Some(ts) => Some(Pgn4V { turns: ts, ..p }),
        }
    }
}

/// Truncate one line.
#[verifier::rlimit(100)]
fn delete_helper(turns: &mut Vec<Turn>, path: &[usize]) -> (r: Result<(), ()>)
    requires
        path@.len() >= 1,
        path@.len() % 2 == 1,
    ensures
        match r {
            Ok(_) => sp_delete(view_turns(old(turns)@), path@) == Some(view_turns(final(turns)@)),
            Err(_) => sp_delete(view_turns(old(turns)@), path@) is None && view_turns(
                final(turns)@,
            ) == view_turns(old(turns)@),
        },
    decreases *old(turns), 0int,
{
    let ghost ts = view_turns(turns@);
    let ply = *slice_index_get(path, 0);
    if ply == 0 {
        return Err(());
    }
    let mut i: usize = 0;
    let mut current: usize = 0;
    while i < turns.len()
        invariant
            turns@ == old(turns)@,
            ts == view_turns(turns@),
            i <= turns@.len(),
            path@.len() >= 1 && path@.len() % 2 == 1,
            ply == path@[0],
            ply != 0,
            sp_delete(ts, path@) == sp_delete_turns(ts, i as int, path@, current as nat),
        decreases turns@.len() - i,
    {
        let n_qs = turns[i].turns.len();
        let mut j: usize = 0;
        proof {
            assert(ts[i as int] == view_turn(turns@[i as int]));
            crate::types::lemma_view_turn_parts(turns@[i as int]);
        }
        while j < n_qs
            invariant
                turns@ == old(turns)@,
                ts == view_turns(turns@),
                i < turns@.len(),
                n_qs == turns@[i as int].turns@.len(),
                j <= n_qs,
                path@.len() >= 1 && path@.len() % 2 == 1,
                ply == path@[0],
                ply != 0,
                sp_delete(ts, path@) == sp_delete_qs(ts, i as int, j as int, path@, current as nat),
            decreases n_qs - j,
        {
            proof {
                assert(ts[i as int] == view_turn(turns@[i as int]));
                crate::types::lemma_view_turn_parts(turns@[i as int]);
                assert(ts[i as int].turns[j as int] == view_qturn(turns@[i as int].turns@[j as int]));
                crate::types::lemma_view_qturn_parts(turns@[i as int].turns@[j as int]);
            }
            if ply - 1 == current {
                let ghost tv = ts[i as int];
                let ghost qtv = tv.turns[j as int];
                if path.len() > 2 {
                    let alt = *slice_index_get(path, 1);
                    let n_alts = turns[i].turns[j].alternatives.len();
                    if alt == 0 || n_alts < alt {
                        return Err(());
                    }
                    let sub_path = slice_subrange(path, 2, path.len());
                    proof {
                        assert(sub_path@ =~= path@.skip(2));
                    }
                    let ghost old_whole = turns@;
                    let sub = &mut turns[i].turns[j].alternatives[alt - 1];
                    let ghost sub_old = sub@;
                    let res = delete_helper(sub, sub_path);
                    proof {
                        assert(sub_old == old_whole[i as int].turns@[j as int].alternatives@[alt
                            - 1]@);
                        assert(view_turns(sub_old) == qtv.alternatives[alt - 1]);
                    }
                    if res.is_err() {
                        proof {
                            let new_qturn = turns@[i as int].turns@[j as int];
                            assert(view_turns(final(sub)@) == view_turns(sub_old));
                            assert(turns@[i as int].turns@[j as int].alternatives@
                                =~= old_whole[i as int].turns@[j as int].alternatives@.update(
                                alt - 1,
                                turns@[i as int].turns@[j as int].alternatives@[alt - 1],
                            ));
                            lemma_view_alts_update(
                                old_whole[i as int].turns@[j as int].alternatives@,
                                alt - 1,
                                new_qturn.alternatives@[alt - 1],
                            );
                            crate::types::lemma_view_qturn_parts(new_qturn);
                            crate::types::lemma_view_qturn_parts(
                                old_whole[i as int].turns@[j as int],
                            );
                            assert(view_alts(new_qturn.alternatives@) =~= view_alts(
                                old_whole[i as int].turns@[j as int].alternatives@,
                            ));
                            assert(view_qturn(new_qturn) =~= qtv);
                            lemma_view_qturns_update(
                                old_whole[i as int].turns@,
                                j as int,
                                new_qturn,
                            );
                            assert(turns@[i as int].turns@ =~= old_whole[i as int].turns@.update(
                                j as int,
                                new_qturn,
                            ));
                            assert(view_qturns(turns@[i as int].turns@) =~= view_qturns(
                                old_whole[i as int].turns@,
                            ).update(j as int, qtv));
                            assert(view_qturns(old_whole[i as int].turns@).update(j as int, qtv)
                                =~= view_qturns(old_whole[i as int].turns@));
                            crate::types::lemma_view_turn_parts(turns@[i as int]);
                            crate::types::lemma_view_turn_parts(old_whole[i as int]);
                            assert(view_turn(turns@[i as int]) =~= tv);
                            lemma_view_turns_update(old_whole, i as int, turns@[i as int]);
                            assert(turns@ =~= old_whole.update(i as int, turns@[i as int]));
                            assert(view_turns(turns@) =~= ts);
                        }
                        return Err(());
                    }
                    let ghost sub_v = view_turns(final(sub)@);
                    proof {
                        let new_qturn = turns@[i as int].turns@[j as int];
                        assert(turns@[i as int].turns@[j as int].alternatives@
                            =~= old_whole[i as int].turns@[j as int].alternatives@.update(
                            alt - 1,
                            turns@[i as int].turns@[j as int].alternatives@[alt - 1],
                        ));
                        lemma_view_alts_update(
                            old_whole[i as int].turns@[j as int].alternatives@,
                            alt - 1,
                            new_qturn.alternatives@[alt - 1],
                        );
                        crate::types::lemma_view_qturn_parts(new_qturn);
                        crate::types::lemma_view_qturn_parts(old_whole[i as int].turns@[j as int]);
                        assert(view_alts(new_qturn.alternatives@) =~= qtv.alternatives.update(
                            alt - 1,
                            sub_v,
                        ));
                        lemma_view_qturns_update(old_whole[i as int].turns@, j as int, new_qturn);
                        assert(turns@[i as int].turns@ =~= old_whole[i as int].turns@.update(
                            j as int,
                            new_qturn,
                        ));
                        crate::types::lemma_view_turn_parts(turns@[i as int]);
                        crate::types::lemma_view_turn_parts(old_whole[i as int]);
                        lemma_view_turns_update(old_whole, i as int, turns@[i as int]);
                        assert(turns@ =~= old_whole.update(i as int, turns@[i as int]));
                    }
                    let ghost w1 = turns@;
                    let sub_len = turns[i].turns[j].alternatives[alt - 1].len();
                    if sub_len == 0 {
                        turns[i].turns[j].alternatives.remove(alt - 1);
                        proof {
                            let new_qturn = turns@[i as int].turns@[j as int];
                            assert(new_qturn.alternatives@ =~= w1[i as int].turns@[j as int].alternatives@.remove(
                                alt - 1,
                            ));
                            crate::types::lemma_view_qturn_parts(new_qturn);
                            crate::types::lemma_view_qturn_parts(w1[i as int].turns@[j as int]);
                            assert(view_alts(new_qturn.alternatives@) =~= view_alts(
                                w1[i as int].turns@[j as int].alternatives@,
                            ).remove(alt - 1));
                            assert(view_alts(w1[i as int].turns@[j as int].alternatives@)
                                =~= qtv.alternatives.update(alt - 1, sub_v));
                            assert(view_alts(new_qturn.alternatives@) =~= qtv.alternatives.update(
                                alt - 1,
                                sub_v,
                            ).remove(alt - 1));
                            assert(qtv.alternatives.update(alt - 1, sub_v).remove(alt - 1)
                                =~= qtv.alternatives.remove(alt - 1));
                            lemma_view_qturns_update(w1[i as int].turns@, j as int, new_qturn);
                            assert(turns@[i as int].turns@ =~= w1[i as int].turns@.update(
                                j as int,
                                new_qturn,
                            ));
                            crate::types::lemma_view_turn_parts(turns@[i as int]);
                            crate::types::lemma_view_turn_parts(w1[i as int]);
                            lemma_view_turns_update(w1, i as int, turns@[i as int]);
                            assert(turns@ =~= w1.update(i as int, turns@[i as int]));
                            let nq = QTurnV { alternatives: qtv.alternatives.remove(alt - 1), ..qtv };
                            assert(view_qturn(new_qturn) =~= nq);
                            let nq_mid = QTurnV {
                                alternatives: qtv.alternatives.update(alt - 1, sub_v),
                                ..qtv
                            };
                            assert(view_qturn(w1[i as int].turns@[j as int]) =~= nq_mid);
                            assert(view_qturns(w1[i as int].turns@) =~= tv.turns.update(
                                j as int,
                                nq_mid,
                            ));
                            assert(view_qturns(turns@[i as int].turns@) =~= view_qturns(
                                w1[i as int].turns@,
                            ).update(j as int, nq));
                            assert(tv.turns.update(j as int, nq_mid).update(j as int, nq)
                                =~= tv.turns.update(j as int, nq));
                            assert(w1[i as int].number == tv.number && w1[i as int].double_dot
                                == tv.double_dot);
                            assert(view_turn(turns@[i as int]) =~= (TurnV {
                                turns: tv.turns.update(j as int, nq),
                                ..tv
                            }));
                            assert(view_turns(turns@) =~= ts.update(
                                i as int,
                                TurnV { turns: tv.turns.update(j as int, nq), ..tv },
                            ));
                            assert(sp_delete_qs(ts, i as int, j as int, path@, current as nat)
                                == Some(view_turns(turns@)));
                        }
                    } else {
                        proof {
                            let new_qturn = turns@[i as int].turns@[j as int];
                            let nq = QTurnV {
                                alternatives: qtv.alternatives.update(alt - 1, sub_v),
                                ..qtv
                            };
                            assert(view_qturn(new_qturn) =~= nq);
                            assert(view_turn(turns@[i as int]) =~= (TurnV {
                                turns: tv.turns.update(j as int, nq),
                                ..tv
                            }));
                            assert(view_turns(turns@) =~= ts.update(
                                i as int,
                                TurnV { turns: tv.turns.update(j as int, nq), ..tv },
                            ));
                            assert(sp_delete_qs(ts, i as int, j as int, path@, current as nat)
                                == Some(view_turns(turns@)));
                        }
                    }
                    return Ok(());
                }
                // path names this ply itself: truncate here
                let n_alts = turns[i].turns[j].alternatives.len();
                if n_alts > 0 {
                    proof {
                        assert(qtv.alternatives[0] == view_turns(
                            turns@[i as int].turns@[j as int].alternatives@[0]@,
                        ));
                    }
                    if turns[i].turns[j].alternatives[0].len() == 0 {
                        return Err(());
                    }
                    proof {
                        let av = turns@[i as int].turns@[j as int].alternatives@[0]@;
                        assert(qtv.alternatives[0][0] == view_turn(av[0]));
                        crate::types::lemma_view_turn_parts(av[0]);
                    }
                    if turns[i].turns[j].alternatives[0][0].turns.len() == 0 {
                        return Err(());
                    }
                }
                let ghost w0 = turns@;
                let n_now = turns.len();
                proof {
                    assert(i < n_now);
                }
                turns.truncate(i + 1);
                turns[i].turns.truncate(j + 1);
                proof {
                    assert(turns@ =~= w0.take(i + 1).update(i as int, turns@[i as int]));
                    assert(turns@[i as int].turns@ =~= w0[i as int].turns@.take(j + 1));
                    assert(turns@[i as int].turns@[j as int] == w0[i as int].turns@[j as int]);
                }
                let ghost w1 = turns@;
                if n_alts > 0 {
                    let mut a0 = turns[i].turns[j].alternatives.remove(0);
                    proof {
                        assert(a0@ == w1[i as int].turns@[j as int].alternatives@[0]@);
                        assert(view_turns(a0@) =~= qtv.alternatives[0]);
                    }
                    let mut first_turn = a0.remove(0);
                    proof {
                        assert(view_turn(first_turn) == qtv.alternatives[0][0]);
                        assert(view_turns(a0@) =~= qtv.alternatives[0].skip(1));
                        crate::types::lemma_view_turn_parts(first_turn);
                    }
                    let ghost w2 = turns@;
                    let ghost f0 = first_turn;
                    let mut rest_alts: Vec<Vec<Turn>> = Vec::new();
                    core::mem::swap(&mut rest_alts, &mut turns[i].turns[j].alternatives);
                    proof {
                        assert(rest_alts@ == w2[i as int].turns@[j as int].alternatives@);
                        crate::types::lemma_view_qturn_parts(w2[i as int].turns@[j as int]);
                        assert(view_alts(rest_alts@) =~= qtv.alternatives.remove(0));
                        assert(qtv.alternatives.remove(0) =~= qtv.alternatives.skip(1));
                        assert(turns@ =~= w1.update(i as int, turns@[i as int]));
                        assert(turns@[i as int].turns@ =~= w1[i as int].turns@.update(
                            j as int,
                            turns@[i as int].turns@[j as int],
                        ));
                        crate::types::lemma_view_turn_parts(f0);
                        assert(view_qturn(f0.turns@[0]) == qtv.alternatives[0][0].turns[0]);
                    }
                    let ghost rest_pre = rest_alts@;
                    // the promoted move keeps its own alternatives, followed
                    // by the slot's remaining ones
                    first_turn.turns[0].alternatives.append(&mut rest_alts);
                    proof {
                        assert(first_turn.turns@[0].alternatives@ =~= f0.turns@[0].alternatives@
                            + rest_pre);
                        assert(first_turn.turns@ =~= f0.turns@.update(0, first_turn.turns@[0]));
                        lemma_view_alts_concat(f0.turns@[0].alternatives@, rest_pre);
                        crate::types::lemma_view_qturn_parts(first_turn.turns@[0]);
                        crate::types::lemma_view_qturn_parts(f0.turns@[0]);
                        assert(view_alts(first_turn.turns@[0].alternatives@) =~= view_alts(
                            f0.turns@[0].alternatives@,
                        ) + view_alts(rest_pre));
                        assert(view_qturn(first_turn.turns@[0]) =~= (QTurnV {
                            alternatives: qtv.alternatives[0][0].turns[0].alternatives
                                + qtv.alternatives.skip(1),
                            ..qtv.alternatives[0][0].turns[0]
                        }));
                        crate::types::lemma_view_turn_parts(first_turn);
                        assert(view_qturns(first_turn.turns@) =~= qtv.alternatives[0][0].turns.update(
                            0,
                            view_qturn(first_turn.turns@[0]),
                        ));
                    }
                    let ghost w3 = turns@;
                    let ghost ft = first_turn;
                    let ghost a0_pre = a0@;
                    turns[i].turns.pop();
                    turns[i].turns.append(&mut first_turn.turns);
                    turns.append(&mut a0);
                    proof {
                        let pq = QTurnV {
                            alternatives: qtv.alternatives[0][0].turns[0].alternatives
                                + qtv.alternatives.skip(1),
                            ..qtv.alternatives[0][0].turns[0]
                        };
                        let merged = TurnV {
                            turns: tv.turns.take(j as int) + (seq![pq] + qtv.alternatives[0][0].turns.skip(
                                1,
                            )),
                            ..tv
                        };
                        assert(turns@[i as int].turns@ =~= w3[i as int].turns@.take(j as int)
                            + ft.turns@);
                        assert forall|k: int| 0 <= k < j implies view_qturn(
                            #[trigger] w3[i as int].turns@[k],
                        ) == tv.turns[k] by {
                            assert(w3[i as int].turns@[k] == w0[i as int].turns@[k]);
                        }
                        assert forall|k: int| 1 <= k < ft.turns@.len() implies view_qturn(
                            #[trigger] ft.turns@[k],
                        ) == qtv.alternatives[0][0].turns[k] by {
                            assert(ft.turns@[k] == f0.turns@[k]);
                        }
                        assert(view_qturn(ft.turns@[0]) == pq);
                        crate::types::lemma_view_turn_parts(turns@[i as int]);
                        assert(view_qturns(turns@[i as int].turns@) =~= tv.turns.take(j as int) + (
                        seq![pq] + qtv.alternatives[0][0].turns.skip(1)));
                        assert(turns@[i as int].number == tv.number && turns@[i as int].double_dot
                            == tv.double_dot);
                        assert(view_turn(turns@[i as int]) =~= merged);
                        assert(turns@ =~= w3.update(i as int, turns@[i as int]) + a0_pre);
                        assert forall|k: int| 0 <= k < i implies view_turn(#[trigger] turns@[k])
                            == ts[k] by {
                            assert(turns@[k] == w0[k]);
                        }
                        assert forall|k: int| i + 1 <= k < turns@.len() implies view_turn(
                            #[trigger] turns@[k],
                        ) == qtv.alternatives[0][k - i] by {
                            assert(turns@[k] == a0_pre[k - i - 1]);
                        }
                        assert(view_turns(turns@) =~= ts.take(i as int) + seq![merged]
                            + qtv.alternatives[0].skip(1));
                        assert(sp_delete_qs(ts, i as int, j as int, path@, current as nat) == Some(
                            view_turns(turns@),
                        ));
                    }
                    return Ok(());
                } else {
                    turns[i].turns.pop();
                    proof {
                        assert(turns@[i as int].turns@ =~= w1[i as int].turns@.take(j as int));
                        assert(turns@ =~= w1.update(i as int, turns@[i as int]));
                    }
                    if turns[i].turns.len() == 0 {
                        let ghost w2 = turns@;
                        turns.pop();
                        proof {
                            assert(j == 0);
                            assert(turns@ =~= w2.take(i as int));
                            assert forall|k: int| 0 <= k < i implies view_turn(
                                #[trigger] turns@[k],
                            ) == ts[k] by {
                                assert(turns@[k] == w0[k]);
                            }
                            assert(view_turns(turns@) =~= ts.take(i as int));
                            assert(sp_delete_qs(ts, i as int, j as int, path@, current as nat)
                                == Some(view_turns(turns@)));
                        }
                        return Ok(());
                    }
                    proof {
                        assert forall|k: int| 0 <= k < i implies view_turn(#[trigger] turns@[k])
                            == ts[k] by {
                            assert(turns@[k] == w0[k]);
                        }
                        assert forall|k: int| 0 <= k < j implies view_qturn(
                            #[trigger] turns@[i as int].turns@[k],
                        ) == tv.turns[k] by {
                            assert(turns@[i as int].turns@[k] == w0[i as int].turns@[k]);
                        }
                        crate::types::lemma_view_turn_parts(turns@[i as int]);
                        assert(view_qturns(turns@[i as int].turns@) =~= tv.turns.take(j as int));
                        assert(view_turn(turns@[i as int]) =~= (TurnV {
                            turns: tv.turns.take(j as int),
                            ..tv
                        }));
                        assert(view_turns(turns@) =~= ts.take(i as int) + seq![
                            TurnV { turns: tv.turns.take(j as int), ..tv },
                        ]);
                        assert(sp_delete_qs(ts, i as int, j as int, path@, current as nat) == Some(
                            view_turns(turns@),
                        ));
                    }
                    return Ok(());
                }
            }
            if current == usize::MAX {
                return Err(());
            }
            current += 1;
            j += 1;
        }
        i += 1;
        proof {
            assert(sp_delete(ts, path@) == sp_delete_turns(ts, i as int, path@, current as nat));
        }
    }
    Err(())
}

impl PGN4 {
    /// Truncate the line at the addressed ply. If the removed quarter-turn
    /// had alternatives, its first alternative continues the line in its
    /// place; otherwise the quarter-turn goes, and its turn too when now
    /// empty. An even-length path or a zero ply fails and leaves the
    /// document unchanged.
    pub fn delete_from(&mut self, path: &[usize]) -> (r: Result<(), ()>)
        ensures
            match r {
                Ok(_) => sp_delete_move(view_pgn(*old(self)), path@) == Some(view_pgn(*final(self))),
                Err(_) => sp_delete_move(view_pgn(*old(self)), path@) is None && view_pgn(
                    *final(self),
                ) == view_pgn(*old(self)),
            },
    {
        let ghost pv = view_pgn(*self);
        if path.len() % 2 == 0 {
            return Err(());
        }
        let r = delete_helper(&mut self.turns, path);
        proof {
            match r {
                Ok(_) => {
                    assert(view_pgn(*self) =~= Pgn4V { turns: view_turns(self.turns@), ..pv });
                },
                Err(_) => {
                    assert(view_pgn(*self) =~= pv);
                },
            }
        }
        r
    }
}

} // verus!
