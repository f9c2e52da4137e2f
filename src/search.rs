//! Breadth-first search for a shortest sequence of slides to a won board.

use vstd::prelude::*;
use crate::board::{Board, BoardView, Move, lemma_moves_exact, lemma_play_undo};

verus! {

/// Each move in turn is legal on the board reached so far.
pub open spec fn valid_path(b: BoardView, ms: Seq<Move>) -> bool
    decreases ms.len(),
{
    ms.len() == 0 || (b.legal(ms[0]) && valid_path(b.play(ms[0]), ms.drop_first()))
}

/// The board reached by playing the moves in turn.
pub open spec fn path_end(b: BoardView, ms: Seq<Move>) -> BoardView
    decreases ms.len(),
{
    if ms.len() == 0 {
        b
    } else {
        path_end(b.play(ms[0]), ms.drop_first())
    }
}

/// The moves lead from `start` to a won board other than `start`, and no
/// fewer legal moves lead from `start` to any such board.
pub open spec fn shortest_win(start: BoardView, ms: Seq<Move>) -> bool {
    &&& valid_path(start, ms)
    &&& path_end(start, ms).won()
    &&& path_end(start, ms) != start
    &&& forall|other: Seq<Move>|
        valid_path(start, other) && other.len() < ms.len() && #[trigger] path_end(start, other).won()
            ==> path_end(start, other) == start
}

/// Two shortest ways to win from the same board have the same length.
pub proof fn lemma_shortest_unique(start: BoardView, a: Seq<Move>, b: Seq<Move>)
    requires
        shortest_win(start, a),
        shortest_win(start, b),
    ensures
        a.len() == b.len(),
{
    if a.len() < b.len() {
        assert(path_end(start, a).won());
    } else if b.len() < a.len() {
        assert(path_end(start, b).won());
    }
}

/// Extending a path by one move.
pub proof fn lemma_path_push(b: BoardView, ms: Seq<Move>, m: Move)
    ensures
        valid_path(b, ms.push(m)) == (valid_path(b, ms) && path_end(b, ms).legal(m)),
        path_end(b, ms.push(m)) == path_end(b, ms).play(m),
    decreases ms.len(),
{
    if ms.len() > 0 {
        lemma_path_push(b.play(ms[0]), ms.drop_first(), m);
        assert(ms.push(m).drop_first() =~= ms.drop_first().push(m));
        assert(ms.push(m)[0] == ms[0]);
    } else {
        assert(ms.push(m).drop_first() =~= Seq::<Move>::empty());
        assert(ms.push(m)[0] == m);
        assert(valid_path(b.play(m), Seq::<Move>::empty()));
        assert(path_end(b.play(m), Seq::<Move>::empty()) == b.play(m));
    }
}

/// What a successful search returns: the won board, the number of slides
/// that reach it, and those slides in order from the start.
pub struct Solution {
    pub board: Board,
    pub plies: u32,
    pub moves: Vec<Move>,
}

/// A visited table: each board found, with the move that first produced it
/// (none for the start board).
pub type Table = Vec<(Board, Option<Move>)>;

/// The table is rooted at `start`, its boards are distinct and well formed,
/// and each later entry is one legal move from an earlier one: entry `k` was
/// found at ply `lv[k]` from entry `pred[k]`.
#[verifier::opaque]
pub open spec fn table_ok(t: Seq<(Board, Option<Move>)>, start: BoardView, lv: Seq<int>, pred: Seq<int>) -> bool {
    &&& t.len() >= 1
    &&& lv.len() == t.len()
    &&& pred.len() == t.len()
    &&& t[0].0@ == start
    &&& t[0].1.is_none()
    &&& lv[0] == 0
    &&& forall|k: int| 0 <= k < t.len() ==> (#[trigger] t[k]).0.wf()
    &&& forall|a: int, b: int| 0 <= a < b < t.len() ==> (#[trigger] t[a]).0@ != (#[trigger] t[b]).0@
    &&& forall|k: int|
        1 <= k < t.len() ==> {
            &&& (#[trigger] t[k]).1.is_some()
            &&& 0 <= pred[k] < k
            &&& lv[k] == lv[pred[k]] + 1
            &&& t[pred[k]].0@.legal(t[k].1.unwrap())
            &&& t[pred[k]].0@.play(t[k].1.unwrap()) == t[k].0@
        }
}

/// What the table says of one entry.
pub proof fn lemma_entry(t: Seq<(Board, Option<Move>)>, start: BoardView, lv: Seq<int>, pred: Seq<int>, k: int)
    requires
        table_ok(t, start, lv, pred),
    ensures
        t.len() >= 1,
        lv.len() == t.len(),
        pred.len() == t.len(),
        t[0].0@ == start,
        t[0].1.is_none(),
        lv[0] == 0,
        0 <= k < t.len() ==> t[k].0.wf(),
        1 <= k < t.len() ==> {
            &&& t[k].1.is_some()
            &&& 0 <= pred[k] < k
            &&& lv[k] == lv[pred[k]] + 1
            &&& t[pred[k]].0@.legal(t[k].1.unwrap())
            &&& t[pred[k]].0@.play(t[k].1.unwrap()) == t[k].0@
        },
        0 <= k < t.len() ==> forall|a: int| 0 <= a < t.len() && a != k ==> (#[trigger] t[a]).0@ != t[k].0@,
{
    reveal(table_ok);
    assert forall|a: int| 0 <= k < t.len() && 0 <= a < t.len() && a != k implies (#[trigger] t[a]).0@ != t[k].0@ by {
        if a < k {
            assert(t[a].0@ != t[k].0@);
        } else {
            assert(t[k].0@ != t[a].0@);
        }
    }
}

/// Some entry found by ply `n` holds the board.
pub open spec fn found(t: Seq<(Board, Option<Move>)>, lv: Seq<int>, b: BoardView, n: int) -> bool {
    exists|k: int| 0 <= k < t.len() && lv[k] <= n && #[trigger] t[k].0@ == b
}

/// Every board one legal move from entry `k` was found by the ply after it.
pub open spec fn closed(t: Seq<(Board, Option<Move>)>, lv: Seq<int>, k: int) -> bool {
    forall|m: Move| #[trigger] t[k].0@.legal(m) ==> found(t, lv, t[k].0@.play(m), lv[k] + 1)
}

/// The search has expanded every ply before `n`: `cur` lists exactly the
/// entries found at ply `n`, and every entry of an earlier ply is closed.
pub open spec fn level_ok(t: Seq<(Board, Option<Move>)>, lv: Seq<int>, cur: Seq<usize>, n: int) -> bool {
    &&& forall|k: int| 0 <= k < t.len() ==> 0 <= #[trigger] lv[k] <= n
    &&& forall|j: int| 0 <= j < cur.len() ==> (#[trigger] cur[j]) < t.len() && lv[cur[j] as int] == n
    &&& forall|k: int| 0 <= k < t.len() && #[trigger] lv[k] == n ==> cur.contains(k as usize)
    &&& forall|k: int| 0 <= k < t.len() && #[trigger] lv[k] < n ==> closed(t, lv, k)
}

/// No entry found at a ply from 1 to `n` is won.
pub open spec fn unwon(t: Seq<(Board, Option<Move>)>, lv: Seq<int>, n: int) -> bool {
    forall|k: int| 0 <= k < t.len() && 1 <= #[trigger] lv[k] <= n ==> !t[k].0@.won()
}

/// A table that only grew still holds what it held.
pub proof fn lemma_found_grow(
    t: Seq<(Board, Option<Move>)>,
    lv: Seq<int>,
    t2: Seq<(Board, Option<Move>)>,
    lv2: Seq<int>,
    b: BoardView,
    n: int,
)
    requires
        t.len() <= t2.len(),
        lv.len() == t.len(),
        lv2.len() == t2.len(),
        forall|k: int| 0 <= k < t.len() ==> t2[k] == t[k] && lv2[k] == lv[k],
        found(t, lv, b, n),
    ensures
        found(t2, lv2, b, n),
{
    let k = choose|k: int| 0 <= k < t.len() && lv[k] <= n && #[trigger] t[k].0@ == b;
    assert(t2[k].0@ == b);
}

/// The index of the entry holding a board with the same state, if any.
fn lookup(table: &Table, b: &Board) -> (r: Option<usize>)
    ensures
        match r {
            Some(k) => k < table@.len() && table@[k as int].0@ == b@,
            None => forall|k: int| 0 <= k < table@.len() ==> (#[trigger] table@[k]).0@ != b@,
        },
{
    let mut i: usize = 0;
    while i < table.len()
        invariant
            i <= table@.len(),
            forall|k: int| 0 <= k < i ==> (#[trigger] table@[k]).0@ != b@,
        decreases table.len() - i,
    {
        if table[i].0.same_state(b) {
            return Some(i);
        }
        i = i + 1;
    }
    None
}

/// A table that only grew still closes what it closed.
pub proof fn lemma_grow(
    t: Seq<(Board, Option<Move>)>,
    lv: Seq<int>,
    t2: Seq<(Board, Option<Move>)>,
    lv2: Seq<int>,
)
    requires
        t.len() <= t2.len(),
        lv.len() == t.len(),
        lv2.len() == t2.len(),
        forall|k: int| 0 <= k < t.len() ==> t2[k] == t[k] && lv2[k] == lv[k],
    ensures
        forall|b: BoardView, n: int| #[trigger] found(t, lv, b, n) ==> found(t2, lv2, b, n),
        forall|k: int| 0 <= k < t.len() && #[trigger] closed(t, lv, k) ==> closed(t2, lv2, k),
{
    assert forall|b: BoardView, n: int| #[trigger] found(t, lv, b, n) implies found(t2, lv2, b, n) by {
        lemma_found_grow(t, lv, t2, lv2, b, n);
    }
    assert forall|k: int| 0 <= k < t.len() && #[trigger] closed(t, lv, k) implies closed(t2, lv2, k) by {
        assert forall|m: Move| #[trigger] t2[k].0@.legal(m) implies found(
            t2,
            lv2,
            t2[k].0@.play(m),
            lv2[k] + 1,
        ) by {
            assert(t[k].0@.legal(m));
            lemma_found_grow(t, lv, t2, lv2, t[k].0@.play(m), lv[k] + 1);
        }
    }
}

/// Only the start board is found at ply 0.
pub proof fn lemma_level_zero(t: Seq<(Board, Option<Move>)>, start: BoardView, lv: Seq<int>, pred: Seq<int>, k: int)
    requires
        table_ok(t, start, lv, pred),
        forall|j: int| 0 <= j < t.len() ==> 0 <= #[trigger] lv[j],
        0 <= k < t.len(),
        lv[k] == 0,
    ensures
        k == 0,
{
    lemma_entry(t, start, lv, pred, k);
    if k > 0 {
        assert(lv[pred[k]] >= 0);
    }
}

/// The end of every path of `n` legal moves from the start was found by ply
/// `n`, when the entries of the plies before `n` are closed.
pub proof fn lemma_reach(t: Seq<(Board, Option<Move>)>, start: BoardView, lv: Seq<int>, pred: Seq<int>, ms: Seq<Move>)
    requires
        table_ok(t, start, lv, pred),
        valid_path(start, ms),
        forall|k: int| 0 <= k < t.len() && #[trigger] lv[k] < ms.len() ==> closed(t, lv, k),
    ensures
        found(t, lv, path_end(start, ms), ms.len() as int),
    decreases ms.len(),
{
    lemma_entry(t, start, lv, pred, 0);
    if ms.len() == 0 {
        assert(t[0].0@ == path_end(start, ms));
    } else {
        let init = ms.drop_last();
        let m = ms.last();
        assert(init.push(m) =~= ms);
        lemma_path_push(start, init, m);
        lemma_reach(t, start, lv, pred, init);
        let k = choose|k: int| 0 <= k < t.len() && lv[k] <= init.len() && #[trigger] t[k].0@ == path_end(start, init);
        assert(closed(t, lv, k));
        assert(t[k].0@.legal(m));
        let k2 = choose|k2: int| 0 <= k2 < t.len() && lv[k2] <= lv[k] + 1 && #[trigger] t[k2].0@ == t[k].0@.play(m);
        assert(t[k2].0@ == path_end(start, ms));
    }
}

/// Appends to the table every board one legal move from an entry of `cur`
/// (the entries of ply `n`) that is not in it yet, entry by entry and move
/// by move, and returns the indices of the entries it appended: ply `n + 1`.
fn expand(
    table: &mut Table,
    cur: &Vec<usize>,
    n: u32,
    Ghost(start): Ghost<BoardView>,
    Ghost(lv): Ghost<Seq<int>>,
    Ghost(pred): Ghost<Seq<int>>,
) -> (r: (Vec<usize>, Ghost<Seq<int>>, Ghost<Seq<int>>))
    requires
        table_ok(old(table)@, start, lv, pred),
        level_ok(old(table)@, lv, cur@, n as int),
    ensures
        table_ok(final(table)@, start, r.1@, r.2@),
        level_ok(final(table)@, r.1@, r.0@, n + 1),
        final(table)@.len() >= old(table)@.len(),
        forall|k: int| 0 <= k < old(table)@.len() ==> final(table)@[k] == old(table)@[k] && r.1@[k] == lv[k],
        forall|k: int| old(table)@.len() <= k < final(table)@.len() ==> r.1@[k] == n + 1,
{
    let ghost t0 = table@;
    let ghost mut lv2 = lv;
    let ghost mut pred2 = pred;
    let mut next: Vec<usize> = Vec::new();
    let mut ci: usize = 0;
    while ci < cur.len()
        invariant
            table_ok(table@, start, lv2, pred2),
            level_ok(t0, lv, cur@, n as int),
            ci <= cur@.len(),
            table@.len() >= t0.len(),
            forall|k: int| 0 <= k < t0.len() ==> table@[k] == t0[k] && lv2[k] == lv[k],
            forall|k: int| t0.len() <= k < table@.len() ==> lv2[k] == n + 1,
            next@.len() == table@.len() - t0.len(),
            forall|j: int| 0 <= j < next@.len() ==> #[trigger] next@[j] == t0.len() + j,
            forall|j: int| 0 <= j < ci ==> closed(table@, lv2, #[trigger] cur@[j] as int),
            forall|k: int| 0 <= k < t0.len() && #[trigger] lv[k] < n ==> closed(table@, lv2, k),
        decreases cur.len() - ci,
    {
        let s = cur[ci];
        proof {
            lemma_entry(table@, start, lv2, pred2, s as int);
        }
        let moves = table[s].0.all_moves();
        let ghost b = table@[s as int].0@;
        let mut mi: usize = 0;
        while mi < moves.len()
            invariant
                table_ok(table@, start, lv2, pred2),
                level_ok(t0, lv, cur@, n as int),
                ci < cur@.len(),
                s == cur@[ci as int],
                s < t0.len(),
                lv[s as int] == n,
                b == table@[s as int].0@,
                moves@ == b.moves(),
                mi <= moves@.len(),
                table@.len() >= t0.len(),
                forall|k: int| 0 <= k < t0.len() ==> table@[k] == t0[k] && lv2[k] == lv[k],
                forall|k: int| t0.len() <= k < table@.len() ==> lv2[k] == n + 1,
                next@.len() == table@.len() - t0.len(),
                forall|j: int| 0 <= j < next@.len() ==> #[trigger] next@[j] == t0.len() + j,
                forall|j: int| 0 <= j < ci ==> closed(table@, lv2, #[trigger] cur@[j] as int),
                forall|k: int| 0 <= k < t0.len() && #[trigger] lv[k] < n ==> closed(table@, lv2, k),
                forall|j: int| 0 <= j < mi ==> found(table@, lv2, b.play(#[trigger] moves@[j]), n + 1),
            decreases moves.len() - mi,
        {
            let m = moves[mi];
            proof {
                lemma_entry(table@, start, lv2, pred2, s as int);
                assert(moves@.contains(m));
                lemma_moves_exact(b, m);
            }
            let nb = table[s].0.play(&m);
            match lookup(table, &nb) {
                Some(k) => {
                    proof {
                        assert(lv2[k as int] <= n + 1);
                        assert(table@[k as int].0@ == b.play(m));
                    }
                },
                None => {
                    let ghost t1 = table@;
                    let ghost l1 = lv2;
                    let ghost n1 = next@;
                    let idx = table.len();
                    table.push((nb, Some(m)));
                    next.push(idx);
                    proof {
                        reveal(table_ok);
                        lv2 = lv2.push(n + 1);
                        pred2 = pred2.push(s as int);
                        lemma_grow(t1, l1, table@, lv2);
                        assert(table@[idx as int].0@ == b.play(m));
                        assert(found(table@, lv2, b.play(m), n + 1));
                        assert forall|j: int| 0 <= j < next@.len() implies #[trigger] next@[j] == t0.len() + j by {
                            if j < next@.len() - 1 {
                                assert(next@[j] == n1[j]);
                            }
                        }
                    }
                },
            }
            mi = mi + 1;
        }
        proof {
            assert forall|m: Move| #[trigger] table@[s as int].0@.legal(m) implies found(
                table@,
                lv2,
                table@[s as int].0@.play(m),
                lv2[s as int] + 1,
            ) by {
                lemma_moves_exact(b, m);
                let j = choose|j: int| 0 <= j < moves@.len() && moves@[j] == m;
            }
        }
        ci = ci + 1;
    }
    // Table indices fit in usize.
    let len = table.len();
    proof {
        assert forall|k: int| 0 <= k < table@.len() && #[trigger] lv2[k] < n + 1 implies closed(table@, lv2, k) by {
            assert(k < t0.len());
            assert(lv2[k] == lv[k]);
            if lv[k] == n {
                assert(cur@.contains(k as usize));
                let j = choose|j: int| 0 <= j < cur@.len() && cur@[j] == k as usize;
                assert(closed(table@, lv2, cur@[j] as int));
                assert(cur@[j] as int == k);
            } else {
                assert(lv[k] < n);
                assert(closed(table@, lv2, k));
            }
        }
        assert forall|k: int| 0 <= k < table@.len() && #[trigger] lv2[k] == n + 1 implies next@.contains(k as usize) by {
            assert(next@[k - t0.len()] == k);
        }
    }
    (next, Ghost(lv2), Ghost(pred2))
}

/// When every ply up to `n` has been expanded and checked, no path of at
/// most `bound` moves from the start ends on a won board other than the start.
pub proof fn lemma_no_shorter_win(
    t: Seq<(Board, Option<Move>)>,
    start: BoardView,
    lv: Seq<int>,
    pred: Seq<int>,
    n: int,
    bound: int,
)
    requires
        table_ok(t, start, lv, pred),
        forall|k: int| 0 <= k < t.len() ==> 0 <= #[trigger] lv[k],
        bound <= n || forall|k: int| 0 <= k < t.len() ==> #[trigger] lv[k] <= n,
        forall|k: int| 0 <= k < t.len() && #[trigger] lv[k] < bound ==> closed(t, lv, k),
        unwon(t, lv, n),
    ensures
        forall|ms: Seq<Move>|
            valid_path(start, ms) && ms.len() <= bound && #[trigger] path_end(start, ms).won()
                ==> path_end(start, ms) == start,
{
    assert forall|ms: Seq<Move>|
        valid_path(start, ms) && ms.len() <= bound && #[trigger] path_end(start, ms).won()
            implies path_end(start, ms) == start by {
        lemma_reach(t, start, lv, pred, ms);
        let k = choose|k: int| 0 <= k < t.len() && lv[k] <= ms.len() && #[trigger] t[k].0@ == path_end(start, ms);
        if lv[k] >= 1 {
            assert(lv[k] <= n);
            assert(!t[k].0@.won());
        }
        lemma_level_zero(t, start, lv, pred, k);
        lemma_entry(t, start, lv, pred, 0);
    }
}

/// Prepending the move that leads to a board to a path from that board.
pub proof fn lemma_path_prepend(b: BoardView, m: Move, rest: Seq<Move>)
    requires
        b.legal(m),
        valid_path(b.play(m), rest),
    ensures
        valid_path(b, seq![m] + rest),
        path_end(b, seq![m] + rest) == path_end(b.play(m), rest),
{
    assert((seq![m] + rest).drop_first() =~= rest);
    assert((seq![m] + rest)[0] == m);
}

/// The moves from the start board to entry `idx`: walks back from the entry,
/// undoing the move recorded for each board and looking the previous board
/// up, until it reaches the start; then puts the moves in forward order.
fn path_to(
    table: &Table,
    idx: usize,
    Ghost(start): Ghost<BoardView>,
    Ghost(lv): Ghost<Seq<int>>,
    Ghost(pred): Ghost<Seq<int>>,
) -> (r: Vec<Move>)
    requires
        table_ok(table@, start, lv, pred),
        idx < table@.len(),
    ensures
        r@.len() == lv[idx as int],
        valid_path(start, r@),
        path_end(start, r@) == table@[idx as int].0@,
{
    let ghost target = table@[idx as int].0@;
    let mut back: Vec<Move> = Vec::new();
    let mut j: usize = idx;
    loop
        invariant
            table_ok(table@, start, lv, pred),
            j < table@.len(),
            target == table@[idx as int].0@,
            back@.len() + lv[j as int] == lv[idx as int],
            valid_path(table@[j as int].0@, back@.reverse()),
            path_end(table@[j as int].0@, back@.reverse()) == target,
        ensures
            j == 0,
            back@.len() + lv[0] == lv[idx as int],
            valid_path(table@[0].0@, back@.reverse()),
            path_end(table@[0].0@, back@.reverse()) == target,
        decreases j,
    {
        proof {
            lemma_entry(table@, start, lv, pred, j as int);
        }
        match table[j].1 {
            None => {
                break;
            },
            Some(m) => {
                let ghost p = pred[j as int];
                let ghost pb = table@[p].0@;
                proof {
                    lemma_entry(table@, start, lv, pred, p);
                    lemma_play_undo(pb, m);
                }
                let prev = table[j].0.undo(&m);
                let ghost rest = back@.reverse();
                back.push(m);
                proof {
                    assert(back@.reverse() =~= seq![m] + rest);
                    lemma_path_prepend(pb, m, rest);
                }
                match lookup(table, &prev) {
                    Some(k) => {
                        proof {
                            lemma_entry(table@, start, lv, pred, p);
                        }
                        j = k;
                    },
                    None => {
                        proof {
                            assert(0 <= p < table@.len());
                            assert(table@[p].0@ == prev@);
                            assert(false);
                        }
                        break;
                    },
                }
            },
        }
    }
    proof {
        lemma_entry(table@, start, lv, pred, 0);
        assert(back@.reverse().len() == back@.len());
    }
    let mut r: Vec<Move> = Vec::new();
    let mut i: usize = back.len();
    while i > 0
        invariant
            i <= back@.len(),
            r@ =~= back@.reverse().take(back@.len() - i),
        decreases i,
    {
        i = i - 1;
        r.push(back[i]);
    }
    proof {
        assert(back@.reverse().take(back@.len() as int) =~= back@.reverse());
    }
    r
}

/// Breadth-first search for a shortest way to win from `start`, over at most
/// `max_plies` plies. A ply is one slide of one piece by any number of tiles.
///
/// Ply by ply, every board one slide from the boards found at the last ply
/// that is not in the visited table yet is added to it, with the slide that
/// produced it; the boards of the new ply are then checked in the order they
/// were found, and the first won one ends the search. The moves are recovered
/// by walking back through the table.
///
/// The start board itself is never checked: a start board that is already
/// won is reported only if it is reached again. The search gives up, with
/// `None`, after `max_plies` plies, or as soon as a ply finds no new board:
/// every board that can be reached has then been seen, and none is won.
pub fn solve(start: Board, max_plies: u32) -> (r: Option<Solution>)
    requires
        start.wf(),
    ensures
        match r {
            Some(s) => {
                &&& s.board.wf()
                &&& s.board@.won()
                &&& 1 <= s.plies <= max_plies
                &&& s.moves@.len() == s.plies
                &&& path_end(start@, s.moves@) == s.board@
                &&& shortest_win(start@, s.moves@)
            },
            None => forall|ms: Seq<Move>|
                valid_path(start@, ms) && ms.len() <= max_plies && #[trigger] path_end(start@, ms).won()
                    ==> path_end(start@, ms) == start@,
        },
{
    let ghost s0 = start@;
    let mut table: Table = Vec::new();
    table.push((start, None));
    let ghost mut lv: Seq<int> = seq![0int];
    let ghost mut pred: Seq<int> = seq![0int];
    let mut cur: Vec<usize> = Vec::new();
    cur.push(0);
    let mut plies: u32 = 0;
    proof {
        reveal(table_ok);
        assert forall|k: int| 0 <= k < table@.len() && #[trigger] lv[k] == 0 implies cur@.contains(k as usize) by {
            assert(cur@[0] == 0);
        }
    }
    loop
        invariant
            s0 == start@,
            table_ok(table@, s0, lv, pred),
            level_ok(table@, lv, cur@, plies as int),
            unwon(table@, lv, plies as int),
            plies <= max_plies,
        decreases max_plies - plies,
    {
        // Table indices fit in usize.
        let tl = table.len();
        if plies == max_plies || cur.len() == 0 {
            proof {
                if cur.len() == 0 {
                    assert forall|k: int| 0 <= k < table@.len() implies #[trigger] lv[k] < plies by {
                        if lv[k] == plies {
                            assert(cur@.contains(k as usize));
                        }
                    }
                    assert forall|k: int| 0 <= k < table@.len() && #[trigger] lv[k] < max_plies implies closed(
                        table@,
                        lv,
                        k,
                    ) by {
                        assert(lv[k] < plies);
                    }
                }
                lemma_no_shorter_win(table@, s0, lv, pred, plies as int, max_plies as int);
            }
            return None;
        }
        let ghost t_before = table@;
        let (next, Ghost(lv2), Ghost(pred2)) = expand(&mut table, &cur, plies, Ghost(s0), Ghost(lv), Ghost(pred));
        proof {
            assert forall|k: int| 0 <= k < table@.len() && 1 <= #[trigger] lv2[k] <= plies implies !table@[k].0@.won() by {
                if k < t_before.len() {
                    assert(lv2[k] == lv[k]);
                    assert(table@[k] == t_before[k]);
                }
            }
            lv = lv2;
            pred = pred2;
        }
        plies = plies + 1;
        let mut j: usize = 0;
        while j < next.len()
            invariant
                s0 == start@,
                table_ok(table@, s0, lv, pred),
                level_ok(table@, lv, next@, plies as int),
                unwon(table@, lv, plies - 1),
                1 <= plies <= max_plies,
                j <= next@.len(),
                forall|i: int| 0 <= i < j ==> !table@[#[trigger] next@[i] as int].0@.won(),
            decreases next.len() - j,
        {
            let s = next[j];
            proof {
                lemma_entry(table@, s0, lv, pred, s as int);
            }
            if table[s].0.is_won {
                let moves = path_to(&table, s, Ghost(s0), Ghost(lv), Ghost(pred));
                proof {
                    lemma_no_shorter_win(table@, s0, lv, pred, plies - 1, plies - 1);
                    lemma_entry(table@, s0, lv, pred, s as int);
                    assert(table@[0].0@ != table@[s as int].0@);
                }
                let (board, _) = table.swap_remove(s);
                return Some(Solution { board, plies, moves });
            }
            j = j + 1;
        }
        // Table indices fit in usize.
        let tl = table.len();
        proof {
            assert forall|k: int| 0 <= k < table@.len() && 1 <= #[trigger] lv[k] <= plies implies !table@[k].0@.won() by {
                if lv[k] == plies {
                    assert(next@.contains(k as usize));
                    let i = choose|i: int| 0 <= i < next@.len() && next@[i] == k as usize;
                    assert(!table@[next@[i] as int].0@.won());
                }
            }
        }
        cur = next;
    }
}

} // verus!
