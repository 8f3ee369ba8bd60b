use vstd::prelude::*;
use vstd::arithmetic::div_mod::lemma_div_multiples_vanish_fancy;

use crate::game::{click_step, state_wf, PuzzleState};
use crate::order::{
    after_move, blank_id, blank_layer, blank_pos, count_smaller, holds_id, inversions, is_goal,
    is_legal_move, is_solvable, is_tile_permutation, lemma_blank_pos, lemma_covers_range,
    lemma_move_keeps_permutation, lemma_move_keeps_solvability,
};

verus! {

/// The state reached from `g` by clicking the squares of `clicks` in turn.
pub open spec fn run_clicks(g: PuzzleState, clicks: Seq<int>) -> PuzzleState
    decreases clicks.len(),
{
    if clicks.len() == 0 {
        g
    } else {
        run_clicks(click_step(g, clicks[0]), clicks.drop_first())
    }
}

/// Every click of `clicks`, from `g` on, is a legal move on an unsolved board.
pub open spec fn all_moves_made(g: PuzzleState, clicks: Seq<int>) -> bool
    decreases clicks.len(),
{
    clicks.len() == 0 || {
        &&& !g.solved
        &&& is_legal_move(g.tiles, g.width, clicks[0])
        &&& all_moves_made(click_step(g, clicks[0]), clicks.drop_first())
    }
}

/// On every board the engine holds, each identity of `1..=N` stands on
/// exactly one square.
pub proof fn lemma_board_holds_each_id_once(g: PuzzleState)
    requires
        state_wf(g),
    ensures
        forall|k: int| 1 <= k <= g.tiles.len() <==> #[trigger] holds_id(g.tiles, k),
        g.tiles.no_duplicates(),
{
    lemma_covers_range(g.tiles);
}

/// A click, legal or not, leaves a state the engine can be in, with the same
/// identities on the board.
pub proof fn lemma_click_keeps_state(g: PuzzleState, i: int)
    requires
        state_wf(g),
    ensures
        state_wf(click_step(g, i)),
        click_step(g, i).tiles.to_multiset() == g.tiles.to_multiset(),
        click_step(g, i).width == g.width,
        click_step(g, i).height == g.height,
{
    if !g.solved && is_legal_move(g.tiles, g.width, i) {
        lemma_blank_pos(g.tiles);
        lemma_move_keeps_permutation(g.tiles, g.width, i);
        let b = blank_pos(g.tiles);
        let t = after_move(g.tiles, i);
        let m = g.tiles.to_multiset();
        let s1 = g.tiles.update(b, g.tiles[i]);
        vstd::seq_lib::to_multiset_update(g.tiles, b, g.tiles[i]);
        vstd::seq_lib::to_multiset_update(s1, i, g.tiles[b]);
        assert(s1.update(i, g.tiles[b]) == t);
        g.tiles.to_multiset_ensures();
        assert(m.count(g.tiles[b]) > 0);
        assert(m.count(g.tiles[i]) > 0);
        assert(t.to_multiset() =~= m) by {
            broadcast use vstd::multiset::group_multiset_axioms;
        }
    }
}

/// Clicks never change whether the board can be solved.
pub proof fn lemma_clicks_keep_solvability(g: PuzzleState, clicks: Seq<int>)
    requires
        state_wf(g),
    ensures
        state_wf(run_clicks(g, clicks)),
        run_clicks(g, clicks).width == g.width,
        run_clicks(g, clicks).height == g.height,
        is_solvable(run_clicks(g, clicks).tiles, g.width, g.height) == is_solvable(
            g.tiles,
            g.width,
            g.height,
        ),
    decreases clicks.len(),
{
    if clicks.len() > 0 {
        let i = clicks[0];
        lemma_click_keeps_state(g, i);
        if !g.solved && is_legal_move(g.tiles, g.width, i) {
            lemma_move_keeps_solvability(g.tiles, g.width, g.height, i);
        }
        lemma_clicks_keep_solvability(click_step(g, i), clicks.drop_first());
    }
}

/// The goal arrangement is solvable.
pub proof fn lemma_goal_is_solvable(s: Seq<u8>, width: int, height: int)
    requires
        is_goal(s),
        width >= 1,
        height >= 1,
        s.len() == width * height,
    ensures
        is_solvable(s, width, height),
{
    let n = s.len() as int;
    assert(n >= 1) by (nonlinear_arith)
        requires
            n == width * height,
            width >= 1,
            height >= 1,
    ;
    assert(is_tile_permutation(s));
    lemma_blank_pos(s);
    assert(s[n - 1] as int == blank_id(s));
    assert(blank_pos(s) == n - 1);
    assert(n - 1 == width * (height - 1) + (width - 1)) by (nonlinear_arith)
        requires
            n == width * height,
    ;
    lemma_div_multiples_vanish_fancy(height - 1, width - 1, width);
    assert(blank_layer(s, width, height) == 0);
    lemma_ascending_no_inversions(s, 0, blank_id(s));
    assert(s.subrange(0, n) =~= s);
}

/// An ascending stretch of the goal arrangement holds no inversion.
proof fn lemma_ascending_no_inversions(s: Seq<u8>, from: int, blank: int)
    requires
        is_goal(s),
        0 <= from <= s.len(),
    ensures
        inversions(s.subrange(from, s.len() as int), blank) == 0,
    decreases s.len() - from,
{
    let n = s.len() as int;
    if from < n {
        let t = s.subrange(from, n);
        assert(t.drop_first() =~= s.subrange(from + 1, n));
        lemma_no_smaller_after(s, from + 1, s[from], blank);
        lemma_ascending_no_inversions(s, from + 1, blank);
    }
}

/// In the goal arrangement nothing after index `from - 1` is smaller than
/// the entry there.
proof fn lemma_no_smaller_after(s: Seq<u8>, from: int, x: u8, blank: int)
    requires
        is_goal(s),
        1 <= from <= s.len(),
        x as int <= from,
    ensures
        count_smaller(x, s.subrange(from, s.len() as int), blank) == 0,
    decreases s.len() - from,
{
    let n = s.len() as int;
    if from < n {
        assert(s.subrange(from, n).drop_first() =~= s.subrange(from + 1, n));
        assert(s[from] as int == from + 1);
        lemma_no_smaller_after(s, from + 1, x, blank);
    }
}

/// Only a solvable board can be brought to the goal: clicks that end on
/// the goal arrangement started from a solvable board.
pub proof fn lemma_only_solvable_boards_reach_goal(g: PuzzleState, clicks: Seq<int>)
    requires
        state_wf(g),
        is_goal(run_clicks(g, clicks).tiles),
    ensures
        is_solvable(g.tiles, g.width, g.height),
{
    lemma_clicks_keep_solvability(g, clicks);
    let h = run_clicks(g, clicks);
    assert(g.width >= 1 && g.height >= 1);
    lemma_goal_is_solvable(h.tiles, h.width, h.height);
}

/// Trading any two tiles of the goal arrangement leaves a board that is not
/// solved.
pub proof fn lemma_transposition_unsolved(s: Seq<u8>, i: int, j: int)
    requires
        is_goal(s),
        0 <= i < s.len(),
        0 <= j < s.len(),
        i != j,
    ensures
        !is_goal(s.update(i, s[j]).update(j, s[i])),
{
    let t = s.update(i, s[j]).update(j, s[i]);
    assert(t[i] == s[j]);
    assert(s[j] as int == j + 1);
}

/// Each move made adds one to the move counter, as long as it stays below
/// its largest value.
pub proof fn lemma_moves_are_counted(g: PuzzleState, clicks: Seq<int>)
    requires
        all_moves_made(g, clicks),
        g.move_count + clicks.len() <= u32::MAX,
    ensures
        run_clicks(g, clicks).move_count == g.move_count + clicks.len(),
    decreases clicks.len(),
{
    if clicks.len() > 0 {
        lemma_moves_are_counted(click_step(g, clicks[0]), clicks.drop_first());
    }
}

} // verus!
