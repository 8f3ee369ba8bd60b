use rand::seq::SliceRandom;
use vstd::prelude::*;
use vstd::arithmetic::div_mod::lemma_multiply_divide_lt;

use crate::order::{
    after_move, blank_id, blank_pos, count_smaller, inversions, is_goal,
    is_legal_move, is_solvable, is_tile_permutation, lead_inversions, lemma_blank_pos,
    lemma_count_smaller_bound, lemma_move_keeps_permutation, lemma_reorder_keeps_permutation,
};
use crate::tile::Tile;

verus! {

/// Most tiles a board may hold: identities are bytes.
pub const MAX_TILES: usize = 255;

/// Shuffles drawn before shuffle generation gives up.
pub const MAX_SHUFFLE_ATTEMPTS: u32 = 1000;

/// Why an engine operation did not take place.
#[derive(Clone, Copy, Debug, PartialEq, Eq, Structural)]
pub enum PuzzleError {
    /// Width or height below 2, or more tiles than identities.
    InvalidDimensions,
    /// A clicked index outside the board.
    IndexOutOfRange,
    /// No acceptable shuffle came up within the attempt limit.
    ShuffleGenerationFailed,
}

/// A grid of the given size can be played.
pub open spec fn valid_dimensions(width: int, height: int) -> bool {
    &&& 2 <= width
    &&& 2 <= height
    &&& width * height <= MAX_TILES
}

/// A shuffle that starts a game: solvable, and not already solved.
pub open spec fn is_fresh_order(s: Seq<u8>, width: int, height: int) -> bool {
    is_solvable(s, width, height) && !is_goal(s)
}

/// What a game is, as values: the identities on the board in row-major
/// order, the grid's size, the solved flag, the moves made so far and the best
/// (lowest) move count of a completed game, 0 before the first one.
pub struct PuzzleState {
    pub tiles: Seq<u8>,
    pub width: int,
    pub height: int,
    pub solved: bool,
    pub move_count: int,
    pub high_score: int,
}

/// A state that the engine can be in.
pub open spec fn state_wf(g: PuzzleState) -> bool {
    &&& valid_dimensions(g.width, g.height)
    &&& g.tiles.len() == g.width * g.height
    &&& is_tile_permutation(g.tiles)
    &&& g.solved == is_goal(g.tiles)
    &&& 0 <= g.move_count <= u32::MAX
    &&& 0 <= g.high_score <= u32::MAX
}

/// The high score after a game completed in `count` moves: lower is better.
pub open spec fn best_score(high_score: int, count: int) -> int {
    if high_score == 0 || count < high_score {
        count
    } else {
        high_score
    }
}

/// The effect of clicking square `i`: a legal click on an unsolved board
/// slides the tile into the blank and counts the move (the counter stops at
/// its largest value); any other click changes nothing.
pub open spec fn click_step(g: PuzzleState, i: int) -> PuzzleState {
    if !g.solved && is_legal_move(g.tiles, g.width, i) {
        let tiles = after_move(g.tiles, i);
        let count = if g.move_count < u32::MAX {
            g.move_count + 1
        } else {
            g.move_count
        };
        let solved = is_goal(tiles);
        PuzzleState {
            tiles,
            solved,
            move_count: count,
            high_score: if solved {
                best_score(g.high_score, count)
            } else {
                g.high_score
            },
            ..g
        }
    } else {
        g
    }
}

/// A sliding-tile puzzle in play.
#[derive(Clone, Debug)]
pub struct Game {
    pub board: Vec<Tile>,
    pub width: u8,
    pub height: u8,
    pub solved: bool,
    pub move_count: u32,
    pub high_score: u32,
}

impl View for Game {
    type V = PuzzleState;

    open spec fn view(&self) -> PuzzleState {
        PuzzleState {
            tiles: self.board@.map_values(|t: Tile| t.id),
            width: self.width as int,
            height: self.height as int,
            solved: self.solved,
            move_count: self.move_count as int,
            high_score: self.high_score as int,
        }
    }
}

/// The tiles carry the identities of `ids`, the blank flag set on the
/// largest one alone.
pub open spec fn board_matches(board: Seq<Tile>, ids: Seq<u8>) -> bool {
    &&& board.len() == ids.len()
    &&& forall|k: int|
        0 <= k < board.len() ==> (#[trigger] board[k]).id == ids[k] && board[k].empty == (
        ids[k] as int == ids.len())
}

/// Relies on `rand::seq::SliceRandom::shuffle`, drawing from `rand::thread_rng`:
/// the slice is reordered by swaps, so the same entries remain.
#[verifier::external_body]
fn shuffle_order(order: &mut Vec<u8>)
    ensures
        final(order)@.to_multiset() == old(order)@.to_multiset(),
{
    let mut rng = rand::thread_rng();
    order.shuffle(&mut rng);
}

/// The tiles for the identities of `order`.
fn board_from_order(order: &Vec<u8>) -> (board: Vec<Tile>)
    requires
        order@.len() <= MAX_TILES,
    ensures
        board_matches(board@, order@),
{
    let n = order.len();
    let mut board: Vec<Tile> = Vec::new();
    for i in 0..n
        invariant
            n == order@.len(),
            board@.len() == i,
            forall|k: int|
                0 <= k < i ==> (#[trigger] board@[k]).id == order@[k] && board@[k].empty == (
                order@[k] as int == n),
    {
        let id = order[i];
        board.push(Tile::new(id, id as usize == n));
    }
    board
}

/// A playable board has at least four tiles.
pub proof fn lemma_state_nonempty(g: PuzzleState)
    requires
        state_wf(g),
    ensures
        g.tiles.len() >= 4,
{
    assert(g.width * g.height >= 4) by (nonlinear_arith)
        requires
            g.width >= 2,
            g.height >= 2,
    ;
}

impl Game {
    /// Well-formed: the fields make a state the engine can be in, and the
    /// blank flags mark the blank's identity.
    pub open spec fn wf(&self) -> bool {
        &&& state_wf(self@)
        &&& board_matches(self.board@, self@.tiles)
    }

    /// Decides whether `order` can be brought to the goal by legal moves on a
    /// grid `width` by `height` (see `is_solvable`).
    pub fn is_legal_order(order: &Vec<u8>, width: u8, height: u8) -> (r: bool)
        requires
            is_tile_permutation(order@),
            width >= 1,
            height >= 1,
            order@.len() == width * height,
            order@.len() <= MAX_TILES,
        ensures
            r == is_solvable(order@, width as int, height as int),
    {
        let n = order.len();
        let s = Ghost(order@);
        let blank = Ghost(blank_id(order@));
        proof {
            assert(n > 0) by (nonlinear_arith)
                requires
                    n == width * height,
                    width >= 1,
                    height >= 1,
            ;
            lemma_blank_pos(order@);
        }
        // locate the blank
        let mut blank_index: usize = 0;
        while blank_index < n && order[blank_index] as usize != n
            invariant
                blank_index <= n,
                n == s@.len(),
                s@ == order@,
                forall|k: int| 0 <= k < blank_index ==> #[trigger] s@[k] as int != blank@,
                blank@ == n,
                0 <= blank_pos(s@) < n,
                s@[blank_pos(s@)] as int == blank@,
            decreases n - blank_index,
        {
            blank_index += 1;
        }
        assert(blank_index == blank_pos(s@));
        // count inversions, from the back
        let mut inv: u32 = 0;
        let mut i: usize = n;
        while i > 0
            invariant
                i <= n,
                n == s@.len(),
                s@ == order@,
                n <= MAX_TILES,
                blank@ == n,
                inv == inversions(s@.subrange(i as int, n as int), blank@),
                inv <= (n - i) * n,
            decreases i,
        {
            let x = order[i - 1];
            let mut c: u32 = 0;
            if x as usize != n {
                let mut j: usize = n;
                while j > i
                    invariant
                        1 <= i <= j <= n,
                        n == s@.len(),
                        n <= MAX_TILES,
                        s@ == order@,
                        blank@ == n,
                        x == s@[i - 1],
                        c == count_smaller(x, s@.subrange(j as int, n as int), blank@),
                        c <= n - j,
                    decreases j,
                {
                    let y = order[j - 1];
                    assert(s@.subrange(j - 1, n as int).drop_first() =~= s@.subrange(j as int, n as int));
                    if y as usize != n && y < x {
                        c += 1;
                    }
                    j -= 1;
                }
            }
            proof {
                lemma_count_smaller_bound(x, s@.subrange(i as int, n as int), blank@);
                assert(s@.subrange(i - 1, n as int).drop_first() =~= s@.subrange(i as int, n as int));
                assert(c == lead_inversions(x, s@.subrange(i as int, n as int), blank@));
                assert((n - i) * n + n == (n - (i - 1)) * n) by (nonlinear_arith);
                assert((n - (i - 1)) * n <= n * n) by (nonlinear_arith)
                    requires i >= 1;
                assert(n * n <= 255 * 255) by (nonlinear_arith)
                    requires n <= 255;
            }
            inv = inv + c;
            i -= 1;
        }
        assert(s@.subrange(0, n as int) =~= s@);
        proof {
            lemma_multiply_divide_lt(blank_index as int, width as int, height as int);
        }
        let layer: u8 = height - 1 - (blank_index / width as usize) as u8;
        let inversions_even = inv % 2 == 0;
        if width % 2 == 1 {
            inversions_even
        } else {
            inversions_even == (layer % 2 == 0)
        }
    }

    /// Whether `order` is the goal arrangement.
    pub fn is_solved(order: &Vec<u8>) -> (r: bool)
        ensures
            r == is_goal(order@),
    {
        let mut i: usize = 0;
        while i < order.len()
            invariant
                i <= order.len(),
                forall|k: int| 0 <= k < i ==> #[trigger] order@[k] as int == k + 1,
            decreases order.len() - i,
        {
            if order[i] as usize != i + 1 {
                return false;
            }
            i += 1;
        }
        true
    }

    /// Whether a drawn `order` may start a game: solvable, and not already
    /// solved.
    pub fn accepts_shuffle(order: &Vec<u8>, width: u8, height: u8) -> (r: bool)
        requires
            is_tile_permutation(order@),
            width >= 1,
            height >= 1,
            order@.len() == width * height,
            order@.len() <= MAX_TILES,
        ensures
            r == is_fresh_order(order@, width as int, height as int),
    {
        Game::is_legal_order(order, width, height) && !Game::is_solved(order)
    }

    /// What becomes of draw number `attempt` (counted from 0): a fresh order
    /// is kept; a rejected one is followed by another draw while the attempt
    /// limit allows, and ends generation with `ShuffleGenerationFailed` once
    /// the last allowed draw is rejected.
    pub fn judge_draw(order: &Vec<u8>, width: u8, height: u8, attempt: u32) -> (r: Option<
        Result<(), PuzzleError>,
    >)
        requires
            is_tile_permutation(order@),
            width >= 1,
            height >= 1,
            order@.len() == width * height,
            order@.len() <= MAX_TILES,
            attempt < MAX_SHUFFLE_ATTEMPTS,
        ensures
            r == (if is_fresh_order(order@, width as int, height as int) {
                Some(Ok::<(), PuzzleError>(()))
            } else if attempt + 1 < MAX_SHUFFLE_ATTEMPTS {
                None::<Result<(), PuzzleError>>
            } else {
                Some(Err::<(), PuzzleError>(PuzzleError::ShuffleGenerationFailed))
            }),
    {
        if Game::accepts_shuffle(order, width, height) {
            Some(Ok(()))
        } else if attempt + 1 < MAX_SHUFFLE_ATTEMPTS {
            None
        } else {
            Some(Err(PuzzleError::ShuffleGenerationFailed))
        }
    }

    /// Draws shuffles of `1..=width * height` until one is solvable and not
    /// already solved.
    pub fn random_legal_order(width: u8, height: u8) -> (r: Result<Vec<u8>, PuzzleError>)
        ensures
            match r {
                Ok(order) => {
                    &&& valid_dimensions(width as int, height as int)
                    &&& order@.len() == width * height
                    &&& is_tile_permutation(order@)
                    &&& is_fresh_order(order@, width as int, height as int)
                },
                Err(e) => {
                    &&& (e == PuzzleError::InvalidDimensions) == !valid_dimensions(
                        width as int,
                        height as int,
                    )
                    &&& (e == PuzzleError::InvalidDimensions || e
                        == PuzzleError::ShuffleGenerationFailed)
                },
            },
    {
        proof {
            assert(width as int * height as int <= 255 * 255) by (nonlinear_arith)
                requires
                    0 <= width <= 255,
                    0 <= height <= 255,
            ;
        }
        if width < 2 || height < 2 || (width as usize) * (height as usize) > MAX_TILES {
            return Err(PuzzleError::InvalidDimensions);
        }
        let n = (width as usize) * (height as usize);
        let mut order: Vec<u8> = Vec::new();
        for i in 0..n
            invariant
                n <= MAX_TILES,
                order@.len() == i,
                forall|k: int| 0 <= k < i ==> #[trigger] order@[k] as int == k + 1,
        {
            order.push((i + 1) as u8);
        }
        assert(is_tile_permutation(order@));
        let mut attempt: u32 = 0;
        while attempt < MAX_SHUFFLE_ATTEMPTS
            invariant
                valid_dimensions(width as int, height as int),
                n == width * height,
                order@.len() == n,
                is_tile_permutation(order@),
            decreases MAX_SHUFFLE_ATTEMPTS - attempt,
        {
            let ghost before = order@;
            shuffle_order(&mut order);
            proof {
                lemma_reorder_keeps_permutation(before, order@);
            }
            match Game::judge_draw(&order, width, height, attempt) {
                Some(Ok(())) => return Ok(order),
                Some(Err(e)) => return Err(e),
                None => {},
            }
            attempt += 1;
        }
        Err(PuzzleError::ShuffleGenerationFailed)
    }

    /// A game on a freshly shuffled, solvable board.
    pub fn new(width: u8, height: u8) -> (r: Result<Game, PuzzleError>)
        ensures
            match r {
                Ok(g) => {
                    &&& g.wf()
                    &&& g.width == width
                    &&& g.height == height
                    &&& !g.solved
                    &&& g.move_count == 0
                    &&& g.high_score == 0
                    &&& is_solvable(g@.tiles, width as int, height as int)
                },
                Err(e) => {
                    &&& (e == PuzzleError::InvalidDimensions) == !valid_dimensions(
                        width as int,
                        height as int,
                    )
                    &&& (e == PuzzleError::InvalidDimensions || e
                        == PuzzleError::ShuffleGenerationFailed)
                },
            },
    {
        let order = match Game::random_legal_order(width, height) {
            Ok(order) => order,
            Err(e) => return Err(e),
        };
        let board = board_from_order(&order);
        assert(board@.map_values(|t: Tile| t.id) =~= order@);
        Ok(Game { board, width, height, solved: false, move_count: 0, high_score: 0 })
    }

    /// Index of the blank tile.
    fn empty_index(&self) -> (r: u8)
        requires
            self.wf(),
        ensures
            r as int == blank_pos(self@.tiles),
    {
        proof {
            lemma_state_nonempty(self@);
            lemma_blank_pos(self@.tiles);
        }
        let n = self.board.len();
        let mut i: usize = 0;
        while i < n
            invariant
                i <= n,
                n == self.board@.len(),
                self.wf(),
                forall|k: int| 0 <= k < i ==> !(#[trigger] self.board@[k]).empty,
            decreases n - i,
        {
            if self.board[i].empty {
                assert(self@.tiles[i as int] == self.board@[i as int].id);
                return i as u8;
            }
            i += 1;
        }
        assert(self.board@[blank_pos(self@.tiles)].empty);
        0
    }

    /// Whether clicking square `index_clicked` is a legal move: the blank
    /// shares an edge with it (never across the end of a row).
    pub fn is_legal_move(&self, index_clicked: u8) -> (r: bool)
        requires
            self.wf(),
        ensures
            r == is_legal_move(self@.tiles, self.width as int, index_clicked as int),
    {
        let empty = self.empty_index();
        let n = self.board.len();
        let i = index_clicked as usize;
        let e = empty as usize;
        let w = self.width as usize;
        if i >= n || i == e {
            return false;
        }
        (i / w == e / w && (e + 1 == i || i + 1 == e)) || i == e + w || e == i + w
    }

    /// Slides the clicked tile into the blank and counts the move.
    fn make_move(&mut self, index_clicked: u8)
        requires
            old(self).wf(),
            is_legal_move(old(self)@.tiles, old(self).width as int, index_clicked as int),
        ensures
            final(self)@.tiles == after_move(old(self)@.tiles, index_clicked as int),
            final(self)@.tiles.len() == old(self)@.tiles.len(),
            board_matches(final(self).board@, final(self)@.tiles),
            is_tile_permutation(final(self)@.tiles),
            final(self).move_count == (if old(self).move_count < u32::MAX {
                old(self).move_count + 1
            } else {
                old(self).move_count as int
            }),
            final(self).width == old(self).width,
            final(self).height == old(self).height,
            final(self).solved == old(self).solved,
            final(self).high_score == old(self).high_score,
    {
        let ghost s = self@.tiles;
        let ghost i = index_clicked as int;
        proof {
            lemma_state_nonempty(self@);
            lemma_blank_pos(s);
            lemma_move_keeps_permutation(s, self.width as int, i);
        }
        let empty = self.empty_index();
        let e = empty as usize;
        let blank_tile = self.board[e];
        let moved = self.board[index_clicked as usize];
        self.board.set(e, moved);
        self.board.set(index_clicked as usize, blank_tile);
        if self.move_count < u32::MAX {
            self.move_count = self.move_count + 1;
        }
        assert(self@.tiles =~= after_move(s, i));
    }

    /// The identities on the board, in row-major order.
    pub fn tile_ids(&self) -> (r: Vec<u8>)
        ensures
            r@ == self@.tiles,
    {
        let mut ids: Vec<u8> = Vec::new();
        for i in 0..self.board.len()
            invariant
                ids@ == self@.tiles.subrange(0, i as int),
        {
            ids.push(self.board[i].id);
            assert(ids@ =~= self@.tiles.subrange(0, i + 1));
        }
        assert(ids@ =~= self@.tiles);
        ids
    }

    /// Clicks square `index`: on an unsolved board a legal click slides its
    /// tile into the blank, counts the move and checks for the win; any other
    /// click changes nothing. Answers whether a move was made.
    pub fn click_tile(&mut self, index: u8) -> (r: Result<bool, PuzzleError>)
        requires
            old(self).wf(),
        ensures
            final(self).wf(),
            r is Err <==> index as int >= old(self).board@.len(),
            match r {
                Ok(moved) => {
                    &&& final(self)@ == click_step(old(self)@, index as int)
                    &&& moved == (!old(self).solved && is_legal_move(
                        old(self)@.tiles,
                        old(self).width as int,
                        index as int,
                    ))
                    &&& !moved ==> final(self).board@ == old(self).board@
                },
                Err(e) => {
                    &&& e == PuzzleError::IndexOutOfRange
                    &&& final(self).board@ == old(self).board@
                    &&& final(self)@ == old(self)@
                },
            },
    {
        if index as usize >= self.board.len() {
            return Err(PuzzleError::IndexOutOfRange);
        }
        if self.is_legal_move(index) && !self.solved {
            self.make_move(index);
            let order = self.tile_ids();
            self.solved = Game::is_solved(&order);
            if self.solved && (self.high_score == 0 || self.move_count < self.high_score) {
                self.high_score = self.move_count;
            }
            Ok(true)
        } else {
            Ok(false)
        }
    }

    /// Starts over on a fresh solvable shuffle: the move counter returns to
    /// 0 and the high score stays. If no shuffle came up, nothing changes.
    pub fn restart(&mut self) -> (r: Result<(), PuzzleError>)
        requires
            old(self).wf(),
        ensures
            final(self).wf(),
            final(self).width == old(self).width,
            final(self).height == old(self).height,
            final(self).high_score == old(self).high_score,
            match r {
                Ok(()) => {
                    &&& !final(self).solved
                    &&& final(self).move_count == 0
                    &&& is_solvable(
                        final(self)@.tiles,
                        final(self).width as int,
                        final(self).height as int,
                    )
                },
                Err(e) => {
                    &&& e == PuzzleError::ShuffleGenerationFailed
                    &&& final(self).board@ == old(self).board@
                    &&& final(self)@ == old(self)@
                },
            },
    {
        let order = match Game::random_legal_order(self.width, self.height) {
            Ok(order) => order,
            Err(e) => return Err(e),
        };
        self.board = board_from_order(&order);
        self.solved = false;
        self.move_count = 0;
        assert(self.board@.map_values(|t: Tile| t.id) =~= order@);
        Ok(())
    }
}

} // verus!
