use vstd::prelude::*;
use vstd::arithmetic::div_mod::lemma_div_plus_one;
use vstd::set_lib::{lemma_int_range, lemma_len_subset, lemma_subset_equality, set_int_range};

verus! {

/// The goal arrangement: the tile at index `i` has identity `i + 1`, so the
/// blank (identity `len`) is last.
pub open spec fn is_goal(s: Seq<u8>) -> bool {
    forall|i: int| 0 <= i < s.len() ==> #[trigger] s[i] as int == i + 1
}

/// The identities of `s` are `1..=s.len()`, each exactly once.
pub open spec fn is_tile_permutation(s: Seq<u8>) -> bool {
    &&& forall|i: int| 0 <= i < s.len() ==> 1 <= #[trigger] s[i] <= s.len()
    &&& s.no_duplicates()
}

/// The blank's identity on a board of `s.len()` tiles.
pub open spec fn blank_id(s: Seq<u8>) -> int {
    s.len() as int
}

/// Some entry of `s` is `k`.
pub open spec fn holds_id(s: Seq<u8>, k: int) -> bool {
    exists|i: int| 0 <= i < s.len() && s[i] as int == k
}

/// Index of the blank tile.
pub open spec fn blank_pos(s: Seq<u8>) -> int {
    choose|i: int| 0 <= i < s.len() && s[i] as int == blank_id(s)
}

/// Number of non-blank entries of `t` smaller than `x`.
pub open spec fn count_smaller(x: u8, t: Seq<u8>, blank: int) -> nat
    decreases t.len(),
{
    if t.len() == 0 {
        0
    } else {
        (if t[0] as int != blank && t[0] < x {
            1nat
        } else {
            0nat
        }) + count_smaller(x, t.drop_first(), blank)
    }
}

/// Inversions that `x` forms with the entries of `t` standing after it; none
/// when `x` is the blank.
pub open spec fn lead_inversions(x: u8, t: Seq<u8>, blank: int) -> nat {
    if x as int != blank {
        count_smaller(x, t, blank)
    } else {
        0
    }
}

/// Number of pairs of non-blank entries of `s` that stand in descending order.
pub open spec fn inversions(s: Seq<u8>, blank: int) -> nat
    decreases s.len(),
{
    if s.len() == 0 {
        0
    } else {
        lead_inversions(s[0], s.drop_first(), blank) + inversions(s.drop_first(), blank)
    }
}

/// Inversions formed by an entry of `p` and an entry of `q`, `p` standing first.
pub open spec fn cross_inversions(p: Seq<u8>, q: Seq<u8>, blank: int) -> nat
    decreases p.len(),
{
    if p.len() == 0 {
        0
    } else {
        lead_inversions(p[0], q, blank) + cross_inversions(p.drop_first(), q, blank)
    }
}

/// Row of the blank counted from the bottom row (which is row 0).
pub open spec fn blank_layer(s: Seq<u8>, width: int, height: int) -> int {
    height - 1 - blank_pos(s) / width
}

/// The arrangement can be brought to the goal by legal moves. A horizontal
/// move keeps the inversion count and the blank's row; a vertical move passes
/// one tile over `width - 1` others and changes the blank's row by one. So on
/// an odd width the inversion parity alone is kept, and on an even width the
/// inversion parity and the blank layer's parity change together.
pub open spec fn is_solvable(s: Seq<u8>, width: int, height: int) -> bool {
    let inversions_even = inversions(s, blank_id(s)) % 2 == 0;
    if width % 2 == 1 {
        inversions_even
    } else {
        inversions_even == (blank_layer(s, width, height) % 2 == 0)
    }
}

/// Squares `a` and `b` of a grid `width` wide share an edge.
pub open spec fn is_adjacent(a: int, b: int, width: int) -> bool {
    ||| (a / width == b / width && (a == b + 1 || b == a + 1))
    ||| a == b + width
    ||| b == a + width
}

/// Clicking square `i` slides its tile into the blank.
pub open spec fn is_legal_move(s: Seq<u8>, width: int, i: int) -> bool {
    &&& 0 <= i < s.len()
    &&& i != blank_pos(s)
    &&& is_adjacent(i, blank_pos(s), width)
}

/// The board after the tile at `i` and the blank trade places.
pub open spec fn after_move(s: Seq<u8>, i: int) -> Seq<u8> {
    let b = blank_pos(s);
    s.update(b, s[i]).update(i, s[b])
}

/// A permutation holds the blank, at exactly one index.
pub proof fn lemma_blank_pos(s: Seq<u8>)
    requires
        is_tile_permutation(s),
        s.len() > 0,
    ensures
        0 <= blank_pos(s) < s.len(),
        s[blank_pos(s)] as int == blank_id(s),
        forall|i: int| 0 <= i < s.len() && s[i] as int == blank_id(s) ==> i == blank_pos(s),
{
    lemma_covers_range(s);
    assert(holds_id(s, blank_id(s)));
}

/// A permutation of `1..=n` holds every identity of `1..=n`.
pub proof fn lemma_covers_range(s: Seq<u8>)
    requires
        is_tile_permutation(s),
    ensures
        forall|k: int| 1 <= k <= s.len() ==> #[trigger] holds_id(s, k),
{
    let t = s.map_values(|x: u8| x as int);
    assert(t.no_duplicates()) by {
        assert forall|i: int, j: int| 0 <= i < t.len() && 0 <= j < t.len() && i != j implies t[i]
            != t[j] by {
            assert(s[i] != s[j]);
        }
    }
    let range = set_int_range(1, s.len() as int + 1);
    lemma_int_range(1, s.len() as int + 1);
    assert(t.to_set().subset_of(range)) by {
        assert forall|k: int| t.to_set().contains(k) implies range.contains(k) by {
            let i = choose|i: int| 0 <= i < t.len() && t[i] == k;
            assert(1 <= s[i] <= s.len());
        }
    }
    t.unique_seq_to_set();
    lemma_len_subset(t.to_set(), range);
    lemma_subset_equality(t.to_set(), range);
    assert forall|k: int| 1 <= k <= s.len() implies #[trigger] holds_id(s, k) by {
        assert(range.contains(k));
        assert(t.to_set().contains(k));
        let i = choose|i: int| 0 <= i < t.len() && t[i] == k;
        assert(s[i] as int == k);
    }
}

/// Counting smaller entries splits over a concatenation.
pub proof fn lemma_count_smaller_append(x: u8, p: Seq<u8>, q: Seq<u8>, blank: int)
    ensures
        count_smaller(x, p + q, blank) == count_smaller(x, p, blank) + count_smaller(x, q, blank),
    decreases p.len(),
{
    if p.len() == 0 {
        assert(p + q =~= q);
    } else {
        assert((p + q).drop_first() =~= p.drop_first() + q);
        lemma_count_smaller_append(x, p.drop_first(), q, blank);
    }
}

/// Cross inversions split over a concatenation of the later part.
pub proof fn lemma_cross_append_right(p: Seq<u8>, q1: Seq<u8>, q2: Seq<u8>, blank: int)
    ensures
        cross_inversions(p, q1 + q2, blank) == cross_inversions(p, q1, blank) + cross_inversions(
            p,
            q2,
            blank,
        ),
    decreases p.len(),
{
    if p.len() > 0 {
        lemma_count_smaller_append(p[0], q1, q2, blank);
        lemma_cross_append_right(p.drop_first(), q1, q2, blank);
    }
}

/// Cross inversions depend on the later part only through its counts.
pub proof fn lemma_cross_same_counts(p: Seq<u8>, q1: Seq<u8>, q2: Seq<u8>, blank: int)
    requires
        forall|x: u8| #[trigger] count_smaller(x, q1, blank) == count_smaller(x, q2, blank),
    ensures
        cross_inversions(p, q1, blank) == cross_inversions(p, q2, blank),
    decreases p.len(),
{
    if p.len() > 0 {
        assert(count_smaller(p[0], q1, blank) == count_smaller(p[0], q2, blank));
        lemma_cross_same_counts(p.drop_first(), q1, q2, blank);
    }
}

/// Inversions of a concatenation: those inside each part and those across.
pub proof fn lemma_inversions_append(p: Seq<u8>, q: Seq<u8>, blank: int)
    ensures
        inversions(p + q, blank) == inversions(p, blank) + inversions(q, blank) + cross_inversions(
            p,
            q,
            blank,
        ),
    decreases p.len(),
{
    if p.len() == 0 {
        assert(p + q =~= q);
    } else {
        assert((p + q).drop_first() =~= p.drop_first() + q);
        lemma_count_smaller_append(p[0], p.drop_first(), q, blank);
        lemma_inversions_append(p.drop_first(), q, blank);
    }
}

/// The count of smaller entries in a single entry.
pub proof fn lemma_count_smaller_single(x: u8, y: u8, blank: int)
    ensures
        count_smaller(x, seq![y], blank) == (if y as int != blank && y < x {
            1nat
        } else {
            0nat
        }),
{
    assert(seq![y].drop_first() =~= Seq::<u8>::empty());
    assert(count_smaller(x, Seq::<u8>::empty(), blank) == 0);
}

/// When `x` differs from every entry of `m`, and none of them is the blank,
/// each entry of `m` is either below `x` or above it.
pub proof fn lemma_split_around(x: u8, m: Seq<u8>, blank: int)
    requires
        x as int != blank,
        forall|i: int| 0 <= i < m.len() ==> #[trigger] m[i] != x && m[i] as int != blank,
    ensures
        count_smaller(x, m, blank) + cross_inversions(m, seq![x], blank) == m.len(),
    decreases m.len(),
{
    if m.len() > 0 {
        lemma_count_smaller_single(m[0], x, blank);
        lemma_split_around(x, m.drop_first(), blank);
    }
}

/// Trading places of the blank and `x` across a run `m`: the inversion count
/// changes by `m.len()` less twice the entries of `m` above `x`.
pub proof fn lemma_trade_across(a: Seq<u8>, m: Seq<u8>, b: Seq<u8>, x: u8, bl: u8)
    requires
        x != bl,
        forall|i: int| 0 <= i < m.len() ==> #[trigger] m[i] != x && m[i] != bl,
    ensures
        inversions(a + seq![x] + m + seq![bl] + b, bl as int) + 2 * cross_inversions(
            m,
            seq![x],
            bl as int,
        ) == inversions(a + seq![bl] + m + seq![x] + b, bl as int) + m.len(),
{
    let blank = bl as int;
    let r1 = seq![bl] + (m + (seq![x] + b));
    let r2 = seq![x] + (m + (seq![bl] + b));
    assert(a + seq![bl] + m + seq![x] + b =~= a + r1);
    assert(a + seq![x] + m + seq![bl] + b =~= a + r2);
    lemma_inversions_append(a, r1, blank);
    lemma_inversions_append(a, r2, blank);
    assert forall|y: u8| #[trigger] count_smaller(y, r1, blank) == count_smaller(y, r2, blank) by {
        lemma_count_smaller_append(y, seq![bl], m + (seq![x] + b), blank);
        lemma_count_smaller_append(y, m, seq![x] + b, blank);
        lemma_count_smaller_append(y, seq![x], b, blank);
        lemma_count_smaller_append(y, seq![x], m + (seq![bl] + b), blank);
        lemma_count_smaller_append(y, m, seq![bl] + b, blank);
        lemma_count_smaller_append(y, seq![bl], b, blank);
    }
    lemma_cross_same_counts(a, r1, r2, blank);
    // the blank leads r1: it adds nothing
    lemma_inversions_append(seq![bl], m + (seq![x] + b), blank);
    lemma_inversions_append(m, seq![x] + b, blank);
    lemma_inversions_append(seq![x], b, blank);
    lemma_cross_append_right(m, seq![x], b, blank);
    lemma_inversions_append(seq![x], m + (seq![bl] + b), blank);
    lemma_inversions_append(m, seq![bl] + b, blank);
    lemma_inversions_append(seq![bl], b, blank);
    lemma_cross_append_right(m, seq![bl], b, blank);
    lemma_count_smaller_append(x, m, seq![bl] + b, blank);
    lemma_count_smaller_append(x, seq![bl], b, blank);
    lemma_count_smaller_single(x, bl, blank);
    lemma_inversions_single(x, blank);
    lemma_inversions_single(bl, blank);
    lemma_cross_into_blank(m, bl);
    lemma_cross_single_left(x, b, blank);
    lemma_cross_single_left(bl, b, blank);
    lemma_cross_single_left(x, m + (seq![bl] + b), blank);
    lemma_cross_single_left(bl, m + (seq![x] + b), blank);
    lemma_split_around(x, m, blank);
}

/// A single entry has no inversions.
pub proof fn lemma_inversions_single(x: u8, blank: int)
    ensures
        inversions(seq![x], blank) == 0,
{
    let e = Seq::<u8>::empty();
    assert(seq![x].drop_first() =~= e);
    assert(count_smaller(x, e, blank) == 0);
    assert(inversions(e, blank) == 0);
}

/// Cross inversions of a single leading entry.
pub proof fn lemma_cross_single_left(x: u8, q: Seq<u8>, blank: int)
    ensures
        cross_inversions(seq![x], q, blank) == lead_inversions(x, q, blank),
{
    let e = Seq::<u8>::empty();
    assert(seq![x].drop_first() =~= e);
    assert(seq![x][0] == x);
    assert(cross_inversions(e, q, blank) == 0);
}

/// No entry forms an inversion with the blank.
pub proof fn lemma_cross_into_blank(m: Seq<u8>, bl: u8)
    ensures
        cross_inversions(m, seq![bl], bl as int) == 0,
    decreases m.len(),
{
    if m.len() > 0 {
        lemma_count_smaller_single(m[0], bl, bl as int);
        lemma_cross_into_blank(m.drop_first(), bl);
    }
}

/// A move keeps the identities a permutation and leaves the blank on the
/// clicked square.
pub proof fn lemma_move_keeps_permutation(s: Seq<u8>, width: int, i: int)
    requires
        is_tile_permutation(s),
        is_legal_move(s, width, i),
    ensures
        is_tile_permutation(after_move(s, i)),
        after_move(s, i).len() == s.len(),
        blank_pos(after_move(s, i)) == i,
        after_move(s, i)[i] == s[blank_pos(s)],
        after_move(s, i)[blank_pos(s)] == s[i],
        forall|k: int|
            0 <= k < s.len() && k != i && k != blank_pos(s) ==> #[trigger] after_move(s, i)[k]
                == s[k],
{
    lemma_blank_pos(s);
    let b = blank_pos(s);
    let t = after_move(s, i);
    assert(t.no_duplicates()) by {
        assert forall|p: int, q: int| 0 <= p < t.len() && 0 <= q < t.len() && p != q implies t[p]
            != t[q] by {
            let sp = if p == i { b } else if p == b { i } else { p };
            let sq = if q == i { b } else if q == b { i } else { q };
            assert(t[p] == s[sp]);
            assert(t[q] == s[sq]);
        }
    }
    assert forall|k: int| 0 <= k < t.len() implies 1 <= #[trigger] t[k] <= t.len() by {
        let sk = if k == i { b } else if k == b { i } else { k };
        assert(t[k] == s[sk]);
    }
    lemma_blank_pos(t);
    assert(t[i] as int == blank_id(t));
}

/// A move passes the clicked tile over the squares between it and the blank:
/// the inversion count changes by their number, up to an even amount.
pub proof fn lemma_move_inversion_parity(s: Seq<u8>, width: int, i: int)
    requires
        is_tile_permutation(s),
        is_legal_move(s, width, i),
    ensures
        (inversions(after_move(s, i), blank_id(s)) + inversions(s, blank_id(s)) + (if i
            < blank_pos(s) {
            blank_pos(s) - i - 1
        } else {
            i - blank_pos(s) - 1
        })) % 2 == 0,
{
    lemma_blank_pos(s);
    lemma_move_keeps_permutation(s, width, i);
    let n = s.len() as int;
    let b = blank_pos(s);
    let t = after_move(s, i);
    let bl = s[b];
    let x = s[i];
    let lo = if i < b { i } else { b };
    let hi = if i < b { b } else { i };
    let a = s.subrange(0, lo);
    let m = s.subrange(lo + 1, hi);
    let rest = s.subrange(hi + 1, n);
    assert forall|k: int| 0 <= k < m.len() implies #[trigger] m[k] != x && m[k] != bl by {
        assert(m[k] == s[lo + 1 + k]);
    }
    lemma_trade_across(a, m, rest, x, bl);
    if b < i {
        assert(s =~= a + seq![bl] + m + seq![x] + rest);
        assert(t =~= a + seq![x] + m + seq![bl] + rest);
    } else {
        assert(s =~= a + seq![x] + m + seq![bl] + rest);
        assert(t =~= a + seq![bl] + m + seq![x] + rest);
    }
}

/// A legal move keeps the board solvable exactly when it was: the parity
/// that decides solvability does not change.
pub proof fn lemma_move_keeps_solvability(s: Seq<u8>, width: int, height: int, i: int)
    requires
        is_tile_permutation(s),
        width >= 1,
        height >= 1,
        s.len() == width * height,
        is_legal_move(s, width, i),
    ensures
        is_solvable(after_move(s, i), width, height) == is_solvable(s, width, height),
{
    lemma_blank_pos(s);
    lemma_move_keeps_permutation(s, width, i);
    lemma_move_inversion_parity(s, width, i);
    let b = blank_pos(s);
    let t = after_move(s, i);
    assert(blank_id(t) == blank_id(s));
    if i / width == b / width && (i == b + 1 || b == i + 1) {
        assert(blank_layer(t, width, height) == blank_layer(s, width, height));
    } else {
        let lo = if i < b { i } else { b };
        let hi = if i < b { b } else { i };
        assert(hi == lo + width);
        lemma_div_plus_one(lo, width);
        assert(hi / width == lo / width + 1);
        assert(blank_layer(t, width, height) % 2 != blank_layer(s, width, height) % 2);
    }
}

/// Reordering a permutation leaves a permutation.
pub proof fn lemma_reorder_keeps_permutation(s: Seq<u8>, t: Seq<u8>)
    requires
        is_tile_permutation(s),
        t.to_multiset() == s.to_multiset(),
    ensures
        is_tile_permutation(t),
        t.len() == s.len(),
{
    s.to_multiset_ensures();
    t.to_multiset_ensures();
    assert forall|k: int| 0 <= k < t.len() implies 1 <= #[trigger] t[k] <= t.len() by {
        assert(t.contains(t[k]));
        assert(t.to_multiset().count(t[k]) > 0);
        assert(s.to_multiset().count(t[k]) > 0);
        assert(s.contains(t[k]));
        let j = choose|j: int| 0 <= j < s.len() && s[j] == t[k];
        assert(1 <= s[j] <= s.len());
    }
    s.lemma_multiset_has_no_duplicates();
    t.lemma_multiset_has_no_duplicates_conv();
}

/// Counts of smaller entries never exceed the length.
pub proof fn lemma_count_smaller_bound(x: u8, t: Seq<u8>, blank: int)
    ensures
        count_smaller(x, t, blank) <= t.len(),
    decreases t.len(),
{
    if t.len() > 0 {
        lemma_count_smaller_bound(x, t.drop_first(), blank);
    }
}

} // verus!
