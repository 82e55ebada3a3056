//! The generator: a solved grid from a pattern and a few random choices, then
//! the removal, one by one, of the squares whose loss makes the puzzle hardest.

use crate::board::{lemma_mask_sum_bound, Board, BoardState};
use crate::cell::Cell;
use crate::grid::Grid;
use crate::mask::{lemma_constant_masks, ALL_CANDIDATES};
use crate::position::{
    col_of, lemma_compose, lemma_decompose, peers, region_of, row_of, Position,
};
use crate::solvers::{
    enabled_rules, first_change, get_solvers, rules_of, solved, Rule, Solver,
};
use rand::seq::SliceRandom;
use rand::Rng;
use vstd::prelude::*;

verus! {

/// The power `5^i`.
pub open spec fn pow5(i: nat) -> nat
    decreases i,
{
    if i == 0 {
        1
    } else {
        5 * pow5((i - 1) as nat)
    }
}

/// The weighted sum of the first `n` counts: count `i` weighs `5^i`.
pub open spec fn weighted(counts: Seq<usize>, n: int) -> nat
    decreases n,
{
    if n <= 0 {
        0
    } else {
        weighted(counts, n - 1) + (counts[n - 1] as nat) * pow5((n - 1) as nat)
    }
}

/// How hard a grid was to solve: how often each rule fired, and the weighted sum
/// of these counts, each rule weighing five times the one before.
pub struct SolveDifficulty {
    pub difficulty: usize,
    pub solver_counts: Vec<usize>,
}

/// The weighted sum grows with the number of counts taken.
pub proof fn lemma_weighted_grows(counts: Seq<usize>, m: int, n: int)
    requires
        0 <= m <= n,
    ensures
        weighted(counts, m) <= weighted(counts, n),
    decreases n - m,
{
    if m < n {
        lemma_weighted_grows(counts, m, n - 1);
    }
}

/// `5^i` is positive.
pub proof fn lemma_pow5_positive(i: nat)
    ensures
        pow5(i) >= 1,
    decreases i,
{
    if i > 0 {
        lemma_pow5_positive((i - 1) as nat);
    }
}

impl SolveDifficulty {
    /// The difficulty of a solve in which rule `i` fired `solver_counts[i]` times:
    /// the sum of the counts, count `i` multiplied by `5^i`.
    pub fn new(solver_counts: Vec<usize>) -> (d: SolveDifficulty)
        requires
            weighted(solver_counts@, solver_counts.len() as int) <= usize::MAX,
        ensures
            d.difficulty == weighted(solver_counts@, solver_counts.len() as int),
            d.solver_counts == solver_counts,
    {
        let n: usize = solver_counts.len();
        let mut difficulty: usize = 0;
        let mut scalar: usize = 1;
        let mut beyond: bool = false;
        let mut i: usize = 0;
        while i < n
            invariant
                i <= n,
                n == solver_counts.len(),
                weighted(solver_counts@, n as int) <= usize::MAX,
                difficulty == weighted(solver_counts@, i as int),
                !beyond ==> scalar == pow5(i as nat),
                beyond ==> pow5(i as nat) > usize::MAX,
            decreases n - i,
        {
            let c: usize = solver_counts[i];
            proof {
                lemma_weighted_grows(solver_counts@, i as int + 1, n as int);
                lemma_pow5_positive(i as nat);
                if c != 0 {
                    assert(c * pow5(i as nat) >= pow5(i as nat)) by (nonlinear_arith)
                        requires
                            c >= 1,
                            pow5(i as nat) >= 1,
                    ;
                }
            }
            if c != 0 {
                difficulty = difficulty + c * scalar;
            } else {
                assert(c * pow5(i as nat) == 0) by (nonlinear_arith)
                    requires
                        c == 0,
                ;
            }
            if !beyond {
                if scalar > usize::MAX / 5 {
                    beyond = true;
                } else {
                    scalar = scalar * 5;
                }
            }
            i = i + 1;
        }
        SolveDifficulty { difficulty, solver_counts }
    }
}

/// Which line of a band of three stands at place `p` after the swaps that `code`
/// stands for: none for 0; the lines 0 and 1 for 1; 0 and 2 for 2; 1 and 2 for 3;
/// 0 and 1, then 1 and 2, for 4; 0 and 2, then 1 and 2, for 5.
pub open spec fn line_source(code: int, p: int) -> int {
    if code == 1 {
        if p == 0 {
            1
        } else if p == 1 {
            0
        } else {
            2
        }
    } else if code == 2 {
        if p == 0 {
            2
        } else if p == 1 {
            1
        } else {
            0
        }
    } else if code == 3 {
        if p == 0 {
            0
        } else if p == 1 {
            2
        } else {
            1
        }
    } else if code == 4 {
        if p == 0 {
            1
        } else if p == 1 {
            2
        } else {
            0
        }
    } else if code == 5 {
        if p == 0 {
            2
        } else if p == 1 {
            0
        } else {
            1
        }
    } else {
        p
    }
}

/// The place in the permutation from which square `i` takes its digit: the square
/// at row `r` and column `c` of the base pattern takes place
/// `(c + 3 * (r % 3) + r / 3) % 9`, and the rows and the columns are then swapped
/// within their bands as `rows` and `cols` say.
pub open spec fn pattern_place(rows: Seq<usize>, cols: Seq<usize>, i: int) -> int {
    let r = i / 9;
    let c = i % 9;
    let sr = 3 * (r / 3) + line_source(rows[r / 3] as int, r % 3);
    let sc = 3 * (c / 3) + line_source(cols[c / 3] as int, c % 3);
    (sc + 3 * (sr % 3) + sr / 3) % 9
}

/// Whether `codes` holds three codes of swaps, each below 6.
pub open spec fn are_swaps(codes: Seq<usize>) -> bool {
    codes.len() == 3 && codes[0] < 6 && codes[1] < 6 && codes[2] < 6
}

/// Whether `perm` holds each digit from 1 to 9 once.
pub open spec fn is_digit_permutation(perm: Seq<u8>) -> bool {
    &&& perm.len() == 9
    &&& forall|i: int| 0 <= i < 9 ==> 1 <= #[trigger] perm[i] <= 9
    &&& forall|i: int, j: int| 0 <= i < j < 9 ==> perm[i] != perm[j]
}

/// The solved grid of the pattern: square `i` holds the digit of `perm` at its
/// place in the pattern, which is its known answer too.
pub open spec fn filled_pattern(perm: Seq<u8>, rows: Seq<usize>, cols: Seq<usize>) -> Board {
    Board {
        cells: Seq::new(
            81,
            |i: int|
                Cell {
                    candidates: 0,
                    value: perm[pattern_place(rows, cols, i)],
                    answer: Some(perm[pattern_place(rows, cols, i)]),
                    is_given: false,
                    is_dirty: true,
                },
        ),
        starting_cell_count: 0,
        auto_promote: false,
        state: BoardState::Constructing,
    }
}

/// Swapping the lines of a band moves each line to a place of the band, and no
/// two lines to the same.
pub proof fn lemma_line_source(code: int, p: int, q: int)
    requires
        0 <= p < 3,
        0 <= q < 3,
    ensures
        0 <= line_source(code, p) < 3,
        p != q ==> line_source(code, p) != line_source(code, q),
{
}

/// The row of the base pattern that stands at the row of square `i`, within its
/// band.
pub open spec fn source_row(rows: Seq<usize>, i: int) -> int {
    line_source(rows[(i / 9) / 3] as int, (i / 9) % 3)
}

/// The column of the base pattern that stands at the column of square `i`, within
/// its band.
pub open spec fn source_col(cols: Seq<usize>, i: int) -> int {
    line_source(cols[(i % 9) / 3] as int, (i % 9) % 3)
}

/// The number of which the place of square `i` is the remainder by 9.
pub open spec fn pattern_key(rows: Seq<usize>, cols: Seq<usize>, i: int) -> int {
    3 * ((i % 9) / 3) + source_col(cols, i) + 3 * source_row(rows, i) + (i / 9) / 3
}

/// The place of a square in the pattern is the remainder of its key by 9, and the
/// key lies below 18.
pub proof fn lemma_pattern_key(rows: Seq<usize>, cols: Seq<usize>, i: int)
    requires
        0 <= i < 81,
    ensures
        0 <= source_row(rows, i) < 3,
        0 <= source_col(cols, i) < 3,
        0 <= pattern_key(rows, cols, i) < 18,
        pattern_place(rows, cols, i) == pattern_key(rows, cols, i) % 9,
        0 <= pattern_place(rows, cols, i) < 9,
{
    let r = i / 9;
    let c = i % 9;
    lemma_line_source(rows[r / 3] as int, r % 3, r % 3);
    lemma_line_source(cols[c / 3] as int, c % 3, c % 3);
    let a = source_row(rows, i);
    let sr = 3 * (r / 3) + a;
    assert(sr % 3 == a && sr / 3 == r / 3);
}

/// Keys of squares that share a line or a region differ, by less than nine. A key
/// is `3 * s + b + 3 * a + t` for a square of band `t` and stack `s` whose row and
/// column come from the lines `a` and `b` of the base pattern.
proof fn lemma_keys_differ(t1: int, a1: int, s1: int, b1: int, t2: int, a2: int, s2: int, b2: int)
    requires
        0 <= t1 < 3 && 0 <= a1 < 3 && 0 <= s1 < 3 && 0 <= b1 < 3,
        0 <= t2 < 3 && 0 <= a2 < 3 && 0 <= s2 < 3 && 0 <= b2 < 3,
        ({
            ||| t1 == t2 && a1 == a2 && (s1 != s2 || b1 != b2)
            ||| s1 == s2 && b1 == b2 && (t1 != t2 || a1 != a2)
            ||| t1 == t2 && s1 == s2 && (a1 != a2 || b1 != b2)
        }),
    ensures
        3 * s1 + b1 + 3 * a1 + t1 != 3 * s2 + b2 + 3 * a2 + t2,
        -9 < (3 * s1 + b1 + 3 * a1 + t1) - (3 * s2 + b2 + 3 * a2 + t2) < 9,
{
}

/// Two different numbers below 18 that lie less than nine apart have different
/// remainders by 9.
proof fn lemma_remainders_differ(x: int, y: int)
    requires
        0 <= x < 18,
        0 <= y < 18,
        x != y,
        -9 < x - y < 9,
    ensures
        x % 9 != y % 9,
{
}

/// A number below nine splits into a band and a place within it.
proof fn lemma_split3(x: int)
    requires
        0 <= x < 9,
    ensures
        0 <= x / 3 < 3,
        0 <= x % 3 < 3,
        x == 3 * (x / 3) + x % 3,
{
}

/// Two squares that share a row, a column or a region take their digits from
/// different places of the permutation.
pub proof fn lemma_pattern_places(rows: Seq<usize>, cols: Seq<usize>, i: int, j: int)
    requires
        0 <= i < 81,
        0 <= j < 81,
        peers(i, j),
    ensures
        0 <= pattern_place(rows, cols, i) < 9,
        pattern_place(rows, cols, i) != pattern_place(rows, cols, j),
{
    lemma_pattern_key(rows, cols, i);
    lemma_pattern_key(rows, cols, j);
    let x1 = pattern_key(rows, cols, i);
    let x2 = pattern_key(rows, cols, j);
    assert(x1 != x2 && -9 < x1 - x2 < 9) by {
        lemma_decompose(i);
        lemma_decompose(j);
        let r1 = row_of(i);
        let c1 = col_of(i);
        let r2 = row_of(j);
        let c2 = col_of(j);
        lemma_split3(r1);
        lemma_split3(c1);
        lemma_split3(r2);
        lemma_split3(c2);
        let a1 = source_row(rows, i);
        let a2 = source_row(rows, j);
        let b1 = source_col(cols, i);
        let b2 = source_col(cols, j);
        if r1 / 3 == r2 / 3 {
            lemma_line_source(rows[r1 / 3] as int, r1 % 3, r2 % 3);
        }
        if c1 / 3 == c2 / 3 {
            lemma_line_source(cols[c1 / 3] as int, c1 % 3, c2 % 3);
        }
        if r1 == r2 {
            assert(c1 != c2);
        } else if c1 == c2 {
        } else {
            assert(region_of(i) == region_of(j));
            assert(r1 / 3 == r2 / 3 && c1 / 3 == c2 / 3);
        }
        lemma_keys_differ(r1 / 3, a1, c1 / 3, b1, r2 / 3, a2, c2 / 3, b2);
    }
    lemma_remainders_differ(x1, x2);
}

/// The digit of square `i` in the pattern.
fn pattern_digit(perm: &Vec<u8>, rows: &[usize; 3], cols: &[usize; 3], i: usize) -> (d: u8)
    requires
        perm.len() == 9,
        i < 81,
        are_swaps(rows@),
        are_swaps(cols@),
    ensures
        d == perm[pattern_place(rows@, cols@, i as int)],
        0 <= pattern_place(rows@, cols@, i as int) < 9,
{
    proof {
        lemma_pattern_key(rows@, cols@, i as int);
    }
    let r: usize = i / 9;
    let c: usize = i % 9;
    let sr: usize = 3 * (r / 3) + swapped_line(rows[r / 3], r % 3);
    let sc: usize = 3 * (c / 3) + swapped_line(cols[c / 3], c % 3);
    perm[(sc + 3 * (sr % 3) + sr / 3) % 9]
}

/// Which line of a band stands at place `p` after the swaps of `code`.
fn swapped_line(code: usize, p: usize) -> (q: usize)
    requires
        p < 3,
    ensures
        q == line_source(code as int, p as int),
        q < 3,
{
    if code == 1 {
        if p == 0 {
            1
        } else if p == 1 {
            0
        } else {
            2
        }
    } else if code == 2 {
        if p == 0 {
            2
        } else if p == 1 {
            1
        } else {
            0
        }
    } else if code == 3 {
        if p == 0 {
            0
        } else if p == 1 {
            2
        } else {
            1
        }
    } else if code == 4 {
        if p == 0 {
            1
        } else if p == 1 {
            2
        } else {
            0
        }
    } else if code == 5 {
        if p == 0 {
            2
        } else if p == 1 {
            0
        } else {
            1
        }
    } else {
        p
    }
}

/// The solved grid of the pattern for the permutation `perm` and the swaps `rows`
/// and `cols` of the three bands of rows and of columns. Promotion is not
/// automatic in it, and every square has its value for known answer.
pub fn fill_with(perm: &Vec<u8>, rows: &[usize; 3], cols: &[usize; 3]) -> (g: Grid)
    requires
        is_digit_permutation(perm@),
        are_swaps(rows@),
        are_swaps(cols@),
    ensures
        g@ == filled_pattern(perm@, rows@, cols@),
        g@.wf(),
        g@.sound(),
{
    let mut g: Grid = Grid::new();
    g.auto_promote = false;
    let ghost target = filled_pattern(perm@, rows@, cols@);
    let mut i: usize = 0;
    while i < 81
        invariant
            i <= 81,
            is_digit_permutation(perm@),
            are_swaps(rows@),
        are_swaps(cols@),
            target == filled_pattern(perm@, rows@, cols@),
            g.starting_cell_count == 0,
            !g.auto_promote,
            g.current_state == BoardState::Constructing,
            forall|j: int|
                0 <= j < i ==> (#[trigger] g@.cells[j]) == (Cell {
                    answer: target.cells[j].answer,
                    ..Cell::blank()
                }),
            forall|j: int| i <= j < 81 ==> (#[trigger] g@.cells[j]) == Cell::blank(),
        decreases 81 - i,
    {
        let ghost before = g@.cells;
        let d: u8 = pattern_digit(perm, rows, cols, i);
        g.cells[i].answer = Some(d);
        assert(g@.cells =~= before.update(i as int, Cell { answer: Some(d), ..before[i as int] }));
        i = i + 1;
    }
    proof {
        lemma_constant_masks();
        assert forall|j: int, k: int| 0 <= j < 81 && 0 <= k < 81 && #[trigger] peers(j, k) implies g@.cells[j].answer
            != g@.cells[k].answer by {
            lemma_pattern_places(rows@, cols@, j, k);
            lemma_pattern_places(rows@, cols@, k, j);
        }
        assert forall|j: int| 0 <= j < 81 implies (#[trigger] g@.cells[j]).wf() by {
            lemma_decompose(j);
            let other = if j == 0 {
                1
            } else {
                0
            };
            lemma_compose(0, other);
            lemma_compose(0, j % 9);
            if j / 9 == 0 {
                lemma_pattern_places(rows@, cols@, j, other);
            } else {
                lemma_pattern_places(rows@, cols@, j, j % 9);
            }
        }
    }
    let mut i: usize = 0;
    while i < 81
        invariant
            i <= 81,
            is_digit_permutation(perm@),
            are_swaps(rows@),
        are_swaps(cols@),
            target == filled_pattern(perm@, rows@, cols@),
            g@.wf(),
            g@.sound(),
            g@.state == BoardState::Constructing,
            g@.starting_cell_count == 0,
            !g@.auto_promote,
            forall|j: int| 0 <= j < 81 ==> (#[trigger] g@.cells[j]).answer == target.cells[j].answer,
            forall|j: int| 0 <= j < 81 ==> !(#[trigger] g@.cells[j]).is_given,
            forall|j: int| 0 <= j < i ==> (#[trigger] g@.cells[j]) == target.cells[j],
            forall|j: int| i <= j < 81 ==> (#[trigger] g@.cells[j]).value == 0,
        decreases 81 - i,
    {
        let ghost before = g@;
        let d: u8 = pattern_digit(perm, rows, cols, i);
        g.set_cell(Position::from_index(i), d);
        proof {
            before.lemma_sound_kept(g@);
            assert forall|j: int| 0 <= j < 81 implies (#[trigger] g@.cells[j]).answer
                == target.cells[j].answer && !g@.cells[j].is_given by {
                assert(g@.cells[j].narrows(before.cells[j]));
            }
            assert forall|j: int| 0 <= j < i + 1 implies (#[trigger] g@.cells[j]) == target.cells[j] by {
                assert(g@.cells[j].narrows(before.cells[j]));
            }
        }
        i = i + 1;
    }
    assert(g@ =~= target);
    g
}

/// A permutation of `v`, drawn at random. This is `SliceRandom::shuffle` of the
/// rand crate with the generator of the thread, `rand::rng()`: it reorders the
/// slice in place, so that what comes back holds what went in, each item as often.
/// Which order comes back is not said. Not proved here.
#[verifier::external_body]
fn shuffled(v: Vec<u8>) -> (r: Vec<u8>)
    ensures
        r@.to_multiset() == v@.to_multiset(),
{
    let mut v = v;
    v.shuffle(&mut rand::rng());
    v
}

/// A number below `n`, drawn at random. This is `Rng::random_range` of the rand
/// crate on the range from 0 to `n`, with the generator of the thread; it panics
/// on an empty range, which `n > 0` leaves out. Not proved here.
#[verifier::external_body]
fn random_below(n: usize) -> (r: usize)
    requires
        n > 0,
    ensures
        r < n,
{
    rand::rng().random_range(0..n)
}

/// What has the same items as the digits from 1 to 9 in order is a permutation of
/// the digits.
proof fn lemma_shuffled_digits(digits: Seq<u8>, perm: Seq<u8>)
    requires
        digits == seq![1u8, 2u8, 3u8, 4u8, 5u8, 6u8, 7u8, 8u8, 9u8],
        perm.to_multiset() == digits.to_multiset(),
    ensures
        is_digit_permutation(perm),
{
    digits.to_multiset_ensures();
    perm.to_multiset_ensures();
    assert(digits.no_duplicates());
    digits.lemma_multiset_has_no_duplicates();
    perm.lemma_multiset_has_no_duplicates_conv();
    assert forall|i: int| 0 <= i < 9 implies 1 <= #[trigger] perm[i] <= 9 by {
        assert(perm.contains(perm[i]));
        assert(perm.to_multiset().count(perm[i]) > 0);
        assert(digits.to_multiset().count(perm[i]) > 0);
        assert(digits.contains(perm[i]));
        let k = choose|k: int| 0 <= k < digits.len() && digits[k] == perm[i];
        assert(1 <= digits[k] <= 9);
    }
}

/// Fills the grid with a solved grid drawn at random: the pattern of `fill_with`
/// for a random permutation of the digits and random swaps within the bands.
pub fn fill_board(grid: &mut Grid)
    ensures
        exists|perm: Seq<u8>, rows: Seq<usize>, cols: Seq<usize>|
            is_digit_permutation(perm) && are_swaps(rows) && are_swaps(cols) && final(grid)@
                == #[trigger] filled_pattern(perm, rows, cols),
        final(grid)@.wf(),
        final(grid)@.sound(),
        !final(grid)@.auto_promote,
{
    let mut digits: Vec<u8> = Vec::new();
    digits.push(1);
    digits.push(2);
    digits.push(3);
    digits.push(4);
    digits.push(5);
    digits.push(6);
    digits.push(7);
    digits.push(8);
    digits.push(9);
    let ghost listed = digits@;
    assert(listed =~= seq![1u8, 2u8, 3u8, 4u8, 5u8, 6u8, 7u8, 8u8, 9u8]);
    let perm: Vec<u8> = shuffled(digits);
    proof {
        lemma_shuffled_digits(listed, perm@);
    }
    let rows: [usize; 3] = [random_below(6), random_below(6), random_below(6)];
    let cols: [usize; 3] = [random_below(6), random_below(6), random_below(6)];
    let filled: Grid = fill_with(&perm, &rows, &cols);
    *grid = filled;
    assert(grid@ == filled_pattern(perm@, rows@, cols@));
}

/// The grid on which the removal of square `idx` is tried: a copy without the
/// value of that square, without known answers and without automatic promotion.
pub open spec fn trial(b: Board, idx: int) -> Board {
    b.copy_without(idx, false, false)
}

/// Whether the rules recover square `idx` once its value is removed: solving the
/// trial grid gives the square its known answer.
pub open spec fn recoverable(b: Board, rules: Seq<Rule>, idx: int) -> bool {
    solved(trial(b, idx), rules).cells[idx].value == b.cells[idx].answer->0
}

/// The place, from `i` on, of the first rule whose application in full changes the
/// grid; the length of `rules` where there is none.
pub open spec fn firing_rule(b: Board, rules: Seq<Rule>, i: int) -> int
    decreases rules.len() - i,
{
    if i < 0 || i >= rules.len() {
        rules.len() as int
    } else if rules[i].apply(b) != b {
        i
    } else {
        firing_rule(b, rules, i + 1)
    }
}

/// How often each rule fires while the grid is solved, added to `counts`: each
/// time the walk through the rules starts again, the rule that changed the grid
/// counts once.
pub open spec fn tally(b: Board, rules: Seq<Rule>, counts: Seq<usize>) -> Seq<usize>
    decreases b.weight(),
{
    let i = firing_rule(b, rules, 0);
    if first_change(b, rules, 0).weight() < b.weight() {
        tally(first_change(b, rules, 0), rules, counts.update(i, (counts[i] + 1) as usize))
    } else {
        counts
    }
}

/// As many zeros as there are rules.
pub open spec fn no_counts(n: int) -> Seq<usize> {
    Seq::new(n as nat, |i: int| 0usize)
}

/// The first `n` counts weigh at most `limit` each, times the sum of the powers.
proof fn lemma_weighted_bound(counts: Seq<usize>, n: int, limit: nat)
    requires
        0 <= n <= counts.len(),
        forall|i: int| 0 <= i < n ==> #[trigger] counts[i] <= limit,
    ensures
        4 * weighted(counts, n) + limit <= limit * pow5(n as nat),
    decreases n,
{
    if n > 0 {
        lemma_weighted_bound(counts, n - 1, limit);
        let c = counts[n - 1] as nat;
        let p = pow5((n - 1) as nat);
        let w = weighted(counts, n - 1);
        lemma_pow5_positive((n - 1) as nat);
        assert(c * p <= limit * p) by (nonlinear_arith)
            requires
                c <= limit,
                p >= 1,
        ;
        assert(limit * pow5(n as nat) == 5 * (limit * p)) by (nonlinear_arith)
            requires
                pow5(n as nat) == 5 * p,
        ;
        assert(weighted(counts, n) == w + c * p);
        assert(4 * w + limit <= limit * p);
    } else {
        assert(pow5(0) == 1);
        assert(limit * pow5(0) == limit) by (nonlinear_arith)
            requires
                pow5(0) == 1,
        ;
    }
}

/// Powers of five below the ninth.
proof fn lemma_pow5_small(n: nat)
    requires
        n <= 8,
    ensures
        pow5(n) <= 390625,
{
    reveal_with_fuel(pow5, 10);
}

/// Tries the removal of the square at `pos_to_remove`: a copy of the grid without
/// that value is solved with `solvers`, and the rules that fire are counted.
/// Returns the difficulty of that solve if it gives the square its known answer
/// again, and none if it does not. The grid itself is left as it is.
pub fn ranked_solve_removal(grid: &Grid, solvers: &Vec<Solver>, pos_to_remove: Position) -> (r:
    Option<SolveDifficulty>)
    requires
        grid@.wf(),
        pos_to_remove.in_grid(),
        grid@.cells[pos_to_remove.index()].answer is Some,
        solvers.len() <= 8,
    ensures
        r is Some <==> recoverable(grid@, rules_of(solvers@), pos_to_remove.index()),
        r matches Some(d) ==> {
            &&& d.solver_counts@ == tally(
                trial(grid@, pos_to_remove.index()),
                rules_of(solvers@),
                no_counts(solvers.len() as int),
            )
            &&& d.difficulty == weighted(d.solver_counts@, solvers.len() as int)
        },
{
    let ghost rules = rules_of(solvers@);
    let index: usize = pos_to_remove.get_index();
    let mut new_grid: Grid = grid.copy_without(index, false, false);
    let answer: u8 = match grid.cells[index].answer {
        Some(a) => a,
        None => 0,
    };
    let ghost start = new_grid@;
    let mut rule_counts: Vec<usize> = Vec::new();
    while rule_counts.len() < solvers.len()
        invariant
            rule_counts.len() <= solvers.len(),
            forall|i: int| 0 <= i < rule_counts.len() ==> #[trigger] rule_counts[i] == 0,
        decreases solvers.len() - rule_counts.len(),
    {
        rule_counts.push(0);
    }
    proof {
        assert(rule_counts@ =~= no_counts(solvers.len() as int));
        lemma_mask_sum_bound(start.cells);
        start.lemma_advances_self();
    }
    let mut dirty: bool = true;
    while dirty
        invariant
            rules == rules_of(solvers@),
            solvers.len() <= 8,
            new_grid@.wf(),
            start.weight() <= 41392,
            rule_counts.len() == solvers.len(),
            forall|i: int|
                0 <= i < rule_counts.len() ==> #[trigger] rule_counts[i] + new_grid@.weight()
                    <= start.weight(),
            solved(new_grid@, rules) == solved(start, rules),
            tally(new_grid@, rules, rule_counts@) == tally(
                start,
                rules,
                no_counts(solvers.len() as int),
            ),
            !dirty ==> first_change(new_grid@, rules, 0) == new_grid@,
        decreases new_grid@.weight(), if dirty { 1int } else { 0int },
    {
        dirty = false;
        let ghost before = new_grid@;
        let ghost counted = rule_counts@;
        let mut i: usize = 0;
        while i < solvers.len() && !dirty
            invariant
                i <= solvers.len(),
                rules == rules_of(solvers@),
                before.wf(),
                before.advances(new_grid@),
                rule_counts.len() == solvers.len(),
                start.weight() <= 41392,
                forall|k: int|
                    0 <= k < counted.len() ==> #[trigger] counted[k] + before.weight()
                        <= start.weight(),
                !dirty ==> new_grid@ == before && rule_counts@ == counted && first_change(
                    before,
                    rules,
                    i as int,
                ) == first_change(before, rules, 0) && firing_rule(before, rules, i as int)
                    == firing_rule(before, rules, 0),
                dirty ==> 1 <= i,
                counted.len() == solvers.len(),
                dirty ==> new_grid@ == first_change(before, rules, 0) && new_grid@ != before
                    && firing_rule(before, rules, 0) == i - 1 && rule_counts@ == counted.update(
                    i - 1,
                    (counted[i - 1] + 1) as usize,
                ),
            decreases solvers.len() - i,
        {
            assert(rules[i as int] == solvers@[i as int].rule);
            dirty = solvers[i].solve_all(&mut new_grid);
            if dirty {
                let c: usize = rule_counts[i];
                assert(counted[i as int] + before.weight() <= start.weight());
                rule_counts.set(i, c + 1);
            }
            i = i + 1;
        }
        proof {
            if dirty {
                assert(new_grid@.weight() < before.weight());
                let fired = firing_rule(before, rules, 0);
                assert(0 <= fired < counted.len());
                assert forall|k: int| 0 <= k < rule_counts.len() implies #[trigger] rule_counts[k]
                    + new_grid@.weight() <= start.weight() by {
                    assert(counted[k] + before.weight() <= start.weight());
                    assert(counted[fired] + before.weight() <= start.weight());
                    assert(rule_counts@ == counted.update(fired, (counted[fired] + 1) as usize));
                    if k == fired {
                        assert(rule_counts@[k] == (counted[fired] + 1) as usize);
                    } else {
                        assert(rule_counts@[k] == counted[k]);
                    }
                }
                assert(tally(before, rules, counted) == tally(new_grid@, rules, rule_counts@));
                assert(solved(before, rules) == solved(new_grid@, rules));
            }
        }
    }
    if new_grid.cells[index].value != answer {
        return None;
    }
    proof {
        let n = solvers.len() as int;
        assert forall|i: int| 0 <= i < n implies #[trigger] rule_counts@[i] <= 41392nat by {
            assert(rule_counts[i] + new_grid@.weight() <= start.weight());
        }
        lemma_weighted_bound(rule_counts@, n, 41392);
        lemma_pow5_small(n as nat);
        assert(41392 * pow5(n as nat) <= 41392 * 390625) by (nonlinear_arith)
            requires
                pow5(n as nat) <= 390625,
        ;
    }
    Some(SolveDifficulty::new(rule_counts))
}

/// The value that square `idx` has when it first gets one while the grid is
/// solved: after each walk through the rules that changes the grid the square is
/// looked at. 0 where the grid is settled before the square has a value.
pub open spec fn early_value(b: Board, rules: Seq<Rule>, idx: int) -> u8
    decreases b.weight(),
{
    let next = first_change(b, rules, 0);
    if next.cells[idx].value != 0 {
        next.cells[idx].value
    } else if next.weight() < b.weight() {
        early_value(next, rules, idx)
    } else {
        0
    }
}

/// Tries the removal of the square at `pos`: a copy of the grid without that value
/// is solved with `solvers`, only until the square has a value again. Returns the
/// known answer of the square if that value is the answer, and none if it is not,
/// if the rules give the square no value, or if the square has no known answer.
pub fn try_solve(grid: &Grid, solvers: &Vec<Solver>, pos: Position) -> (r: Option<u8>)
    requires
        grid@.wf(),
        pos.in_grid(),
    ensures
        r == match grid@.cells[pos.index()].answer {
            Some(a) => if early_value(trial(grid@, pos.index()), rules_of(solvers@), pos.index())
                == a {
                Some(a)
            } else {
                None
            },
            None => None,
        },
{
    let ghost rules = rules_of(solvers@);
    let index: usize = pos.get_index();
    let answer: u8 = match grid.cells[index].answer {
        Some(a) => a,
        None => {
            return None;
        },
    };
    assert(grid@.cells[index as int].wf());
    let mut new_grid: Grid = grid.copy_without(index, false, false);
    let ghost start = new_grid@;
    let mut found: u8 = 0;
    let mut dirty: bool = true;
    while dirty
        invariant
            rules == rules_of(solvers@),
            index < 81,
            new_grid@.wf(),
            dirty ==> found == 0 && early_value(new_grid@, rules, index as int) == early_value(
                start,
                rules,
                index as int,
            ),
            !dirty ==> found == early_value(start, rules, index as int),
        decreases new_grid@.weight(), if dirty { 1int } else { 0int },
    {
        dirty = false;
        let ghost before = new_grid@;
        let mut i: usize = 0;
        while i < solvers.len() && !dirty
            invariant
                i <= solvers.len(),
                rules == rules_of(solvers@),
                before.wf(),
                before.advances(new_grid@),
                !dirty ==> new_grid@ == before && first_change(before, rules, i as int)
                    == first_change(before, rules, 0),
                dirty ==> new_grid@ == first_change(before, rules, 0) && new_grid@ != before,
            decreases solvers.len() - i,
        {
            assert(rules[i as int] == solvers@[i as int].rule);
            dirty = solvers[i].solve_all(&mut new_grid);
            i = i + 1;
        }
        if new_grid.cells[index].value != 0 {
            found = new_grid.cells[index].value;
            dirty = false;
        }
    }
    if found == answer {
        Some(answer)
    } else {
        None
    }
}

/// The highest of the first `n` scores; 0 where there is none.
pub open spec fn top_score(scores: Seq<Option<usize>>, n: int) -> usize
    decreases n,
{
    if n <= 0 {
        0
    } else {
        let rest = top_score(scores, n - 1);
        match scores[n - 1] {
            Some(d) => if d > rest {
                d
            } else {
                rest
            },
            None => rest,
        }
    }
}

/// The squares among the first `n` of `pool` whose score is `top`, in the order of
/// the pool.
pub open spec fn top_cells(pool: Seq<usize>, scores: Seq<Option<usize>>, top: usize, n: int) -> Seq<
    usize,
>
    decreases n,
{
    if n <= 0 {
        Seq::empty()
    } else if scores[n - 1] == Some(top) {
        top_cells(pool, scores, top, n - 1).push(pool[n - 1])
    } else {
        top_cells(pool, scores, top, n - 1)
    }
}

/// Whether square `c` stands in `pool` at a place that has a score.
pub open spec fn scored(pool: Seq<usize>, scores: Seq<Option<usize>>, c: usize) -> bool {
    exists|i: int| 0 <= i < pool.len() && #[trigger] pool[i] == c && scores[i] is Some
}

/// The squares of `pool` whose removal scored highest: `scores[i]` is the score
/// of `pool[i]`, none for a square that cannot be removed.
pub fn hardest(pool: &Vec<usize>, scores: &Vec<Option<usize>>) -> (best: Vec<usize>)
    requires
        pool.len() == scores.len(),
    ensures
        best@ == top_cells(
            pool@,
            scores@,
            top_score(scores@, scores.len() as int),
            scores.len() as int,
        ),
        forall|k: int| 0 <= k < best.len() ==> scored(pool@, scores@, #[trigger] best[k]),
{
    let n: usize = scores.len();
    let mut top: usize = 0;
    let mut i: usize = 0;
    while i < n
        invariant
            i <= n,
            n == scores.len(),
            top == top_score(scores@, i as int),
        decreases n - i,
    {
        match scores[i] {
            Some(d) => {
                if d > top {
                    top = d;
                }
            },
            None => {},
        }
        i = i + 1;
    }
    let mut best: Vec<usize> = Vec::new();
    let mut i: usize = 0;
    while i < n
        invariant
            i <= n,
            n == scores.len(),
            n == pool.len(),
            best@ == top_cells(pool@, scores@, top, i as int),
            forall|k: int| 0 <= k < best.len() ==> scored(pool@, scores@, #[trigger] best[k]),
        decreases n - i,
    {
        let hit: bool = match scores[i] {
            Some(d) => d == top,
            None => false,
        };
        if hit {
            let ghost before = best@;
            best.push(pool[i]);
            assert forall|k: int| 0 <= k < best.len() implies scored(
                pool@,
                scores@,
                #[trigger] best[k],
            ) by {
                if k < before.len() {
                    assert(scored(pool@, scores@, before[k]));
                } else {
                    assert(pool@[i as int] == best[k]);
                }
            }
        }
        i = i + 1;
    }
    best
}

/// Whether solving a copy of the puzzle gives square `c` its known answer.
pub open spec fn puzzle_recovers(b: Board, rules: Seq<Rule>, c: int) -> bool {
    solved(b.copy_without(81, false, false), rules).cells[c].value == b.cells[c].answer->0
}

/// A square whose removal was found recoverable is recovered from the puzzle that
/// its removal leaves.
proof fn lemma_removal_recovered(b: Board, rules: Seq<Rule>, c: int)
    requires
        b.wf(),
        0 <= c < 81,
        recoverable(b, rules, c),
        b.unset(c).valid(),
        b.valid(),
    ensures
        puzzle_recovers(b.unset(c), rules, c),
{
    let after = b.unset(c);
    let start = b.fresh(false, false);
    assert(after.fresh(false, false) =~= start);
    b.lemma_replay_same(after, start, c, 81, 81);
}

/// The score of the removal of square `c`: the difficulty of the solve that recovers
/// it, none where the rules do not recover it.
pub open spec fn score(b: Board, rules: Seq<Rule>, c: int) -> Option<usize> {
    if recoverable(b, rules, c) {
        Some(
            weighted(
                tally(trial(b, c), rules, no_counts(rules.len() as int)),
                rules.len() as int,
            ) as usize,
        )
    } else {
        None
    }
}

/// The scores of the squares of `pool`, in the order of the pool.
pub open spec fn scores_of(b: Board, rules: Seq<Rule>, pool: Seq<usize>) -> Seq<Option<usize>> {
    Seq::new(pool.len(), |k: int| score(b, rules, pool[k] as int))
}

/// The squares of `pool` whose removal scores highest.
pub open spec fn hardest_of(b: Board, rules: Seq<Rule>, pool: Seq<usize>) -> Seq<usize> {
    top_cells(
        pool,
        scores_of(b, rules, pool),
        top_score(scores_of(b, rules, pool), pool.len() as int),
        pool.len() as int,
    )
}

/// The score of the removal of each square of `pool`: the difficulty of the solve
/// that recovers it, none where the rules do not recover it.
pub fn rank_removals(grid: &Grid, solvers: &Vec<Solver>, pool: &Vec<usize>) -> (scores: Vec<
    Option<usize>,
>)
    requires
        grid@.wf(),
        grid@.answered(),
        solvers.len() <= 8,
        forall|k: int| 0 <= k < pool.len() ==> #[trigger] pool[k] < 81,
    ensures
        scores@ == scores_of(grid@, rules_of(solvers@), pool@),
{
    let ghost rules = rules_of(solvers@);
    let mut scores: Vec<Option<usize>> = Vec::new();
    let mut i: usize = 0;
    while i < pool.len()
        invariant
            i <= pool.len(),
            scores.len() == i,
            solvers.len() <= 8,
            rules == rules_of(solvers@),
            grid@.wf(),
            grid@.answered(),
            forall|k: int| 0 <= k < pool.len() ==> #[trigger] pool[k] < 81,
            forall|k: int| 0 <= k < i ==> #[trigger] scores[k] == score(grid@, rules, pool[k] as int),
        decreases pool.len() - i,
    {
        let cell: usize = pool[i];
        let ranked: Option<SolveDifficulty> = ranked_solve_removal(
            grid,
            solvers,
            Position::from_index(cell),
        );
        let score: Option<usize> = match ranked {
            Some(d) => Some(d.difficulty),
            None => None,
        };
        scores.push(score);
        i = i + 1;
    }
    assert(scores@ =~= scores_of(grid@, rules, pool@));
    scores
}

/// The squares among the first `n` of `pool` that stay in play once square `gone`
/// is removed: those with a score, but for `gone` itself.
pub open spec fn kept_cells(pool: Seq<usize>, scores: Seq<Option<usize>>, gone: usize, n: int) -> Seq<
    usize,
>
    decreases n,
{
    if n <= 0 {
        Seq::empty()
    } else if scores[n - 1] is Some && pool[n - 1] != gone {
        kept_cells(pool, scores, gone, n - 1).push(pool[n - 1])
    } else {
        kept_cells(pool, scores, gone, n - 1)
    }
}

/// The squares of `pool` that stay in play once square `gone` is removed: those
/// with a score, but for `gone` itself.
pub fn still_in_play(pool: &Vec<usize>, scores: &Vec<Option<usize>>, gone: usize) -> (kept: Vec<
    usize,
>)
    requires
        pool.len() == scores.len(),
    ensures
        kept@ == kept_cells(pool@, scores@, gone, pool.len() as int),
        forall|t: int| 0 <= t < kept.len() ==> pool@.contains(#[trigger] kept[t]),
        scored(pool@, scores@, gone) ==> kept.len() < pool.len(),
        kept.len() <= pool.len(),
{
    let mut kept: Vec<usize> = Vec::new();
    let mut dropped: bool = false;
    let mut k: usize = 0;
    while k < pool.len()
        invariant
            k <= pool.len(),
            scores.len() == pool.len(),
            kept.len() <= k,
            dropped ==> kept.len() < k,
            kept@ == kept_cells(pool@, scores@, gone, k as int),
            forall|t: int| 0 <= t < kept.len() ==> pool@.contains(#[trigger] kept[t]),
            !dropped ==> forall|t: int| 0 <= t < k ==> #[trigger] pool[t] != gone,
        decreases pool.len() - k,
    {
        let keep: bool = match scores[k] {
            Some(_) => pool[k] != gone,
            None => false,
        };
        if keep {
            let ghost before = kept@;
            kept.push(pool[k]);
            assert forall|t: int| 0 <= t < kept.len() implies pool@.contains(#[trigger] kept[t]) by {
                if t < before.len() {
                    assert(pool@.contains(before[t]));
                } else {
                    assert(pool@[k as int] == kept[t]);
                }
            }
        } else {
            dropped = true;
        }
        k = k + 1;
    }
    proof {
        if scored(pool@, scores@, gone) {
            let j = choose|j: int| 0 <= j < pool.len() && #[trigger] pool[j] == gone && scores[j] is Some;
            assert(pool[j] == gone);
        }
    }
    kept
}

/// Where a pruning stands: the grid, the squares still in play, and the squares
/// removed so far in the order of their removal.
pub struct Pruning {
    pub board: Board,
    pub pool: Seq<usize>,
    pub removed: Seq<usize>,
}

/// The squares of the grid in index order.
pub open spec fn all_squares() -> Seq<usize> {
    Seq::new(81, |i: int| i as usize)
}

/// One round of pruning in which the choice falls on place `pick` among the
/// squares that score highest: that square loses its value, and it and the squares
/// without a score leave the play. Nothing changes where there is no such place.
#[verifier::opaque]
pub open spec fn prune_round(p: Pruning, rules: Seq<Rule>, pick: int) -> Pruning {
    let best = hardest_of(p.board, rules, p.pool);
    if 0 <= pick < best.len() {
        Pruning {
            board: p.board.unset(best[pick] as int),
            pool: kept_cells(
                p.pool,
                scores_of(p.board, rules, p.pool),
                best[pick],
                p.pool.len() as int,
            ),
            removed: p.removed.push(best[pick]),
        }
    } else {
        p
    }
}

/// The rounds of pruning for the choices `picks`, one after the other.
#[verifier::opaque]
pub open spec fn prune_rounds(start: Pruning, rules: Seq<Rule>, picks: Seq<int>) -> Pruning
    decreases picks.len(),
{
    if picks.len() == 0 {
        start
    } else {
        prune_round(prune_rounds(start, rules, picks.drop_last()), rules, picks.last())
    }
}

/// No round has been made before the first choice, and each further choice adds a
/// round.
pub proof fn lemma_prune_rounds(start: Pruning, rules: Seq<Rule>, picks: Seq<int>, pick: int)
    ensures
        prune_rounds(start, rules, Seq::empty()) == start,
        prune_rounds(start, rules, picks.push(pick)) == prune_round(
            prune_rounds(start, rules, picks),
            rules,
            pick,
        ),
{
    reveal_with_fuel(prune_rounds, 2);
    assert(picks.push(pick).drop_last() =~= picks);
}

/// Whether pruning the grid `start` with the choices `picks` removes the squares
/// `removed`, one in each round, leaves the grid `board`, and ends there: no square
/// still in play can be removed.
pub open spec fn prunes_to(
    start: Board,
    rules: Seq<Rule>,
    picks: Seq<int>,
    board: Board,
    removed: Seq<usize>,
) -> bool {
    let end = prune_rounds(
        Pruning { board: start, pool: all_squares(), removed: Seq::empty() },
        rules,
        picks,
    );
    &&& end.board == board
    &&& end.removed == removed
    &&& removed.len() == picks.len()
    &&& hardest_of(end.board, rules, end.pool).len() == 0
}

/// One round of pruning: the removal of every square in play is ranked, and one of
/// the squares that score highest, drawn at random, loses its value. Returns
/// whether no square could be removed; else the place of the choice among the
/// squares that score highest.
fn prune_once(
    grid: &mut Grid,
    solvers: &Vec<Solver>,
    set_cells: &mut Vec<usize>,
    removed: &mut Vec<usize>,
) -> (r: (bool, Ghost<int>))
    requires
        old(grid)@.wf(),
        old(grid)@.valid(),
        old(grid)@.answered(),
        !old(grid)@.auto_promote,
        solvers.len() <= 8,
        forall|k: int| 0 <= k < old(set_cells).len() ==> #[trigger] old(set_cells)[k] < 81,
    ensures
        r.0 ==> {
            &&& final(grid)@ == old(grid)@
            &&& final(set_cells)@ == old(set_cells)@
            &&& final(removed)@ == old(removed)@
            &&& hardest_of(old(grid)@, rules_of(solvers@), old(set_cells)@).len() == 0
        },
        !r.0 ==> {
            &&& (Pruning {
                board: final(grid)@,
                pool: final(set_cells)@,
                removed: final(removed)@,
            }) == prune_round(
                (Pruning { board: old(grid)@, pool: old(set_cells)@, removed: old(removed)@ }),
                rules_of(solvers@),
                r.1@,
            )
            &&& 0 <= r.1@ < hardest_of(old(grid)@, rules_of(solvers@), old(set_cells)@).len()
            &&& final(removed)@ == old(removed)@.push(final(removed)@.last())
            &&& final(removed)@.last() < 81
            &&& final(set_cells).len() < old(set_cells).len()
            &&& puzzle_recovers(final(grid)@, rules_of(solvers@), final(removed)@.last() as int)
            &&& forall|i: int|
                0 <= i < 81 ==> {
                    &&& (#[trigger] final(grid)@.cells[i]).answer == old(grid)@.cells[i].answer
                    &&& final(grid)@.cells[i].value == if i == final(removed)@.last() {
                        0
                    } else {
                        old(grid)@.cells[i].value
                    }
                }
        },
        final(grid)@.wf(),
        final(grid)@.valid(),
        final(grid)@.answered(),
        !final(grid)@.auto_promote,
        old(grid)@.pruned() ==> final(grid)@.pruned(),
        forall|k: int| 0 <= k < final(set_cells).len() ==> #[trigger] final(set_cells)[k] < 81,
{
    let ghost rules = rules_of(solvers@);
    let ghost before = grid@;
    proof {
        reveal(prune_round);
    }
    let scores: Vec<Option<usize>> = rank_removals(grid, solvers, set_cells);
    let best: Vec<usize> = hardest(set_cells, &scores);
    if best.len() == 0 {
        return (true, Ghost(0));
    }
    let pick: usize = random_below(best.len());
    let remove_index: usize = best[pick];
    proof {
        assert(scored(set_cells@, scores@, best[pick as int]));
        let j = choose|j: int|
            0 <= j < set_cells.len() && #[trigger] set_cells[j] == remove_index && scores[j] is Some;
        assert(scores[j] == score(before, rules, set_cells[j] as int));
        assert(recoverable(before, rules, set_cells[j] as int));
    }
    grid.unset_cell(Position::from_index(remove_index));
    proof {
        lemma_removal_recovered(before, rules, remove_index as int);
        assert forall|i: int| 0 <= i < 81 implies {
            &&& (#[trigger] grid@.cells[i]).answer == before.cells[i].answer
            &&& grid@.cells[i].value == if i == remove_index {
                0
            } else {
                before.cells[i].value
            }
        } by {}
        assert forall|i: int, j: int|
            0 <= i < 81 && 0 <= j < 81 && #[trigger] peers(i, j) implies grid@.cells[i].answer
            != grid@.cells[j].answer by {
            assert(before.cells[i].answer != before.cells[j].answer);
        }
    }
    removed.push(remove_index);
    let kept: Vec<usize> = still_in_play(set_cells, &scores, remove_index);
    proof {
        assert forall|t: int| 0 <= t < kept.len() implies #[trigger] kept[t] < 81 by {
            assert(set_cells@.contains(kept[t]));
        }
    }
    *set_cells = kept;
    (false, Ghost(pick as int))
}

/// Removes, one by one, the squares whose loss makes the puzzle hardest for
/// `solvers`. In each round the removal of every square still in play is tried; a
/// square that the rules do not recover leaves the play for good; of the others,
/// one of those with the highest difficulty, drawn at random, loses its value.
/// The rounds end when no square in play can be removed. Returns the squares that
/// lost their value, in the order of their removal. An invalid grid is left as it
/// is.
pub fn prune_hard(grid: &mut Grid, solvers: &Vec<Solver>) -> (removed: Vec<usize>)
    requires
        old(grid)@.wf(),
        old(grid)@.answered(),
        solvers.len() <= 8,
    ensures
        old(grid)@.valid() ==> exists|picks: Seq<int>| #[trigger]
            prunes_to(
                old(grid)@.with_auto_promote(false),
                rules_of(solvers@),
                picks,
                final(grid)@,
                removed@,
            ),
        !old(grid)@.valid() ==> removed.len() == 0 && final(grid)@ == old(grid)@.with_auto_promote(false),
        final(grid)@.wf(),
        final(grid)@.answered(),
        final(grid)@.valid() == old(grid)@.valid(),
        old(grid)@.sound() ==> final(grid)@.sound(),
        !final(grid)@.auto_promote,
        forall|i: int|
            0 <= i < 81 ==> {
                &&& (#[trigger] final(grid)@.cells[i]).answer == old(grid)@.cells[i].answer
                &&& (final(grid)@.cells[i].value == 0 || final(grid)@.cells[i].value == old(grid)@.cells[i].value)
            },
        forall|k: int|
            0 <= k < removed.len() ==> #[trigger] removed[k] < 81 && final(grid)@.cells[removed[k] as int].value == 0,
        removed.len() > 0 ==> puzzle_recovers(
            final(grid)@,
            rules_of(solvers@),
            removed[removed.len() - 1] as int,
        ),
{
    let ghost rules = rules_of(solvers@);
    let mut set_cells: Vec<usize> = Vec::new();
    while set_cells.len() < 81
        invariant
            set_cells.len() <= 81,
            forall|k: int| 0 <= k < set_cells.len() ==> #[trigger] set_cells[k] == k,
        decreases 81 - set_cells.len(),
    {
        set_cells.push(set_cells.len());
    }
    assert(set_cells@ =~= all_squares());
    grid.set_auto_promote(false);
    let mut removed: Vec<usize> = Vec::new();
    let ghost start = grid@;
    let ghost first = Pruning { board: start, pool: all_squares(), removed: Seq::empty() };
    let ghost mut picks: Seq<int> = Seq::empty();
    proof {
        assert forall|i: int, j: int|
            0 <= i < 81 && 0 <= j < 81 && #[trigger] peers(i, j) implies grid@.cells[i].answer
            != grid@.cells[j].answer by {
            assert(old(grid)@.cells[i].answer != old(grid)@.cells[j].answer);
        }
        assert forall|i: int| 0 <= i < 81 implies (#[trigger] grid@.cells[i]).answer is Some by {
            assert(old(grid)@.cells[i].answer is Some);
        }
        if old(grid)@.pruned() {
            assert forall|i: int, k: int| !#[trigger] grid@.clash(i, k) by {
                if grid@.clash(i, k) {
                    assert(old(grid)@.clash(i, k));
                }
            }
        }
        assert(removed@ =~= Seq::<usize>::empty());
        lemma_prune_rounds(first, rules, picks, 0);
    }
    if !grid.is_valid() {
        return removed;
    }
    let mut exhausted: bool = false;
    while !exhausted
        invariant
            rules == rules_of(solvers@),
            solvers.len() <= 8,
            grid@.wf(),
            grid@.valid(),
            old(grid)@.valid(),
            grid@.answered(),
            old(grid)@.pruned() ==> grid@.pruned(),
            !grid@.auto_promote,
            first == (Pruning { board: start, pool: all_squares(), removed: Seq::empty() }),
            start == old(grid)@.with_auto_promote(false),
            prune_rounds(first, rules, picks) == (Pruning {
                board: grid@,
                pool: set_cells@,
                removed: removed@,
            }),
            removed.len() == picks.len(),
            exhausted ==> hardest_of(grid@, rules, set_cells@).len() == 0,
            forall|k: int| 0 <= k < set_cells.len() ==> #[trigger] set_cells[k] < 81,
            forall|i: int|
                0 <= i < 81 ==> {
                    &&& (#[trigger] grid@.cells[i]).answer == old(grid)@.cells[i].answer
                    &&& (grid@.cells[i].value == 0 || grid@.cells[i].value == old(grid)@.cells[i].value)
                },
            forall|k: int|
                0 <= k < removed.len() ==> #[trigger] removed[k] < 81
                    && grid@.cells[removed[k] as int].value == 0,
            removed.len() > 0 ==> puzzle_recovers(
                grid@,
                rules,
                removed[removed.len() - 1] as int,
            ),
        decreases set_cells.len() + if exhausted { 0int } else { 1int },
    {
        let ghost before = grid@;
        let ghost round = Pruning { board: before, pool: set_cells@, removed: removed@ };
        let ghost gone = removed@;
        let outcome: (bool, Ghost<int>) = prune_once(grid, solvers, &mut set_cells, &mut removed);
        exhausted = outcome.0;
        proof {
            if !exhausted {
                let pick = outcome.1@;
                lemma_prune_rounds(first, rules, picks, pick);
                picks = picks.push(pick);
                assert forall|k: int| 0 <= k < removed.len() implies #[trigger] removed[k] < 81
                    && grid@.cells[removed[k] as int].value == 0 by {
                    if k < gone.len() {
                        assert(gone[k] < 81 && before.cells[gone[k] as int].value == 0);
                    }
                }
            }
        }
    }
    proof {
        assert(prunes_to(start, rules, picks, grid@, removed@));
    }
    removed
}

/// The squares of the grid as small numbers, in index order.
pub open spec fn square_numbers() -> Seq<u8> {
    Seq::new(81, |i: int| i as u8)
}

/// The numbers below 81 in a random order.
fn shuffled_squares() -> (order: Vec<u8>)
    ensures
        order@.to_multiset() == square_numbers().to_multiset(),
{
    let mut squares: Vec<u8> = Vec::new();
    while squares.len() < 81
        invariant
            squares.len() <= 81,
            forall|k: int| 0 <= k < squares.len() ==> #[trigger] squares[k] == k,
        decreases 81 - squares.len(),
    {
        squares.push(squares.len() as u8);
    }
    assert(squares@ =~= square_numbers());
    shuffled(squares)
}

/// Whether the rules recover square `c` as `try_solve` asks it: solving the trial
/// grid until the square has a value gives it its known answer.
pub open spec fn recovered_early(b: Board, rules: Seq<Rule>, c: int) -> bool {
    b.cells[c].answer matches Some(a) && early_value(trial(b, c), rules, c) == a
}

/// One turn of pruning in a given order: the square `c` loses its value if it has
/// one and the rules recover it.
#[verifier::opaque]
pub open spec fn order_round(p: Pruning, rules: Seq<Rule>, c: int) -> Pruning {
    if 0 <= c < 81 && p.board.cells[c].value != 0 && recovered_early(p.board, rules, c) {
        Pruning { board: p.board.unset(c), removed: p.removed.push(c as usize), ..p }
    } else {
        p
    }
}

/// The pruning after the last `k` squares of `order` had their turn, the last one
/// first.
#[verifier::opaque]
pub open spec fn pruned_in_order(start: Pruning, rules: Seq<Rule>, order: Seq<u8>, k: int) -> Pruning
    decreases k,
{
    if k <= 0 {
        start
    } else {
        order_round(
            pruned_in_order(start, rules, order, k - 1),
            rules,
            order[order.len() - k] as int,
        )
    }
}

/// Whether pruning the grid `start` in the order `order` removes the squares
/// `removed` and leaves the grid `board`.
pub open spec fn prunes_in_order(
    start: Board,
    rules: Seq<Rule>,
    order: Seq<u8>,
    board: Board,
    removed: Seq<usize>,
) -> bool {
    pruned_in_order(
        Pruning { board: start, pool: Seq::empty(), removed: Seq::empty() },
        rules,
        order,
        order.len() as int,
    ) == (Pruning { board, pool: Seq::empty(), removed })
}

/// No square has had its turn at the start, and each further square adds a turn.
pub proof fn lemma_pruned_in_order(start: Pruning, rules: Seq<Rule>, order: Seq<u8>, k: int)
    requires
        0 <= k,
    ensures
        pruned_in_order(start, rules, order, 0) == start,
        pruned_in_order(start, rules, order, k + 1) == order_round(
            pruned_in_order(start, rules, order, k),
            rules,
            order[order.len() - (k + 1)] as int,
        ),
{
    reveal_with_fuel(pruned_in_order, 2);
}

/// The turn of square `c`: it loses its value if it has one and `try_solve`
/// recovers it.
fn prune_turn(grid: &mut Grid, solvers: &Vec<Solver>, c: usize, removed: &mut Vec<usize>)
    requires
        old(grid)@.wf(),
        old(grid)@.valid(),
        old(grid)@.answered(),
        !old(grid)@.auto_promote,
    ensures
        (Pruning { board: final(grid)@, pool: Seq::empty(), removed: final(removed)@ })
            == order_round(
            (Pruning { board: old(grid)@, pool: Seq::empty(), removed: old(removed)@ }),
            rules_of(solvers@),
            c as int,
        ),
        final(grid)@.wf(),
        final(grid)@.valid(),
        final(grid)@.answered(),
        !final(grid)@.auto_promote,
        old(grid)@.pruned() ==> final(grid)@.pruned(),
        final(removed)@ == old(removed)@ || (c < 81 && final(removed)@ == old(removed)@.push(c)
            && final(grid)@.cells[c as int].value == 0),
        forall|i: int|
            0 <= i < 81 ==> {
                &&& (#[trigger] final(grid)@.cells[i]).answer == old(grid)@.cells[i].answer
                &&& (final(grid)@.cells[i].value == 0 || final(grid)@.cells[i].value == old(grid)@.cells[i].value)
            },
{
    proof {
        reveal(order_round);
    }
    if c < 81 && grid.cells[c].value != 0 {
        let pos: Position = Position::from_index(c);
        let solve: Option<u8> = try_solve(grid, solvers, pos);
        if solve.is_some() {
            let ghost before = grid@;
            grid.unset_cell(pos);
            proof {
                assert forall|i: int| 0 <= i < 81 implies {
                    &&& (#[trigger] grid@.cells[i]).answer == before.cells[i].answer
                    &&& grid@.cells[i].value == if i == c {
                        0
                    } else {
                        before.cells[i].value
                    }
                } by {}
                assert forall|i: int, j: int|
                    0 <= i < 81 && 0 <= j < 81 && #[trigger] peers(i, j) implies grid@.cells[i].answer
                    != grid@.cells[j].answer by {
                    assert(before.cells[i].answer != before.cells[j].answer);
                }
            }
            removed.push(c);
        }
    }
}

/// Removes squares in the order of `order`, from its last square to its first: each
/// square in turn loses its value if it has one and `try_solve` recovers it. Returns
/// the squares that lost their value, in the order of their removal. An invalid
/// grid is left as it is.
pub fn prune_in_order(grid: &mut Grid, solvers: &Vec<Solver>, order: &Vec<u8>) -> (removed: Vec<
    usize,
>)
    requires
        old(grid)@.wf(),
        old(grid)@.answered(),
    ensures
        old(grid)@.valid() ==> prunes_in_order(
            old(grid)@.with_auto_promote(false),
            rules_of(solvers@),
            order@,
            final(grid)@,
            removed@,
        ),
        !old(grid)@.valid() ==> removed.len() == 0 && final(grid)@ == old(grid)@.with_auto_promote(
            false,
        ),
        final(grid)@.wf(),
        final(grid)@.answered(),
        final(grid)@.valid() == old(grid)@.valid(),
        old(grid)@.sound() ==> final(grid)@.sound(),
        !final(grid)@.auto_promote,
        forall|i: int|
            0 <= i < 81 ==> {
                &&& (#[trigger] final(grid)@.cells[i]).answer == old(grid)@.cells[i].answer
                &&& (final(grid)@.cells[i].value == 0 || final(grid)@.cells[i].value == old(grid)@.cells[i].value)
            },
        forall|k: int|
            0 <= k < removed.len() ==> #[trigger] removed[k] < 81 && final(grid)@.cells[removed[k] as int].value == 0,
{
    let ghost rules = rules_of(solvers@);
    grid.set_auto_promote(false);
    let mut removed: Vec<usize> = Vec::new();
    let ghost start = grid@;
    let ghost first = Pruning { board: start, pool: Seq::empty(), removed: Seq::empty() };
    proof {
        assert forall|i: int, j: int|
            0 <= i < 81 && 0 <= j < 81 && #[trigger] peers(i, j) implies grid@.cells[i].answer
            != grid@.cells[j].answer by {
            assert(old(grid)@.cells[i].answer != old(grid)@.cells[j].answer);
        }
        assert forall|i: int| 0 <= i < 81 implies (#[trigger] grid@.cells[i]).answer is Some by {
            assert(old(grid)@.cells[i].answer is Some);
        }
        if old(grid)@.pruned() {
            assert forall|i: int, k: int| !#[trigger] grid@.clash(i, k) by {
                if grid@.clash(i, k) {
                    assert(old(grid)@.clash(i, k));
                }
            }
        }
        assert(removed@ =~= Seq::<usize>::empty());
        lemma_pruned_in_order(first, rules, order@, 0);
    }
    if !grid.is_valid() {
        return removed;
    }
    let mut k: usize = 0;
    while k < order.len()
        invariant
            k <= order.len(),
            rules == rules_of(solvers@),
            grid@.wf(),
            grid@.valid(),
            old(grid)@.valid(),
            grid@.answered(),
            old(grid)@.pruned() ==> grid@.pruned(),
            !grid@.auto_promote,
            pruned_in_order(first, rules, order@, k as int) == (Pruning {
                board: grid@,
                pool: Seq::empty(),
                removed: removed@,
            }),
            forall|i: int|
                0 <= i < 81 ==> {
                    &&& (#[trigger] grid@.cells[i]).answer == old(grid)@.cells[i].answer
                    &&& (grid@.cells[i].value == 0 || grid@.cells[i].value == old(grid)@.cells[i].value)
                },
            forall|t: int|
                0 <= t < removed.len() ==> #[trigger] removed[t] < 81
                    && grid@.cells[removed[t] as int].value == 0,
        decreases order.len() - k,
    {
        let cell_index: usize = order[order.len() - 1 - k] as usize;
        let ghost before = grid@;
        let ghost gone = removed@;
        proof {
            lemma_pruned_in_order(first, rules, order@, k as int);
        }
        prune_turn(grid, solvers, cell_index, &mut removed);
        proof {
            assert forall|t: int| 0 <= t < removed.len() implies #[trigger] removed[t] < 81
                && grid@.cells[removed[t] as int].value == 0 by {
                if t < gone.len() {
                    assert(gone[t] < 81 && before.cells[gone[t] as int].value == 0);
                }
            }
        }
        k = k + 1;
    }
    removed
}

/// Removes squares in a random order: each square in turn loses its value if
/// `try_solve` recovers it, and keeps it if not. Returns the squares that lost
/// their value, in the order of their removal.
pub fn prune_board(grid: &mut Grid, solvers: &Vec<Solver>) -> (removed: Vec<usize>)
    requires
        old(grid)@.wf(),
        old(grid)@.answered(),
    ensures
        old(grid)@.valid() ==> exists|order: Seq<u8>|
            order.to_multiset() == square_numbers().to_multiset() && #[trigger] prunes_in_order(
                old(grid)@.with_auto_promote(false),
                rules_of(solvers@),
                order,
                final(grid)@,
                removed@,
            ),
        !old(grid)@.valid() ==> removed.len() == 0 && final(grid)@ == old(grid)@.with_auto_promote(
            false,
        ),
        final(grid)@.wf(),
        final(grid)@.answered(),
        final(grid)@.valid() == old(grid)@.valid(),
        old(grid)@.sound() ==> final(grid)@.sound(),
        !final(grid)@.auto_promote,
        forall|i: int|
            0 <= i < 81 ==> {
                &&& (#[trigger] final(grid)@.cells[i]).answer == old(grid)@.cells[i].answer
                &&& (final(grid)@.cells[i].value == 0 || final(grid)@.cells[i].value == old(grid)@.cells[i].value)
            },
        forall|k: int|
            0 <= k < removed.len() ==> #[trigger] removed[k] < 81 && final(grid)@.cells[removed[k] as int].value == 0,
{
    let order: Vec<u8> = shuffled_squares();
    prune_in_order(grid, solvers, &order)
}

/// The puzzle that a pruned grid makes: its values written to a fresh grid with the
/// known answers, and each square that holds a value marked as a given.
pub open spec fn as_puzzle(b: Board) -> Board {
    let copy = b.copy_without(81, true, false);
    Board {
        cells: Seq::new(
            81,
            |i: int| Cell { is_given: copy.cells[i].value != 0, ..copy.cells[i] },
        ),
        ..copy
    }
}

/// Whether `g` is the puzzle that comes of the pattern for the permutation `perm`
/// and the swaps `rows` and `cols`, pruned for `rules` with the choices `picks`
/// until no square in play can be removed.
pub open spec fn generated(
    g: Board,
    rules: Seq<Rule>,
    perm: Seq<u8>,
    rows: Seq<usize>,
    cols: Seq<usize>,
    picks: Seq<int>,
) -> bool {
    let end = prune_rounds(
        Pruning {
            board: filled_pattern(perm, rows, cols),
            pool: all_squares(),
            removed: Seq::empty(),
        },
        rules,
        picks,
    );
    &&& is_digit_permutation(perm)
    &&& are_swaps(rows)
    &&& are_swaps(cols)
    &&& end.removed.len() == picks.len()
    &&& hardest_of(end.board, rules, end.pool).len() == 0
    &&& g == as_puzzle(end.board)
}

/// A puzzle drawn at random, with every rule of the ladder at the solver's hand.
pub fn create_board() -> (g: Grid)
    ensures
        exists|perm: Seq<u8>, rows: Seq<usize>, cols: Seq<usize>, picks: Seq<int>| #[trigger]
            generated(g@, enabled_rules(Seq::empty(), 8), perm, rows, cols, picks),
        g@.wf(),
        g@.sound(),
        !g@.auto_promote,
        forall|i: int| 0 <= i < 81 ==> (#[trigger] g@.cells[i]).is_given == (g@.cells[i].value != 0),
{
    proof {
        reveal_strlit("");
        assert(""@ =~= Seq::<char>::empty());
    }
    let solvers: Vec<Solver> = get_solvers("");
    create_puzzle(&solvers)
}

/// The pruned grid as a puzzle: its values are written to a fresh grid with the
/// known answers, and each square that holds a value is marked as a given.
pub fn finish_puzzle(grid: &Grid) -> (g: Grid)
    requires
        grid@.wf(),
    ensures
        g@ == as_puzzle(grid@),
        g@.wf(),
        grid@.answered() ==> g@.sound(),
        !g@.auto_promote,
        forall|i: int| 0 <= i < 81 ==> (#[trigger] g@.cells[i]).is_given == (g@.cells[i].value != 0),
{
    let mut new_grid: Grid = grid.copy_grid(true, false);
    let ghost copied = new_grid@;
    let mut i: usize = 0;
    while i < 81
        invariant
            i <= 81,
            copied.wf(),
            new_grid.starting_cell_count == copied.starting_cell_count,
            new_grid.auto_promote == copied.auto_promote,
            new_grid.current_state == copied.state,
            forall|j: int|
                0 <= j < i ==> (#[trigger] new_grid@.cells[j]) == (Cell {
                    is_given: copied.cells[j].value != 0,
                    ..copied.cells[j]
                }),
            forall|j: int| i <= j < 81 ==> (#[trigger] new_grid@.cells[j]) == copied.cells[j],
        decreases 81 - i,
    {
        let ghost before = new_grid@.cells;
        let given: bool = new_grid.cells[i].value != 0;
        new_grid.cells[i].is_given = given;
        assert(new_grid@.cells =~= before.update(
            i as int,
            Cell { is_given: given, ..before[i as int] },
        ));
        i = i + 1;
    }
    proof {
        assert(new_grid@ =~= as_puzzle(grid@));
        assert forall|j: int| 0 <= j < 81 implies (#[trigger] new_grid@.cells[j]).wf() by {
            assert(copied.cells[j].wf());
        }
        assert forall|j: int, k: int|
            0 <= j < 81 && 0 <= k < 81 && #[trigger] peers(j, k) && new_grid@.cells[j].value
                != 0 implies new_grid@.cells[j].value != new_grid@.cells[k].value by {
            assert(copied.cells[j].value == new_grid@.cells[j].value);
            assert(copied.cells[k].value == new_grid@.cells[k].value);
        }
        if grid@.answered() {
            assert forall|j: int, k: int|
                0 <= j < 81 && 0 <= k < 81 && #[trigger] peers(j, k) implies new_grid@.cells[j].answer
                != new_grid@.cells[k].answer by {
                assert(copied.cells[j].answer != copied.cells[k].answer);
            }
            assert forall|j: int| 0 <= j < 81 implies (#[trigger] new_grid@.cells[j]).answer is Some by {
                assert(copied.cells[j].answer is Some);
            }
            assert forall|j: int, k: int| !#[trigger] new_grid@.clash(j, k) by {
                if new_grid@.clash(j, k) {
                    assert(copied.cells[j].value == new_grid@.cells[j].value);
                    assert(copied.cells[k].candidates == new_grid@.cells[k].candidates);
                    assert(copied.clash(j, k));
                }
            }
        }
    }
    new_grid
}

/// A puzzle drawn at random for the rules of `solvers`: a solved grid is filled,
/// squares are removed as `prune_hard` does, and what is left is copied to a fresh
/// grid with the known answers, the squares that still hold a value marked as
/// givens.
pub fn create_puzzle(solvers: &Vec<Solver>) -> (g: Grid)
    requires
        solvers.len() <= 8,
    ensures
        exists|perm: Seq<u8>, rows: Seq<usize>, cols: Seq<usize>, picks: Seq<int>| #[trigger]
            generated(g@, rules_of(solvers@), perm, rows, cols, picks),
        g@.wf(),
        g@.sound(),
        !g@.auto_promote,
        forall|i: int| 0 <= i < 81 ==> (#[trigger] g@.cells[i]).is_given == (g@.cells[i].value != 0),
{
    let mut grid: Grid = Grid::new();
    fill_board(&mut grid);
    let ghost filled = grid@;
    let removed: Vec<usize> = prune_hard(&mut grid, solvers);
    let g: Grid = finish_puzzle(&grid);
    proof {
        let rules = rules_of(solvers@);
        let (perm, rows, cols) = choose|perm: Seq<u8>, rows: Seq<usize>, cols: Seq<usize>|
            is_digit_permutation(perm) && are_swaps(rows) && are_swaps(cols) && filled
                == #[trigger] filled_pattern(perm, rows, cols);
        assert(filled.with_auto_promote(false) =~= filled);
        let picks = choose|picks: Seq<int>| #[trigger]
            prunes_to(filled.with_auto_promote(false), rules, picks, grid@, removed@);
        assert(generated(g@, rules, perm, rows, cols, picks));
    }
    g
}

} // verus!
