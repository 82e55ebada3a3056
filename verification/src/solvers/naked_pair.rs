//! Naked pair, triple and quad: a few squares of a group that share as many
//! candidates keep those digits for themselves.

use crate::board::Board;
use crate::grid::Grid;
use crate::mask::{
    allows, count, count_candidates, digit_mask, has_bit, lemma_add_digit, lemma_constant_masks,
    lemma_count_within, lemma_single_bit, lemma_union,
};
use crate::position::{group_cell, lemma_unit_cells, peers, unit_cell};
use crate::search::{first_hit, lemma_first_hit};
use crate::solvers::{run_rule, Rule};
use itertools::Itertools;
use vstd::prelude::*;

verus! {

/// Whether the squares at places `m / 9` and `m % 9` of group `u`, the first before
/// the second, have the same candidates, two in number.
pub open spec fn pair_at(b: Board, u: int, m: int) -> bool {
    let first = b.cells[unit_cell(u, m / 9)].candidates;
    let second = b.cells[unit_cell(u, m % 9)].candidates;
    m / 9 < m % 9 && count(first) == 2 && first == second
}

/// The attempt at group `u`: the first naked pair of the group, in the order of
/// its places, has its two digits struck from the other squares of the group.
pub open spec fn naked_pair_at(b: Board, u: int) -> Board {
    let m = first_hit(|m: int| pair_at(b, u, m), 0, 81);
    if b.valid() && m < 81 {
        b.strike(
            u,
            (1u16 << ((m / 9) as u16)) | (1u16 << ((m % 9) as u16)),
            b.cells[unit_cell(u, m / 9)].candidates,
            0,
        )
    } else {
        b
    }
}

/// The two digits of a naked pair are the known answers of its two squares, so
/// that no other square of the group has one of them for answer.
pub proof fn lemma_naked_pair_sound(b: Board, u: int, m: int)
    requires
        b.wf(),
        b.answered(),
        0 <= u < 27,
        0 <= m < 81,
        pair_at(b, u, m),
    ensures
        b.spares(
            u,
            (1u16 << ((m / 9) as u16)) | (1u16 << ((m % 9) as u16)),
            b.cells[unit_cell(u, m / 9)].candidates,
        ),
{
    let j = m / 9;
    let k = m % 9;
    let first = unit_cell(u, j);
    let second = unit_cell(u, k);
    let pair = b.cells[first].candidates;
    let skip = (1u16 << (j as u16)) | (1u16 << (k as u16));
    lemma_unit_cells(u, j, k);
    lemma_single_bit(j as u16);
    lemma_single_bit(k as u16);
    lemma_union(1u16 << (j as u16), 1u16 << (k as u16));
    lemma_constant_masks();
    assert(b.cells[first].wf());
    assert(b.cells[second].wf());
    let a1 = b.cells[first].answer->0;
    let a2 = b.cells[second].answer->0;
    assert(peers(first, second));
    assert(has_bit(pair, (a1 - 1) as u16));
    assert(has_bit(pair, (a2 - 1) as u16));
    assert forall|p: int| 0 <= p < 9 && !has_bit(skip, p as u16) implies !allows(
        pair,
        (#[trigger] b.cells[unit_cell(u, p)]).answer->0,
    ) by {
        assert(has_bit(skip, p as u16) == (has_bit(1u16 << (j as u16), p as u16) || has_bit(
            1u16 << (k as u16),
            p as u16,
        )));
        assert(p != j && p != k);
        lemma_unit_cells(u, p, j);
        lemma_unit_cells(u, p, k);
        let other = unit_cell(u, p);
        assert(b.cells[other].wf());
        let a = b.cells[other].answer->0;
        assert(peers(other, first) && peers(other, second));
        assert(a != a1 && a != a2);
        if allows(pair, a) {
            assert(has_bit(pair, (a - 1) as u16));
            assert(false);
        }
    }
}

/// Makes the attempt at group `u` and tells whether the grid changed.
pub fn try_naked_pair(grid: &mut Grid, u: usize) -> (changed: bool)
    requires
        old(grid)@.wf(),
        u < 27,
    ensures
        final(grid)@ == naked_pair_at(old(grid)@, u as int),
        old(grid)@.advances(final(grid)@),
        changed == (final(grid)@ != old(grid)@),
        old(grid)@.promoted() ==> final(grid)@.promoted(),
        old(grid)@.sound() ==> final(grid)@.sound(),
{
    proof {
        old(grid)@.lemma_advances_self();
    }
    let ghost p = |m: int| pair_at(grid@, u as int, m);
    let mut m: usize = 0;
    while m < 81
        invariant
            m <= 81,
            u < 27,
            p == (|m: int| pair_at(grid@, u as int, m)),
            forall|t: int| 0 <= t < m ==> !#[trigger] p(t),
        ensures
            m <= 81,
            m < 81 ==> p(m as int),
        decreases 81 - m,
    {
        let j: usize = m / 9;
        let k: usize = m % 9;
        if j < k {
            let first: u16 = grid.cells[group_cell(u, j)].candidates;
            let second: u16 = grid.cells[group_cell(u, k)].candidates;
            if first == second && count_candidates(first) == 2 {
                assert(p(m as int));
                break;
            }
        }
        assert(!p(m as int));
        m = m + 1;
    }
    proof {
        lemma_first_hit(p, 0, 81, m as int);
    }
    if !grid.is_valid() || m >= 81 {
        return false;
    }
    let skip: u16 = (1u16 << ((m / 9) as u16)) | (1u16 << ((m % 9) as u16));
    let bits: u16 = grid.cells[group_cell(u, m / 9)].candidates;
    proof {
        if grid@.sound() {
            lemma_naked_pair_sound(grid@, u as int, m as int);
        }
    }
    grid.strike(u, skip, bits)
}

/// Applies the first naked pair that changes the grid, the groups taken in the
/// order rows, columns, regions.
pub fn step_naked_pair(grid: &mut Grid) -> (changed: bool)
    requires
        old(grid)@.wf(),
    ensures
        final(grid)@ == Rule::NakedPair.step(old(grid)@),
        old(grid)@.advances(final(grid)@),
        changed == (final(grid)@ != old(grid)@),
        old(grid)@.promoted() ==> final(grid)@.promoted(),
        old(grid)@.sound() ==> final(grid)@.sound(),
{
    run_rule(Rule::NakedPair, grid, true)
}

/// Applies the first naked pair of every group, group by group.
pub fn solve_naked_pair(grid: &mut Grid) -> (changed: bool)
    requires
        old(grid)@.wf(),
    ensures
        final(grid)@ == Rule::NakedPair.apply(old(grid)@),
        old(grid)@.advances(final(grid)@),
        changed == (final(grid)@ != old(grid)@),
        old(grid)@.promoted() ==> final(grid)@.promoted(),
        old(grid)@.sound() ==> final(grid)@.sound(),
{
    run_rule(Rule::NakedPair, grid, false)
}

/// Whether `c` names `k` places of a group in rising order.
pub open spec fn is_combination(c: Seq<usize>, k: int) -> bool {
    &&& c.len() == k
    &&& forall|i: int| 0 <= i < c.len() ==> #[trigger] c[i] < 9
    &&& forall|i: int, j: int| 0 <= i < j < c.len() ==> c[i] < c[j]
}

/// Whether `a` comes before `b` in the order of a dictionary.
pub open spec fn lex_less(a: Seq<usize>, b: Seq<usize>) -> bool {
    exists|p: int|
        0 <= p < a.len() && p < b.len() && #[trigger] a[p] < b[p] && forall|q: int|
            0 <= q < p ==> a[q] == b[q]
}

/// Whether `list` holds every choice of `k` places out of nine, once each, in the
/// order of a dictionary.
#[verifier::opaque]
pub open spec fn lists_combinations(list: Seq<Vec<usize>>, k: int) -> bool {
    &&& forall|t: int| 0 <= t < list.len() ==> is_combination(#[trigger] list[t]@, k)
    &&& forall|s: int, t: int|
        0 <= s < t < list.len() ==> lex_less(#[trigger] list[s]@, #[trigger] list[t]@)
    &&& forall|c: Seq<usize>|
        is_combination(c, k) ==> exists|t: int| 0 <= t < list.len() && #[trigger] list[t]@ == c
}

/// The choices of `k` places out of the nine of a group. This is
/// `Itertools::combinations` of the itertools crate on the range from 0 to 9: it
/// yields every strictly rising list of `k` numbers below 9, each once, and moves
/// from one to the next in the order of a dictionary. Not proved here.
#[verifier::external_body]
fn place_combinations(k: usize) -> (list: Vec<Vec<usize>>)
    ensures
        lists_combinations(list@, k as int),
{
    (0..9usize).combinations(k).collect()
}

/// The choices of places that the rule `rule` works on: of three places for the
/// naked triple, of four for the naked quad, none for the other rules.
pub fn rule_combinations(rule: Rule) -> (list: Vec<Vec<usize>>)
    ensures
        rule == Rule::NakedTriple ==> lists_combinations(list@, 3),
        rule == Rule::NakedQuad ==> lists_combinations(list@, 4),
{
    match rule {
        Rule::NakedTriple => place_combinations(3),
        Rule::NakedQuad => place_combinations(4),
        _ => Vec::new(),
    }
}

/// The candidates found in the squares of group `u` at the first `i` places of `c`.
pub open spec fn subset_union(b: Board, u: int, c: Seq<usize>, i: int) -> u16
    decreases i,
{
    if i <= 0 {
        0
    } else {
        subset_union(b, u, c, i - 1) | b.cells[unit_cell(u, c[i - 1] as int)].candidates
    }
}

/// The first `i` places of `c` as a mask.
pub open spec fn subset_places(c: Seq<usize>, i: int) -> u16
    decreases i,
{
    if i <= 0 {
        0
    } else {
        subset_places(c, i - 1) | (1u16 << (c[i - 1] as u16))
    }
}

/// Whether the `k` places `c` of group `u` hold a naked subset: unassigned squares
/// with `k` candidates between them.
pub open spec fn naked_subset(b: Board, u: int, k: int, c: Seq<usize>) -> bool {
    &&& is_combination(c, k)
    &&& forall|i: int| 0 <= i < k ==> b.cells[unit_cell(u, #[trigger] c[i] as int)].candidates != 0
    &&& count(subset_union(b, u, c, k)) == k
}

/// The naked subset of `k` places in group `u` that comes first in the order of a
/// dictionary, if the group has one.
pub open spec fn first_naked_subset(b: Board, u: int, k: int) -> Option<Seq<usize>> {
    if exists|c: Seq<usize>| naked_subset(b, u, k, c) {
        Some(
            choose|c: Seq<usize>|
                naked_subset(b, u, k, c) && forall|d: Seq<usize>| #[trigger]
                    naked_subset(b, u, k, d) ==> d == c || lex_less(c, d),
        )
    } else {
        None
    }
}

/// The attempt at group `u` for subsets of `k` squares: the first naked subset of
/// the group has its digits struck from the other squares of the group.
pub open spec fn naked_group_at(b: Board, u: int, k: int) -> Board {
    match first_naked_subset(b, u, k) {
        Some(c) => if b.valid() {
            b.strike(u, subset_places(c, k), subset_union(b, u, c, k), 0)
        } else {
            b
        },
        None => b,
    }
}

/// Of two lists, at most one comes before the other.
pub proof fn lemma_lex_less_one_way(a: Seq<usize>, b: Seq<usize>)
    requires
        lex_less(a, b),
    ensures
        !lex_less(b, a),
        a != b,
{
    let p = choose|p: int|
        0 <= p < a.len() && p < b.len() && #[trigger] a[p] < b[p] && forall|q: int|
            0 <= q < p ==> a[q] == b[q];
    if lex_less(b, a) {
        let r = choose|r: int|
            0 <= r < b.len() && r < a.len() && #[trigger] b[r] < a[r] && forall|q: int|
                0 <= q < r ==> b[q] == a[q];
        if r < p {
            assert(a[r] == b[r]);
        } else if p < r {
            assert(b[p] == a[p]);
        }
    }
}

/// The known answers of the squares at the first `i` places of `c`, as a mask.
pub open spec fn subset_answers(b: Board, u: int, c: Seq<usize>, i: int) -> u16
    decreases i,
{
    if i <= 0 {
        0
    } else {
        subset_answers(b, u, c, i - 1) | digit_mask(b.cells[unit_cell(u, c[i - 1] as int)].answer->0)
    }
}

/// The known answers of the first `i` squares of a naked subset are `i` different
/// digits among the candidates of these squares, and the places are those of `c`.
proof fn lemma_subset_answers(b: Board, u: int, k: int, c: Seq<usize>, i: int)
    requires
        b.wf(),
        b.answered(),
        0 <= u < 27,
        is_combination(c, k),
        forall|j: int| 0 <= j < k ==> b.cells[unit_cell(u, #[trigger] c[j] as int)].candidates != 0,
        0 <= i <= k,
    ensures
        subset_answers(b, u, c, i) <= 0x1FF,
        subset_union(b, u, c, i) <= 0x1FF,
        subset_places(c, i) <= 0x1FF,
        count(subset_answers(b, u, c, i)) == i,
        forall|v: u8| #[trigger]
            allows(subset_answers(b, u, c, i), v) ==> allows(subset_union(b, u, c, i), v)
                && exists|j: int|
                0 <= j < i && #[trigger] b.cells[unit_cell(u, c[j] as int)].answer == Some(v),
        forall|p: u16| p < 16 ==> (#[trigger] has_bit(subset_places(c, i), p) <==> exists|j: int|
            0 <= j < i && #[trigger] c[j] == p),
    decreases i,
{
    lemma_constant_masks();
    if i > 0 {
        lemma_subset_answers(b, u, k, c, i - 1);
        let place = c[i - 1] as int;
        let cell = unit_cell(u, place);
        lemma_unit_cells(u, place, place);
        assert(b.cells[cell].wf());
        let a = b.cells[cell].answer->0;
        let rest = subset_answers(b, u, c, i - 1);
        let found = subset_union(b, u, c, i - 1);
        let taken = subset_places(c, i - 1);
        let here = b.cells[cell].candidates;
        if allows(rest, a) {
            let j = choose|j: int|
                0 <= j < i - 1 && #[trigger] b.cells[unit_cell(u, c[j] as int)].answer == Some(a);
            assert(c[j] < c[i - 1]);
            lemma_unit_cells(u, c[j] as int, place);
            assert(peers(unit_cell(u, c[j] as int), cell));
            assert(false);
        }
        lemma_add_digit(rest, a);
        lemma_union(found, here);
        lemma_single_bit(place as u16);
        lemma_union(taken, 1u16 << (place as u16));
        assert(has_bit(here, (a - 1) as u16));
        assert forall|v: u8| #[trigger]
            allows(subset_answers(b, u, c, i), v) implies allows(subset_union(b, u, c, i), v)
            && exists|j: int|
            0 <= j < i && #[trigger] b.cells[unit_cell(u, c[j] as int)].answer == Some(v) by {
            assert(has_bit(found | here, (v - 1) as u16) == (has_bit(found, (v - 1) as u16)
                || has_bit(here, (v - 1) as u16)));
            if allows(rest, v) {
                let j = choose|j: int|
                    0 <= j < i - 1 && #[trigger] b.cells[unit_cell(u, c[j] as int)].answer == Some(
                        v,
                    );
                assert(b.cells[unit_cell(u, c[j] as int)].answer == Some(v));
            } else {
                assert(v == a);
                assert(b.cells[unit_cell(u, c[i - 1] as int)].answer == Some(v));
            }
        }
        assert forall|p: u16| p < 16 implies (#[trigger] has_bit(subset_places(c, i), p)
            <==> exists|j: int| 0 <= j < i && #[trigger] c[j] == p) by {
            assert(has_bit(taken | (1u16 << (place as u16)), p) == (has_bit(taken, p) || has_bit(
                1u16 << (place as u16),
                p,
            )));
            if has_bit(taken, p) {
                let j = choose|j: int| 0 <= j < i - 1 && #[trigger] c[j] == p;
                assert(c[j] == p);
            } else if p == place as u16 {
                assert(c[i - 1] == p);
            }
            if exists|j: int| 0 <= j < i && #[trigger] c[j] == p {
                let j = choose|j: int| 0 <= j < i && #[trigger] c[j] == p;
                if j < i - 1 {
                    assert(c[j] == p);
                    assert(has_bit(taken, p));
                }
            }
        }
    }
}

/// The digits of a naked subset are the known answers of its squares, so that no
/// other square of the group has one of them for answer.
pub proof fn lemma_naked_subset_sound(b: Board, u: int, k: int, c: Seq<usize>)
    requires
        b.wf(),
        b.answered(),
        0 <= u < 27,
        naked_subset(b, u, k, c),
    ensures
        b.spares(u, subset_places(c, k), subset_union(b, u, c, k)),
{
    lemma_subset_answers(b, u, k, c, k);
    let answers = subset_answers(b, u, c, k);
    let found = subset_union(b, u, c, k);
    lemma_count_within(answers, found);
    assert(answers == found);
    assert forall|p: int| 0 <= p < 9 && !has_bit(subset_places(c, k), p as u16) implies !allows(
        found,
        (#[trigger] b.cells[unit_cell(u, p)]).answer->0,
    ) by {
        let other = unit_cell(u, p);
        let a = b.cells[other].answer->0;
        if allows(found, a) {
            let j = choose|j: int|
                0 <= j < k && #[trigger] b.cells[unit_cell(u, c[j] as int)].answer == Some(a);
            if c[j] == p {
                assert(has_bit(subset_places(c, k), p as u16));
            }
            lemma_unit_cells(u, p, c[j] as int);
            assert(peers(other, unit_cell(u, c[j] as int)));
            assert(false);
        }
    }
}

/// A group in which no listed choice of places holds a naked subset has none.
pub proof fn lemma_no_naked_subset(b: Board, u: int, k: int, list: Seq<Vec<usize>>)
    requires
        lists_combinations(list, k),
        forall|s: int| 0 <= s < list.len() ==> !naked_subset(b, u, k, #[trigger] list[s]@),
    ensures
        first_naked_subset(b, u, k) is None,
{
    reveal(lists_combinations);
    assert forall|c: Seq<usize>| !naked_subset(b, u, k, c) by {
        if naked_subset(b, u, k, c) {
            let s = choose|s: int| 0 <= s < list.len() && #[trigger] list[s]@ == c;
            assert(!naked_subset(b, u, k, list[s]@));
        }
    }
}

/// The first listed choice of places that holds a naked subset is the first
/// naked subset of the group.
pub proof fn lemma_first_naked_subset(b: Board, u: int, k: int, list: Seq<Vec<usize>>, t: int)
    requires
        lists_combinations(list, k),
        0 <= t < list.len(),
        naked_subset(b, u, k, list[t]@),
        forall|s: int| 0 <= s < t ==> !naked_subset(b, u, k, #[trigger] list[s]@),
    ensures
        first_naked_subset(b, u, k) == Some(list[t]@),
{
    reveal(lists_combinations);
    let c0 = list[t]@;
    assert forall|d: Seq<usize>| #[trigger] naked_subset(b, u, k, d) implies d == c0 || lex_less(
        c0,
        d,
    ) by {
        let s = choose|s: int| 0 <= s < list.len() && #[trigger] list[s]@ == d;
        if s < t {
            assert(!naked_subset(b, u, k, list[s]@));
        } else if s > t {
            assert(lex_less(list[t]@, list[s]@));
        }
    }
    let chosen = first_naked_subset(b, u, k)->0;
    assert(naked_subset(b, u, k, chosen));
    assert(chosen == c0 || lex_less(c0, chosen));
    assert(c0 == chosen || lex_less(chosen, c0));
    if chosen != c0 {
        lemma_lex_less_one_way(c0, chosen);
    }
}

/// Whether the places `c` hold a naked subset of `k` squares in group `u`; with
/// it, the places as a mask and the candidates of their squares.
fn check_subset(grid: &Grid, u: usize, k: usize, c: &Vec<usize>) -> (r: (bool, u16, u16))
    requires
        u < 27,
        is_combination(c@, k as int),
    ensures
        r.0 == naked_subset(grid@, u as int, k as int, c@),
        r.1 == subset_places(c@, k as int),
        r.2 == subset_union(grid@, u as int, c@, k as int),
{
    let mut open: bool = true;
    let mut places: u16 = 0;
    let mut found: u16 = 0;
    let mut i: usize = 0;
    while i < k
        invariant
            i <= k,
            u < 27,
            is_combination(c@, k as int),
            places == subset_places(c@, i as int),
            found == subset_union(grid@, u as int, c@, i as int),
            open == (forall|j: int|
                0 <= j < i ==> grid@.cells[unit_cell(u as int, #[trigger] c@[j] as int)].candidates
                    != 0),
        decreases k - i,
    {
        let p: usize = c[i];
        let candidates: u16 = grid.cells[group_cell(u, p)].candidates;
        if candidates == 0 {
            open = false;
        }
        places = places | (1u16 << (p as u16));
        found = found | candidates;
        i = i + 1;
    }
    (open && count_candidates(found) as usize == k, places, found)
}

/// Makes the attempt at group `u` for subsets of `k` squares, the choices of places
/// taken from `list`, and tells whether the grid changed.
pub fn try_naked_group(grid: &mut Grid, u: usize, k: usize, list: &Vec<Vec<usize>>) -> (changed:
    bool)
    requires
        old(grid)@.wf(),
        u < 27,
        lists_combinations(list@, k as int),
    ensures
        final(grid)@ == naked_group_at(old(grid)@, u as int, k as int),
        old(grid)@.advances(final(grid)@),
        changed == (final(grid)@ != old(grid)@),
        old(grid)@.promoted() ==> final(grid)@.promoted(),
        old(grid)@.sound() ==> final(grid)@.sound(),
{
    proof {
        old(grid)@.lemma_advances_self();
    }
    let ghost b = grid@;
    let mut t: usize = 0;
    let mut hit: (bool, u16, u16) = (false, 0, 0);
    while t < list.len()
        invariant_except_break
            !hit.0,
        invariant
            t <= list.len(),
            u < 27,
            b == grid@,
            lists_combinations(list@, k as int),
            forall|s: int| 0 <= s < t ==> !naked_subset(b, u as int, k as int, #[trigger] list@[s]@),
        ensures
            t <= list.len(),
            hit.0 ==> t < list.len() && naked_subset(b, u as int, k as int, list@[t as int]@)
                && hit.1 == subset_places(list@[t as int]@, k as int) && hit.2 == subset_union(
                b,
                u as int,
                list@[t as int]@,
                k as int,
            ),
            !hit.0 ==> t == list.len(),
            forall|s: int| 0 <= s < t ==> !naked_subset(b, u as int, k as int, #[trigger] list@[s]@),
        decreases list.len() - t,
    {
        proof {
            reveal(lists_combinations);
        }
        hit = check_subset(grid, u, k, &list[t]);
        if hit.0 {
            break;
        }
        t = t + 1;
    }
    if !hit.0 {
        proof {
            lemma_no_naked_subset(b, u as int, k as int, list@);
        }
        return false;
    }
    proof {
        lemma_first_naked_subset(b, u as int, k as int, list@, t as int);
    }
    if !grid.is_valid() {
        return false;
    }
    proof {
        if grid@.sound() {
            reveal(lists_combinations);
            lemma_naked_subset_sound(grid@, u as int, k as int, list@[t as int]@);
        }
    }
    grid.strike(u, hit.1, hit.2)
}

/// Applies the first naked triple that changes the grid, the groups taken in the
/// order rows, columns, regions.
pub fn step_naked_triple(grid: &mut Grid) -> (changed: bool)
    requires
        old(grid)@.wf(),
    ensures
        final(grid)@ == Rule::NakedTriple.step(old(grid)@),
        old(grid)@.advances(final(grid)@),
        changed == (final(grid)@ != old(grid)@),
        old(grid)@.promoted() ==> final(grid)@.promoted(),
        old(grid)@.sound() ==> final(grid)@.sound(),
{
    run_rule(Rule::NakedTriple, grid, true)
}

/// Applies the first naked triple of every group, group by group.
pub fn solve_naked_triple(grid: &mut Grid) -> (changed: bool)
    requires
        old(grid)@.wf(),
    ensures
        final(grid)@ == Rule::NakedTriple.apply(old(grid)@),
        old(grid)@.advances(final(grid)@),
        changed == (final(grid)@ != old(grid)@),
        old(grid)@.promoted() ==> final(grid)@.promoted(),
        old(grid)@.sound() ==> final(grid)@.sound(),
{
    run_rule(Rule::NakedTriple, grid, false)
}

/// Applies the first naked quad that changes the grid, the groups taken in the
/// order rows, columns, regions.
pub fn step_naked_quad(grid: &mut Grid) -> (changed: bool)
    requires
        old(grid)@.wf(),
    ensures
        final(grid)@ == Rule::NakedQuad.step(old(grid)@),
        old(grid)@.advances(final(grid)@),
        changed == (final(grid)@ != old(grid)@),
        old(grid)@.promoted() ==> final(grid)@.promoted(),
        old(grid)@.sound() ==> final(grid)@.sound(),
{
    run_rule(Rule::NakedQuad, grid, true)
}

/// Applies the first naked quad of every group, group by group.
pub fn solve_naked_quad(grid: &mut Grid) -> (changed: bool)
    requires
        old(grid)@.wf(),
    ensures
        final(grid)@ == Rule::NakedQuad.apply(old(grid)@),
        old(grid)@.advances(final(grid)@),
        changed == (final(grid)@ != old(grid)@),
        old(grid)@.promoted() ==> final(grid)@.promoted(),
        old(grid)@.sound() ==> final(grid)@.sound(),
{
    run_rule(Rule::NakedQuad, grid, false)
}

} // verus!
