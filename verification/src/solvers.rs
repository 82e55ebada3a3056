//! The deduction rules and the loop that applies them.
//!
//! A rule looks at a fixed list of sites (a square, a group, a pair of lines and
//! a digit). At each site it makes one attempt: a deduction, where the site
//! offers one, else nothing. Applying a rule in full makes the attempt at every
//! site in turn; a single step stops after the first attempt that changes the grid.

pub mod hidden_pair;
pub mod hidden_single;
pub mod locked_candidates;
pub mod naked_pair;
pub mod naked_single;
pub mod x_wing;

use crate::board::Board;
use crate::grid::Grid;
use crate::position::peers;
use crate::text::chars_of;
use crate::solvers::hidden_pair::{hidden_pair_at, try_hidden_pair};
use crate::solvers::hidden_single::{hidden_single_at, try_hidden_single};
use crate::solvers::locked_candidates::{locked_candidates_at, try_locked_candidates};
use crate::solvers::naked_pair::{
    lists_combinations, naked_group_at, naked_pair_at, rule_combinations, try_naked_group,
    try_naked_pair,
};
use crate::solvers::x_wing::{try_x_wing, x_wing_at};
use crate::solvers::naked_single::{naked_single_at, try_naked_single};
use vstd::prelude::*;

verus! {

/// The rules, from the easiest to the hardest.
#[derive(Clone, Copy, Debug, PartialEq, Eq)]
pub enum Rule {
    NakedSingle,
    HiddenSingle,
    NakedPair,
    HiddenPair,
    NakedTriple,
    NakedQuad,
    LockedCandidates,
    XWing,
}

impl Rule {
    /// How many sites the rule looks at.
    pub open spec fn sites(self) -> int {
        match self {
            Rule::NakedSingle => 81,
            Rule::HiddenSingle => 2187,
            Rule::NakedPair => 27,
            Rule::HiddenPair => 27,
            Rule::NakedTriple => 27,
            Rule::NakedQuad => 27,
            Rule::LockedCandidates => 216,
            Rule::XWing => 1458,
        }
    }

    /// The grid after the rule's attempt at site `n`.
    pub open spec fn attempt(self, b: Board, n: int) -> Board {
        match self {
            Rule::NakedSingle => naked_single_at(b, n),
            Rule::HiddenSingle => hidden_single_at(b, n),
            Rule::NakedPair => naked_pair_at(b, n),
            Rule::HiddenPair => hidden_pair_at(b, n),
            Rule::LockedCandidates => locked_candidates_at(b, n),
            Rule::XWing => x_wing_at(b, n),
            Rule::NakedTriple => naked_group_at(b, n, 3),
            Rule::NakedQuad => naked_group_at(b, n, 4),
        }
    }

    /// The grid after the attempts at the sites from `n` on, each made on what the
    /// one before left.
    pub open spec fn apply_from(self, b: Board, n: int) -> Board
        decreases self.sites() - n,
    {
        if n < 0 || n >= self.sites() {
            b
        } else {
            self.apply_from(self.attempt(b, n), n + 1)
        }
    }

    /// The grid after the first attempt, from site `n` on, that changes it; the
    /// grid itself where none does.
    pub open spec fn step_from(self, b: Board, n: int) -> Board
        decreases self.sites() - n,
    {
        if n < 0 || n >= self.sites() {
            b
        } else if self.attempt(b, n) != b {
            self.attempt(b, n)
        } else {
            self.step_from(b, n + 1)
        }
    }

    /// The whole rule: every site in turn.
    pub open spec fn apply(self, b: Board) -> Board {
        self.apply_from(b, 0)
    }

    /// One step of the rule: up to the first attempt that changes the grid.
    pub open spec fn step(self, b: Board) -> Board {
        self.step_from(b, 0)
    }

    /// How many sites the rule looks at.
    pub fn site_count(&self) -> (n: usize)
        ensures
            n == self.sites(),
    {
        match self {
            Rule::NakedSingle => 81,
            Rule::HiddenSingle => 2187,
            Rule::NakedPair => 27,
            Rule::HiddenPair => 27,
            Rule::NakedTriple => 27,
            Rule::NakedQuad => 27,
            Rule::LockedCandidates => 216,
            Rule::XWing => 1458,
        }
    }
}

/// A rule with what is said of it.
#[derive(Clone, Copy, Debug)]
pub struct Solver {
    pub name: &'static str,
    pub description: &'static str,
    pub abbreviation: &'static str,
    pub rule: Rule,
}

/// The two letters that stand for a rule.
pub open spec fn abbreviation_of(rule: Rule) -> Seq<char> {
    match rule {
        Rule::NakedSingle => seq!['N', '1'],
        Rule::HiddenSingle => seq!['H', '1'],
        Rule::NakedPair => seq!['N', '2'],
        Rule::HiddenPair => seq!['H', '2'],
        Rule::NakedTriple => seq!['N', '3'],
        Rule::NakedQuad => seq!['N', '4'],
        Rule::LockedCandidates => seq!['L', 'C'],
        Rule::XWing => seq!['X', 'W'],
    }
}

/// The rules from the easiest to the hardest.
pub open spec fn ladder() -> Seq<Rule> {
    seq![
        Rule::NakedSingle,
        Rule::HiddenSingle,
        Rule::NakedPair,
        Rule::HiddenPair,
        Rule::NakedTriple,
        Rule::NakedQuad,
        Rule::LockedCandidates,
        Rule::XWing,
    ]
}

/// Whether `filter` holds the two letters `pair` side by side.
pub open spec fn mentions(filter: Seq<char>, pair: Seq<char>) -> bool {
    exists|i: int|
        0 <= i && i + 1 < filter.len() && #[trigger] filter[i] == pair[0] && filter[i + 1]
            == pair[1]
}

/// Whether `filter` enables `rule`: an empty filter enables every rule, another
/// one the rules whose two letters it holds.
pub open spec fn enabled(filter: Seq<char>, rule: Rule) -> bool {
    filter.len() == 0 || mentions(filter, abbreviation_of(rule))
}

/// The rules that `filter` enables among the first `n` of the ladder, in the
/// ladder's order.
pub open spec fn enabled_rules(filter: Seq<char>, n: int) -> Seq<Rule>
    decreases n,
{
    if n <= 0 {
        Seq::empty()
    } else if enabled(filter, ladder()[n - 1]) {
        enabled_rules(filter, n - 1).push(ladder()[n - 1])
    } else {
        enabled_rules(filter, n - 1)
    }
}

/// The rules of a list of solvers.
pub open spec fn rules_of(solvers: Seq<Solver>) -> Seq<Rule> {
    solvers.map_values(|s: Solver| s.rule)
}

impl Rule {
    /// The rule at place `i` of the ladder.
    pub fn at(i: usize) -> (rule: Rule)
        requires
            i < 8,
        ensures
            rule == ladder()[i as int],
    {
        if i == 0 {
            Rule::NakedSingle
        } else if i == 1 {
            Rule::HiddenSingle
        } else if i == 2 {
            Rule::NakedPair
        } else if i == 3 {
            Rule::HiddenPair
        } else if i == 4 {
            Rule::NakedTriple
        } else if i == 5 {
            Rule::NakedQuad
        } else if i == 6 {
            Rule::LockedCandidates
        } else {
            Rule::XWing
        }
    }

    /// The place of the rule in the ladder.
    pub fn rank(&self) -> (i: usize)
        ensures
            i < 8,
            ladder()[i as int] == *self,
    {
        match self {
            Rule::NakedSingle => 0,
            Rule::HiddenSingle => 1,
            Rule::NakedPair => 2,
            Rule::HiddenPair => 3,
            Rule::NakedTriple => 4,
            Rule::NakedQuad => 5,
            Rule::LockedCandidates => 6,
            Rule::XWing => 7,
        }
    }

    /// The two letters that stand for the rule.
    pub fn letters(&self) -> (pair: (char, char))
        ensures
            abbreviation_of(*self) == seq![pair.0, pair.1],
    {
        match self {
            Rule::NakedSingle => ('N', '1'),
            Rule::HiddenSingle => ('H', '1'),
            Rule::NakedPair => ('N', '2'),
            Rule::HiddenPair => ('H', '2'),
            Rule::NakedTriple => ('N', '3'),
            Rule::NakedQuad => ('N', '4'),
            Rule::LockedCandidates => ('L', 'C'),
            Rule::XWing => ('X', 'W'),
        }
    }
}

impl Solver {
    /// Whether the solver says of its rule what `Solver::new` says of it.
    pub open spec fn wf(&self) -> bool {
        self.abbreviation@ == abbreviation_of(self.rule)
    }

    /// The solver of `rule`: the rule with its name, its two letters and a sentence
    /// on what it does.
    pub fn new(rule: Rule) -> (s: Solver)
        ensures
            s.rule == rule,
            s.wf(),
    {
        proof {
            reveal_strlit("N1");
            reveal_strlit("H1");
            reveal_strlit("N2");
            reveal_strlit("H2");
            reveal_strlit("N3");
            reveal_strlit("N4");
            reveal_strlit("LC");
            reveal_strlit("XW");
        }
        let s = match rule {
            Rule::NakedSingle => Solver {
                name: "Naked Single",
                abbreviation: "N1",
                description: "Fills in a cell that only has one possibility",
                rule,
            },
            Rule::HiddenSingle => Solver {
                name: "Hidden Single",
                abbreviation: "H1",
                description: "Fills in a cell if that is the only place a digit can go in a Row/Column/Region",
                rule,
            },
            Rule::NakedPair => Solver {
                name: "Naked Pair",
                abbreviation: "N2",
                description: "Two cells in a group have the same pair of numbers, so those numbers were removed from everywhere else in the group",
                rule,
            },
            Rule::HiddenPair => Solver {
                name: "Hidden Pair",
                abbreviation: "H2",
                description: "Two values only showed up in the same 2 cells, removed all other possibilites from those cells",
                rule,
            },
            Rule::NakedTriple => Solver {
                name: "Naked Triple",
                abbreviation: "N3",
                description: "Three cells in a group share three numbers, so those numbers were removed from everywhere else in the group",
                rule,
            },
            Rule::NakedQuad => Solver {
                name: "Naked Quad",
                abbreviation: "N4",
                description: "Four cells in a group share four numbers, so those numbers were removed from everywhere else in the group",
                rule,
            },
            Rule::LockedCandidates => Solver {
                name: "Locked Candidates",
                abbreviation: "LC",
                description: "If the only place a value appears in one group, is contained within second group, remove all other occurrences of that value in the second group",
                rule,
            },
            Rule::XWing => Solver {
                name: "X Wing",
                abbreviation: "XW",
                description: "If a value occurs only twice in a line, and occurs in the same index in a second line, then it can't be anywhere else in that index",
                rule,
            },
        };
        assert(s.abbreviation@ =~= abbreviation_of(rule));
        s
    }

    /// Applies the rule in full and tells whether the grid changed.
    pub fn solve_all(&self, grid: &mut Grid) -> (changed: bool)
        requires
            old(grid)@.wf(),
        ensures
            final(grid)@ == self.rule.apply(old(grid)@),
            old(grid)@.advances(final(grid)@),
            changed == (final(grid)@ != old(grid)@),
            old(grid)@.promoted() ==> final(grid)@.promoted(),
            old(grid)@.sound() ==> final(grid)@.sound(),
    {
        run_rule(self.rule, grid, false)
    }

    /// Applies the rule up to its first change and tells whether there was one.
    pub fn step(&self, grid: &mut Grid) -> (changed: bool)
        requires
            old(grid)@.wf(),
        ensures
            final(grid)@ == self.rule.step(old(grid)@),
            old(grid)@.advances(final(grid)@),
            changed == (final(grid)@ != old(grid)@),
            old(grid)@.promoted() ==> final(grid)@.promoted(),
            old(grid)@.sound() ==> final(grid)@.sound(),
    {
        run_rule(self.rule, grid, true)
    }
}

/// Whether `filter` holds the letters `first` and `second` side by side.
fn holds_pair(filter: &Vec<char>, first: char, second: char) -> (r: bool)
    ensures
        r == mentions(filter@, seq![first, second]),
{
    if filter.len() < 2 {
        return false;
    }
    let mut i: usize = 0;
    while i < filter.len() - 1
        invariant
            filter.len() >= 2,
            forall|j: int|
                0 <= j < i && j + 1 < filter.len() ==> !(#[trigger] filter@[j] == first && filter@[j
                    + 1] == second),
        decreases filter.len() - i,
    {
        if filter[i] == first && filter[i + 1] == second {
            return true;
        }
        i = i + 1;
    }
    false
}

/// The solvers that the filter enables, from the easiest rule to the hardest. An
/// empty filter enables every rule; another one enables the rules whose two
/// letters it holds side by side, and what else it holds is ignored.
pub fn get_solvers(filter: &str) -> (solvers: Vec<Solver>)
    ensures
        rules_of(solvers@) == enabled_rules(filter@, 8),
        forall|i: int| 0 <= i < solvers.len() ==> (#[trigger] solvers[i]).wf(),
        solvers.len() <= 8,
{
    let text: Vec<char> = chars_of(filter);
    let mut solvers: Vec<Solver> = Vec::new();
    let mut i: usize = 0;
    while i < 8
        invariant
            i <= 8,
            text@ == filter@,
            solvers.len() <= i,
            rules_of(solvers@) == enabled_rules(filter@, i as int),
            forall|j: int| 0 <= j < solvers.len() ==> (#[trigger] solvers[j]).wf(),
        decreases 8 - i,
    {
        let rule: Rule = Rule::at(i);
        let pair: (char, char) = rule.letters();
        if text.len() == 0 || holds_pair(&text, pair.0, pair.1) {
            let ghost before = solvers@;
            solvers.push(Solver::new(rule));
            assert(rules_of(solvers@) =~= rules_of(before).push(rule));
        }
        i = i + 1;
    }
    solvers
}

/// The grid after the first rule, from place `i` of `rules` on, whose application
/// in full changes it; the grid itself where none does.
pub open spec fn first_change(b: Board, rules: Seq<Rule>, i: int) -> Board
    decreases rules.len() - i,
{
    if i < 0 || i >= rules.len() {
        b
    } else if rules[i].apply(b) != b {
        rules[i].apply(b)
    } else {
        first_change(b, rules, i + 1)
    }
}

/// The grid once no rule of `rules` changes it any more: as long as the first rule
/// that changes the grid lowers its weight, the loop starts again from the first
/// rule; it stops at the grid that no rule changes.
pub open spec fn solved(b: Board, rules: Seq<Rule>) -> Board
    decreases b.weight(),
{
    let next = first_change(b, rules, 0);
    if next.weight() < b.weight() {
        solved(next, rules)
    } else {
        b
    }
}

/// Whether the loop has nothing left to do on `b`.
pub open spec fn settled(b: Board, rules: Seq<Rule>) -> bool {
    !(first_change(b, rules, 0).weight() < b.weight())
}

/// Applies the rules of `solvers` until none changes the grid: after each rule
/// that changes it, the walk starts again from the first rule.
pub fn solve_subset(grid: &mut Grid, solvers: &Vec<Solver>)
    requires
        old(grid)@.wf(),
    ensures
        final(grid)@ == solved(old(grid)@, rules_of(solvers@)),
        first_change(final(grid)@, rules_of(solvers@), 0) == final(grid)@,
        old(grid)@.advances(final(grid)@),
        old(grid)@.promoted() ==> final(grid)@.promoted(),
        old(grid)@.sound() ==> final(grid)@.sound(),
{
    let ghost rules = rules_of(solvers@);
    let mut dirty: bool = true;
    proof {
        old(grid)@.lemma_advances_self();
    }
    while dirty
        invariant
            rules == rules_of(solvers@),
            grid@.wf(),
            old(grid)@.advances(grid@),
            old(grid)@.promoted() ==> grid@.promoted(),
            old(grid)@.sound() ==> grid@.sound(),
            solved(grid@, rules) == solved(old(grid)@, rules),
            !dirty ==> first_change(grid@, rules, 0) == grid@,
        decreases grid@.weight(), if dirty { 1int } else { 0int },
    {
        dirty = false;
        let ghost before = grid@;
        let mut i: usize = 0;
        while i < solvers.len() && !dirty
            invariant
                i <= solvers.len(),
                rules == rules_of(solvers@),
                before.wf(),
                before.advances(grid@),
                before.promoted() ==> grid@.promoted(),
                before.sound() ==> grid@.sound(),
                !dirty ==> grid@ == before && first_change(before, rules, i as int)
                    == first_change(before, rules, 0),
                dirty ==> grid@ == first_change(before, rules, 0) && grid@ != before,
            decreases solvers.len() - i,
        {
            assert(rules[i as int] == solvers@[i as int].rule);
            dirty = solvers[i].solve_all(grid);
            i = i + 1;
        }
        proof {
            old(grid)@.lemma_advances_trans(before, grid@);
        }
    }
}

/// Solves the grid with the rules that `filter` enables.
pub fn solve(grid: &mut Grid, filter: &str)
    requires
        old(grid)@.wf(),
    ensures
        final(grid)@ == solved(old(grid)@, enabled_rules(filter@, 8)),
        old(grid)@.advances(final(grid)@),
        old(grid)@.promoted() ==> final(grid)@.promoted(),
        old(grid)@.sound() ==> final(grid)@.sound(),
{
    let solvers: Vec<Solver> = get_solvers(filter);
    solve_subset(grid, &solvers);
}

/// The grid after the first rule, from place `i` of `rules` on, of which a single
/// step changes it; the grid itself where none does.
pub open spec fn first_step(b: Board, rules: Seq<Rule>, i: int) -> Board
    decreases rules.len() - i,
{
    if i < 0 || i >= rules.len() {
        b
    } else if rules[i].step(b) != b {
        rules[i].step(b)
    } else {
        first_step(b, rules, i + 1)
    }
}

/// The place, from `i` on, of the first rule of which a single step changes the
/// grid; the length of `rules` where there is none.
pub open spec fn stepping_rule(b: Board, rules: Seq<Rule>, i: int) -> int
    decreases rules.len() - i,
{
    if i < 0 || i >= rules.len() {
        rules.len() as int
    } else if rules[i].step(b) != b {
        i
    } else {
        stepping_rule(b, rules, i + 1)
    }
}

/// The grid as a single step finds it: dirty marks cleared, and promotion no
/// longer automatic, so that a naked single shows as a step of its own.
pub open spec fn stepping(b: Board) -> Board {
    b.cleared().with_auto_promote(false)
}

/// One step of solving for a display: the dirty marks are cleared, automatic
/// promotion is switched off, and the rules of `solvers` are walked in order until
/// a single step of one changes the grid. Returns the place of that rule in
/// `solvers`, for the caller to show it and to pause; none once no rule applies.
pub fn solve_step(grid: &mut Grid, solvers: &Vec<Solver>) -> (fired: Option<usize>)
    requires
        old(grid)@.wf(),
    ensures
        final(grid)@ == first_step(stepping(old(grid)@), rules_of(solvers@), 0),
        stepping(old(grid)@).advances(final(grid)@),
        fired is None <==> final(grid)@ == stepping(old(grid)@),
        fired is None <==> stepping_rule(stepping(old(grid)@), rules_of(solvers@), 0)
            == solvers.len(),
        fired matches Some(i) ==> i == stepping_rule(stepping(old(grid)@), rules_of(solvers@), 0),
        old(grid)@.sound() ==> final(grid)@.sound(),
{
    let ghost rules = rules_of(solvers@);
    grid.clear_dirty();
    grid.set_auto_promote(false);
    let ghost before = grid@;
    proof {
        assert(before =~= stepping(old(grid)@));
        before.lemma_advances_self();
        if old(grid)@.sound() {
            assert forall|i: int, k: int| !#[trigger] before.clash(i, k) by {
                if before.clash(i, k) {
                    assert(old(grid)@.clash(i, k));
                }
            }
            assert forall|i: int, k: int|
                0 <= i < 81 && 0 <= k < 81 && #[trigger] peers(i, k) implies before.cells[i].answer
                != before.cells[k].answer by {
                assert(old(grid)@.cells[i].answer != old(grid)@.cells[k].answer);
            }
            assert forall|i: int| 0 <= i < 81 implies (#[trigger] before.cells[i]).answer is Some by {
                assert(old(grid)@.cells[i].answer is Some);
            }
        }
    }
    let mut i: usize = 0;
    while i < solvers.len()
        invariant
            i <= solvers.len(),
            rules == rules_of(solvers@),
            before.wf(),
            before == stepping(old(grid)@),
            old(grid)@.sound() ==> before.sound(),
            grid@ == before,
            first_step(before, rules, i as int) == first_step(before, rules, 0),
            stepping_rule(before, rules, i as int) == stepping_rule(before, rules, 0),
        decreases solvers.len() - i,
    {
        assert(rules[i as int] == solvers@[i as int].rule);
        if solvers[i].step(grid) {
            return Some(i);
        }
        i = i + 1;
    }
    None
}

impl Grid {
    /// Solves the grid with every rule of the ladder.
    pub fn solve(&mut self)
        requires
            old(self)@.wf(),
        ensures
            final(self)@ == solved(old(self)@, enabled_rules(Seq::empty(), 8)),
            old(self)@.advances(final(self)@),
            old(self)@.promoted() ==> final(self)@.promoted(),
            old(self)@.sound() ==> final(self)@.sound(),
    {
        proof {
            reveal_strlit("");
            assert(""@ =~= Seq::<char>::empty());
        }
        solve(self, "");
    }

    /// Applies the naked-single rule in full and tells whether the grid changed.
    pub fn solve_naked_single(&mut self) -> (changed: bool)
        requires
            old(self)@.wf(),
        ensures
            final(self)@ == Rule::NakedSingle.apply(old(self)@),
            old(self)@.advances(final(self)@),
            changed == (final(self)@ != old(self)@),
            old(self)@.promoted() ==> final(self)@.promoted(),
            old(self)@.sound() ==> final(self)@.sound(),
    {
        run_rule(Rule::NakedSingle, self, false)
    }

    /// Applies the naked-pair rule in full and tells whether the grid changed.
    pub fn solve_naked_pair(&mut self) -> (changed: bool)
        requires
            old(self)@.wf(),
        ensures
            final(self)@ == Rule::NakedPair.apply(old(self)@),
            old(self)@.advances(final(self)@),
            changed == (final(self)@ != old(self)@),
            old(self)@.promoted() ==> final(self)@.promoted(),
            old(self)@.sound() ==> final(self)@.sound(),
    {
        run_rule(Rule::NakedPair, self, false)
    }

    /// Applies the hidden-pair rule in full and tells whether the grid changed.
    pub fn solve_hidden_pair(&mut self) -> (changed: bool)
        requires
            old(self)@.wf(),
        ensures
            final(self)@ == Rule::HiddenPair.apply(old(self)@),
            old(self)@.advances(final(self)@),
            changed == (final(self)@ != old(self)@),
            old(self)@.promoted() ==> final(self)@.promoted(),
            old(self)@.sound() ==> final(self)@.sound(),
    {
        run_rule(Rule::HiddenPair, self, false)
    }

    /// Applies the locked-candidates rule in full and tells whether the grid changed.
    pub fn solve_locked_candidates(&mut self) -> (changed: bool)
        requires
            old(self)@.wf(),
        ensures
            final(self)@ == Rule::LockedCandidates.apply(old(self)@),
            old(self)@.advances(final(self)@),
            changed == (final(self)@ != old(self)@),
            old(self)@.promoted() ==> final(self)@.promoted(),
            old(self)@.sound() ==> final(self)@.sound(),
    {
        run_rule(Rule::LockedCandidates, self, false)
    }
}

/// Makes the attempt of `rule` at site `n` and tells whether the grid changed. The
/// naked triple and the naked quad take their choices of places from `list`.
pub fn attempt(rule: Rule, grid: &mut Grid, n: usize, list: &Vec<Vec<usize>>) -> (changed: bool)
    requires
        old(grid)@.wf(),
        n < rule.sites(),
        rule == Rule::NakedTriple ==> lists_combinations(list@, 3),
        rule == Rule::NakedQuad ==> lists_combinations(list@, 4),
    ensures
        final(grid)@ == rule.attempt(old(grid)@, n as int),
        old(grid)@.advances(final(grid)@),
        changed == (final(grid)@ != old(grid)@),
        old(grid)@.promoted() ==> final(grid)@.promoted(),
        old(grid)@.sound() ==> final(grid)@.sound(),
{
    match rule {
        Rule::NakedSingle => try_naked_single(grid, n),
        Rule::HiddenSingle => try_hidden_single(grid, n),
        Rule::NakedPair => try_naked_pair(grid, n),
        Rule::HiddenPair => try_hidden_pair(grid, n),
        Rule::LockedCandidates => try_locked_candidates(grid, n),
        Rule::XWing => try_x_wing(grid, n),
        Rule::NakedTriple => try_naked_group(grid, n, 3, list),
        Rule::NakedQuad => try_naked_group(grid, n, 4, list),
    }
}

/// Applies `rule`: in full, or with `first_only` up to the first attempt that
/// changes the grid. Tells whether the grid changed.
pub fn run_rule(rule: Rule, grid: &mut Grid, first_only: bool) -> (changed: bool)
    requires
        old(grid)@.wf(),
    ensures
        final(grid)@ == if first_only {
            rule.step(old(grid)@)
        } else {
            rule.apply(old(grid)@)
        },
        old(grid)@.advances(final(grid)@),
        changed == (final(grid)@ != old(grid)@),
        old(grid)@.promoted() ==> final(grid)@.promoted(),
        old(grid)@.sound() ==> final(grid)@.sound(),
{
    let total: usize = rule.site_count();
    let list: Vec<Vec<usize>> = rule_combinations(rule);
    let mut changed: bool = false;
    let mut n: usize = 0;
    proof {
        old(grid)@.lemma_advances_self();
    }
    while n < total && !(first_only && changed)
        invariant
            n <= total,
            total == rule.sites(),
            rule == Rule::NakedTriple ==> lists_combinations(list@, 3),
            rule == Rule::NakedQuad ==> lists_combinations(list@, 4),
            grid@.wf(),
            old(grid)@.advances(grid@),
            changed == (grid@ != old(grid)@),
            old(grid)@.promoted() ==> grid@.promoted(),
            old(grid)@.sound() ==> grid@.sound(),
            !first_only ==> rule.apply_from(grid@, n as int) == rule.apply_from(old(grid)@, 0),
            first_only && !changed ==> rule.step_from(grid@, n as int) == rule.step_from(
                old(grid)@,
                0,
            ),
            first_only && changed ==> grid@ == rule.step_from(old(grid)@, 0),
        decreases total - n,
    {
        let ghost before = grid@;
        let c: bool = attempt(rule, grid, n, &list);
        proof {
            old(grid)@.lemma_advances_trans(before, grid@);
        }
        changed = changed || c;
        n = n + 1;
    }
    changed
}

} // verus!
