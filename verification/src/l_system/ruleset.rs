//! Mutation of rule sets. A rule set is a sequence of grids; the rule at
//! index `t` rewrites the stems of type `t`, and rule 0 is the root.

use rand::rngs::StdRng;
use vstd::prelude::*;

use crate::l_system::cell::{Cell, Direction};
use crate::l_system::grid::{Grid, GridView};
use crate::l_system::{all_wf, grid_views, rules_valid};
use crate::random::{draw_below, draw_ratio};

verus! {

/// The most rules a set can hold: a stem names its rule in one byte, and so
/// does the bound that random stems are drawn below.
pub const MAX_RULES: usize = 255;

impl GridView {
    /// Two grids have the same size and origin, and as many cells.
    pub open spec fn same_shape(self, other: GridView) -> bool {
        self.same_sides(other) && self.cells.len() == other.cells.len()
    }
}

/// `now` is `before` with the cells in front of cell `j` of rule `i`, in the
/// order of rules and buffers, rewritten as `r` allows, and the others
/// untouched. No grid has changed its shape.
pub open spec fn rewritten_upto(
    before: Seq<GridView>,
    now: Seq<GridView>,
    r: spec_fn(Cell, Cell) -> bool,
    i: int,
    j: int,
) -> bool {
    &&& now.len() == before.len()
    &&& forall|a: int| 0 <= a < now.len() ==> (#[trigger] now[a]).same_shape(before[a])
    &&& forall|a: int, b: int|
        0 <= a < now.len() && 0 <= b < now[a].cells.len() ==> if a < i || (a == i && b < j) {
            r(before[a].cells[b], #[trigger] now[a].cells[b])
        } else {
            now[a].cells[b] == before[a].cells[b]
        }
}

/// `after` is `before` with every cell rewritten as `r` allows.
pub open spec fn rewritten(before: Seq<GridView>, after: Seq<GridView>, r: spec_fn(Cell, Cell) -> bool) -> bool {
    rewritten_upto(before, after, r, before.len() as int, 0)
}

/// What the removal of rule `deleted` does to a cell, `count` rules being
/// left: a stem of a later rule moves down by one, a stem of the removed rule
/// goes to some rule other than the root, every other cell stays.
pub open spec fn after_deletion(deleted: int, count: int) -> spec_fn(Cell, Cell) -> bool {
    |b: Cell, a: Cell|
        match b {
            Cell::Stem(n, dir) => if n > deleted {
                a == Cell::Stem((n - 1) as u8, dir)
            } else if n == deleted {
                match a {
                    Cell::Stem(m, d) => d == dir && 1 <= m < count,
                    _ => false,
                }
            } else {
                a == b
            },
            _ => a == b,
        }
}

/// What the arrival of a rule at `index` does to a cell: a stem may go over
/// to the new rule, every other cell stays.
pub open spec fn after_addition(index: int) -> spec_fn(Cell, Cell) -> bool {
    |b: Cell, a: Cell|
        a == b || match b {
            Cell::Stem(_, dir) => a == Cell::Stem(index as u8, dir),
            _ => false,
        }
}

/// What a mutation of cells does to a cell: it stays, or gives way to a cell
/// whose stem, if it is one, refers to a rule below `bound`.
pub open spec fn after_redraw(bound: int) -> spec_fn(Cell, Cell) -> bool {
    |b: Cell, a: Cell| a == b || a.stem_below(bound)
}

/// What a mutation of cells does to a cell when every cell is redrawn: it
/// gives way to a cell whose stem, if it is one, refers to a rule below
/// `bound`.
pub open spec fn after_draw(bound: int) -> spec_fn(Cell, Cell) -> bool {
    |b: Cell, a: Cell| a.stem_below(bound)
}

/// `after` is `before` without rule `deleted`, which is not the root, the
/// stems renumbered as [`after_deletion`] says.
pub open spec fn is_deletion(before: Seq<GridView>, after: Seq<GridView>, deleted: int) -> bool {
    &&& 1 <= deleted < before.len()
    &&& rewritten(before.remove(deleted), after, after_deletion(deleted, before.len() - 1))
}

/// `after` is `before` with one more rule at the end: a grid of at most 4 by
/// 4 cells; the stems of the old rules changed as [`after_addition`] says.
pub open spec fn is_addition(before: Seq<GridView>, after: Seq<GridView>) -> bool {
    &&& after.len() == before.len() + 1
    &&& rewritten(before, after.drop_last(), after_addition(before.len() as int))
    &&& after.last().wf()
    &&& 1 <= after.last().width <= 4
    &&& 1 <= after.last().height <= 4
    &&& after.last().cells_below(after.len() as int)
}

/// `after` is `before` without one rule other than the root.
pub open spec fn is_rule_deletion(before: Seq<GridView>, after: Seq<GridView>) -> bool {
    exists|deleted: int| is_deletion(before, after, deleted)
}

/// `after` is `before` with rule `i` grown on the side `dir` by a row or
/// column whose stems refer to rules of the set; or `before` itself, where
/// the grown rule could not be stored.
pub open spec fn expands_rule(
    before: Seq<GridView>,
    after: Seq<GridView>,
    i: int,
    dir: Direction,
) -> bool {
    if before[i].expand_fits(dir) {
        after == before.update(i, after[i]) && after[i].is_expansion_of(
            before[i],
            dir,
            before.len() as int,
        )
    } else {
        after == before
    }
}

/// `after` is `before` with one rule grown on one side, see [`expands_rule`].
pub open spec fn is_rule_expansion(before: Seq<GridView>, after: Seq<GridView>) -> bool {
    exists|i: int, dir: Direction|
        0 <= i < before.len() && #[trigger] expands_rule(before, after, i, dir)
}

/// `after` is `before` with one rule contracted on one side.
pub open spec fn is_rule_contraction(before: Seq<GridView>, after: Seq<GridView>) -> bool {
    exists|i: int, dir: Direction|
        0 <= i < before.len() && after == before.update(i, #[trigger] before[i].contract(dir))
}

/// Whether the cell is a stem of type `t`.
pub open spec fn refers_to(cell: Cell, t: int) -> bool {
    match cell {
        Cell::Stem(n, _) => n == t,
        _ => false,
    }
}

/// Number of stems of type `t` among the first `n` cells of a grid.
pub open spec fn stems_of_type_before(grid: GridView, t: int, n: int) -> int
    decreases n,
{
    if n <= 0 {
        0
    } else {
        stems_of_type_before(grid, t, n - 1) + if refers_to(grid.cells[n - 1], t) {
            1int
        } else {
            0int
        }
    }
}

/// Number of stems of type `t` in the first `k` rules.
pub open spec fn references_before(rules: Seq<GridView>, t: int, k: int) -> int
    decreases k,
{
    if k <= 0 {
        0
    } else {
        references_before(rules, t, k - 1) + stems_of_type_before(
            rules[k - 1],
            t,
            rules[k - 1].cells.len() as int,
        )
    }
}

/// Number of stems of type `t` in all rules.
pub open spec fn references(rules: Seq<GridView>, t: int) -> int {
    references_before(rules, t, rules.len() as int)
}

/// How many stems of type `t` come before cell `j` of rule `i`, in the order
/// of rules and buffers.
pub open spec fn occurrence(rules: Seq<GridView>, t: int, i: int, j: int) -> int {
    references_before(rules, t, i) + stems_of_type_before(rules[i], t, j)
}

/// The rule set after the type `t` is split at its occurrence `cut`: a copy
/// of rule `t` as it was is added at the end, and in the rules that were
/// there every stem of type `t` from occurrence `cut` on refers to the copy.
pub open spec fn separated(rules: Seq<GridView>, t: int, cut: int) -> Seq<GridView> {
    let widened = rules.push(rules[t]);
    Seq::new(
        widened.len(),
        |i: int|
            GridView {
                cells: Seq::new(
                    widened[i].cells.len(),
                    |j: int|
                        match widened[i].cells[j] {
                            Cell::Stem(n, d) => if n == t && i < rules.len() && occurrence(
                                rules,
                                t,
                                i,
                                j,
                            ) >= cut {
                                Cell::Stem(rules.len() as u8, d)
                            } else {
                                Cell::Stem(n, d)
                            },
                            c => c,
                        },
                ),
                ..widened[i]
            },
    )
}

/// [`separated`] with only the cells in front of cell `j` of rule `i` done.
pub open spec fn separated_upto(rules: Seq<GridView>, t: int, cut: int, i: int, j: int) -> Seq<
    GridView,
> {
    let widened = rules.push(rules[t]);
    Seq::new(
        widened.len(),
        |a: int|
            GridView {
                cells: Seq::new(
                    widened[a].cells.len(),
                    |b: int|
                        match widened[a].cells[b] {
                            Cell::Stem(n, d) => if n == t && a < rules.len() && occurrence(
                                rules,
                                t,
                                a,
                                b,
                            ) >= cut && (a < i || (a == i && b < j)) {
                                Cell::Stem(rules.len() as u8, d)
                            } else {
                                Cell::Stem(n, d)
                            },
                            c => c,
                        },
                ),
                ..widened[a]
            },
    )
}

/// `after` is `before` with one type of stem split in two where more than
/// one stem refers to it, and `before` itself otherwise.
pub open spec fn is_separation(before: Seq<GridView>, after: Seq<GridView>) -> bool {
    exists|t: int|
        0 <= t < before.len() && if #[trigger] references(before, t) > 1 {
            exists|cut: int|
                0 <= cut < references(before, t) && after == #[trigger] separated(before, t, cut)
        } else {
            after == before
        }
}

/// Whether rule `t` is the root or some stem refers to it.
pub open spec fn is_used(rules: Seq<GridView>, t: int) -> bool {
    t == 0 || exists|i: int, j: int|
        0 <= i < rules.len() && 0 <= j < rules[i].cells.len() && refers_to(
            #[trigger] rules[i].cells[j],
            t,
        )
}

/// Number of used rules below `t`: the index of rule `t` once the unused
/// rules are gone.
pub open spec fn rank(rules: Seq<GridView>, t: int) -> int
    decreases t,
{
    if t <= 0 {
        0
    } else {
        rank(rules, t - 1) + if is_used(rules, t - 1) {
            1int
        } else {
            0int
        }
    }
}

/// A cell with its stem, if it is one, renumbered by [`rank`].
pub open spec fn relabeled_cell(rules: Seq<GridView>, cell: Cell) -> Cell {
    match cell {
        Cell::Stem(n, d) => Cell::Stem(rank(rules, n as int) as u8, d),
        c => c,
    }
}

/// A grid with its stems renumbered by [`rank`].
pub open spec fn relabeled(rules: Seq<GridView>, grid: GridView) -> GridView {
    GridView {
        cells: Seq::new(grid.cells.len(), |j: int| relabeled_cell(rules, grid.cells[j])),
        ..grid
    }
}

/// The used rules among those from index `k` on, in their order, renumbered.
pub open spec fn live_from(rules: Seq<GridView>, k: int) -> Seq<GridView>
    decreases rules.len() - k,
{
    if k >= rules.len() {
        Seq::empty()
    } else if is_used(rules, k) {
        seq![relabeled(rules, rules[k])] + live_from(rules, k + 1)
    } else {
        live_from(rules, k + 1)
    }
}

/// The rule set without the rules that no stem refers to, the root kept in
/// any case, and the stems renumbered to the new indices.
pub open spec fn without_dead(rules: Seq<GridView>) -> Seq<GridView> {
    live_from(rules, 0)
}

/// Every grid of the set trimmed.
pub open spec fn all_trimmed(rules: Seq<GridView>) -> Seq<GridView> {
    rules.map_values(|g: GridView| g.trimmed())
}

/// A rewriting that keeps every stem below `count` keeps a valid set valid;
/// and no rewriting harms the well-formedness of the grids.
pub proof fn lemma_rewritten(
    before: Seq<GridView>,
    after: Seq<GridView>,
    r: spec_fn(Cell, Cell) -> bool,
    bound: int,
)
    requires
        rewritten(before, after, r),
        forall|b: Cell, a: Cell| #[trigger] r(b, a) && b.stem_below(bound) ==> a.stem_below(bound),
        forall|i: int, j: int|
            0 <= i < before.len() && 0 <= j < before[i].cells.len() ==> (#[trigger] before[i].cells[j]).stem_below(
                bound,
            ),
    ensures
        all_wf(before) ==> all_wf(after),
        forall|i: int, j: int|
            0 <= i < after.len() && 0 <= j < after[i].cells.len() ==> (#[trigger] after[i].cells[j]).stem_below(
                bound,
            ),
{
    assert forall|i: int, j: int| 0 <= i < after.len() && 0 <= j < after[i].cells.len() implies (
    #[trigger] after[i].cells[j]).stem_below(bound) by {
        assert(after[i].same_shape(before[i]));
        assert(r(before[i].cells[j], after[i].cells[j]));
        assert(before[i].cells[j].stem_below(bound));
    }
    if all_wf(before) {
        assert forall|i: int| 0 <= i < after.len() implies (#[trigger] after[i]).wf() by {
            assert(after[i].same_shape(before[i]));
            assert(before[i].wf());
        }
    }
}

/// What is rewritten as `r` allows is rewritten as anything allows that `r`
/// implies.
pub proof fn lemma_rewritten_weaken(
    before: Seq<GridView>,
    after: Seq<GridView>,
    r: spec_fn(Cell, Cell) -> bool,
    weaker: spec_fn(Cell, Cell) -> bool,
)
    requires
        rewritten(before, after, r),
        forall|b: Cell, a: Cell| #[trigger] r(b, a) ==> weaker(b, a),
    ensures
        rewritten(before, after, weaker),
{
    assert forall|a: int, b: int| 0 <= a < after.len() && 0 <= b < after[a].cells.len() implies weaker(
        before[a].cells[b],
        #[trigger] after[a].cells[b],
    ) by {
        assert(r(before[a].cells[b], after[a].cells[b]));
    }
}

/// Rewriting may go on from any point it has reached: shapes are kept.
pub proof fn lemma_rewritten_upto_wf(
    before: Seq<GridView>,
    now: Seq<GridView>,
    r: spec_fn(Cell, Cell) -> bool,
    i: int,
    j: int,
)
    requires
        rewritten_upto(before, now, r, i, j),
        all_wf(before),
    ensures
        all_wf(now),
{
    assert forall|a: int| 0 <= a < now.len() implies (#[trigger] now[a]).wf() by {
        assert(now[a].same_shape(before[a]));
        assert(before[a].wf());
    }
}

/// Replaces cell `j` of rule `i`.
fn set_cell(rules: &mut Vec<Grid>, i: usize, j: usize, cell: Cell)
    requires
        i < old(rules).len(),
        j < old(rules)[i as int]@.cells.len(),
    ensures
        final(rules).len() == old(rules).len(),
        forall|k: int| 0 <= k < old(rules).len() && k != i ==> final(rules)[k] == old(rules)[k],
        final(rules)[i as int]@ == (GridView {
            cells: old(rules)[i as int]@.cells.update(j as int, cell),
            ..old(rules)[i as int]@
        }),
{
    let rule: &mut Grid = &mut rules[i];
    let cells: &mut Vec<Cell> = rule.contents_mut();
    cells.set(j, cell);
}

/// Rewrites cell `j` of rule `i`, the next in line, as `r` allows.
fn rewrite_cell(
    rules: &mut Vec<Grid>,
    i: usize,
    j: usize,
    cell: Cell,
    Ghost(before): Ghost<Seq<GridView>>,
    Ghost(r): Ghost<spec_fn(Cell, Cell) -> bool>,
)
    requires
        rewritten_upto(before, grid_views(old(rules)@), r, i as int, j as int),
        i < old(rules).len(),
        j < old(rules)[i as int]@.cells.len(),
        r(before[i as int].cells[j as int], cell),
    ensures
        rewritten_upto(before, grid_views(final(rules)@), r, i as int, j + 1),
        final(rules).len() == old(rules).len(),
{
    let ghost earlier = grid_views(rules@);
    set_cell(rules, i, j, cell);
    proof {
        let now = grid_views(rules@);
        assert forall|a: int| 0 <= a < now.len() implies (#[trigger] now[a]).same_shape(
            before[a],
        ) by {
            assert(earlier[a].same_shape(before[a]));
        }
        assert forall|a: int, b: int| 0 <= a < now.len() && 0 <= b < now[a].cells.len() implies if a
            < i || (a == i && b < j + 1) {
            r(before[a].cells[b], #[trigger] now[a].cells[b])
        } else {
            now[a].cells[b] == before[a].cells[b]
        } by {
            assert(earlier[a].same_shape(before[a]));
            if a == i && b == j {
            } else {
                assert(now[a].cells[b] == earlier[a].cells[b]);
            }
        }
    }
}

/// Leaves cell `j` of rule `i`, the next in line, as it is, where `r` allows.
proof fn lemma_keep_cell(
    before: Seq<GridView>,
    now: Seq<GridView>,
    r: spec_fn(Cell, Cell) -> bool,
    i: int,
    j: int,
)
    requires
        rewritten_upto(before, now, r, i, j),
        0 <= i < now.len(),
        0 <= j < now[i].cells.len(),
        r(before[i].cells[j], before[i].cells[j]),
    ensures
        rewritten_upto(before, now, r, i, j + 1),
{
    assert forall|a: int, b: int| 0 <= a < now.len() && 0 <= b < now[a].cells.len() implies if a
        < i || (a == i && b < j + 1) {
        r(before[a].cells[b], #[trigger] now[a].cells[b])
    } else {
        now[a].cells[b] == before[a].cells[b]
    } by {}
}

/// Rewriting that has done with rule `i` goes on with the rule after it.
proof fn lemma_next_rule(
    before: Seq<GridView>,
    now: Seq<GridView>,
    r: spec_fn(Cell, Cell) -> bool,
    i: int,
)
    requires
        0 <= i < now.len(),
        rewritten_upto(before, now, r, i, now[i].cells.len() as int),
    ensures
        rewritten_upto(before, now, r, i + 1, 0),
{
    assert forall|a: int, b: int| 0 <= a < now.len() && 0 <= b < now[a].cells.len() implies if a
        < i + 1 || (a == i + 1 && b < 0) {
        r(before[a].cells[b], #[trigger] now[a].cells[b])
    } else {
        now[a].cells[b] == before[a].cells[b]
    } by {}
}

/// The operators that change a rule set. All of them work on the whole set,
/// because a change to one rule may renumber the stems of all.
pub trait Ruleset {
    /// The rules, in order.
    spec fn rules(&self) -> Seq<GridView>;

    /// Removes one rule other than the root, chosen uniformly. Stems of later
    /// rules follow their rules down by one; each stem of the removed rule
    /// goes to a rule drawn uniformly among those left, the root excepted.
    fn delete_rule(&mut self, rng: &mut StdRng)
        requires
            all_wf(old(self).rules()),
            2 < old(self).rules().len() <= MAX_RULES,
        ensures
            all_wf(final(self).rules()),
            is_rule_deletion(old(self).rules(), final(self).rules()),
            rules_valid(old(self).rules()) ==> rules_valid(final(self).rules()),
    ;

    /// Adds a random rule at the end. Before that, each stem goes over to the
    /// new rule with one chance in `n + 1`, `n` being the number of rules so
    /// far, so that the new rule can be reached.
    fn add_rule(&mut self, rng: &mut StdRng)
        requires
            all_wf(old(self).rules()),
            old(self).rules().len() < MAX_RULES,
        ensures
            all_wf(final(self).rules()),
            is_addition(old(self).rules(), final(self).rules()),
            rules_valid(old(self).rules()) ==> rules_valid(final(self).rules()),
    ;

    /// Grows one rule, chosen uniformly, by a row or column of random cells
    /// on a side chosen uniformly. Nothing changes where the rule could not
    /// be stored any more.
    fn expand_rule(&mut self, rng: &mut StdRng)
        requires
            all_wf(old(self).rules()),
            0 < old(self).rules().len() <= MAX_RULES,
        ensures
            all_wf(final(self).rules()),
            is_rule_expansion(old(self).rules(), final(self).rules()),
            rules_valid(old(self).rules()) ==> rules_valid(final(self).rules()),
    ;

    /// Contracts one rule, chosen uniformly, on a side chosen uniformly;
    /// nothing changes where the grid refuses.
    fn contract_rule(&mut self, rng: &mut StdRng)
        requires
            all_wf(old(self).rules()),
            0 < old(self).rules().len() <= MAX_RULES,
        ensures
            all_wf(final(self).rules()),
            is_rule_contraction(old(self).rules(), final(self).rules()),
            rules_valid(old(self).rules()) ==> rules_valid(final(self).rules()),
    ;

    /// Splits a type of stem, chosen uniformly, in two: where more than one
    /// stem refers to it, [`separated`] at a cut drawn uniformly among them.
    /// Nothing changes where at most one stem refers to the type.
    fn separate_rule(&mut self, rng: &mut StdRng)
        requires
            all_wf(old(self).rules()),
            0 < old(self).rules().len() < MAX_RULES,
        ensures
            all_wf(final(self).rules()),
            is_separation(old(self).rules(), final(self).rules()),
            rules_valid(old(self).rules()) ==> rules_valid(final(self).rules()),
    ;

    /// Replaces each cell, with `numerator` chances in `denominator`, by a
    /// cell drawn by [`Cell::random`], whose stems refer to rules of the set.
    /// With no chance no cell changes; with every chance every cell is
    /// redrawn.
    fn mutate_cells(&mut self, rng: &mut StdRng, numerator: u32, denominator: u32)
        requires
            all_wf(old(self).rules()),
            0 < old(self).rules().len() <= MAX_RULES,
            0 < denominator,
            numerator <= denominator,
        ensures
            all_wf(final(self).rules()),
            rewritten(
                old(self).rules(),
                final(self).rules(),
                after_redraw(old(self).rules().len() as int),
            ),
            numerator == 0 ==> final(self).rules() == old(self).rules(),
            numerator == denominator ==> rewritten(
                old(self).rules(),
                final(self).rules(),
                after_draw(old(self).rules().len() as int),
            ),
            rules_valid(old(self).rules()) ==> rules_valid(final(self).rules()),
    ;

    /// Removes every rule that no stem refers to, the root excepted, and
    /// renumbers the stems to the new indices.
    fn clear_dead_rules(&mut self)
        requires
            all_wf(old(self).rules()),
            0 < old(self).rules().len() <= MAX_RULES + 1,
            rules_valid(old(self).rules()),
        ensures
            all_wf(final(self).rules()),
            final(self).rules() == without_dead(old(self).rules()),
            0 < final(self).rules().len() <= old(self).rules().len(),
            rules_valid(final(self).rules()),
    ;

    /// Trims every rule, see [`GridView::trimmed`].
    fn contract_empty_borders(&mut self)
        requires
            all_wf(old(self).rules()),
        ensures
            all_wf(final(self).rules()),
            final(self).rules() == all_trimmed(old(self).rules()),
            rules_valid(old(self).rules()) ==> rules_valid(final(self).rules()),
    ;
}

/// The number of stems that refer to rule `t`, as far as it can be told from
/// the largest number that can still be drawn below.
fn count_references(rules: &Vec<Grid>, t: usize) -> (found: u64)
    ensures
        found == vstd::math::min(references(grid_views(rules@), t as int), u64::MAX as int),
{
    let ghost views = grid_views(rules@);
    let count: usize = rules.len();
    let mut found: u64 = 0;
    let mut i: usize = 0;
    while i < count
        invariant
            count == rules.len(),
            views == grid_views(rules@),
            i <= count,
            found == vstd::math::min(references_before(views, t as int, i as int), u64::MAX as int),
        decreases count - i,
    {
        let cells: &Vec<Cell> = rules[i].contents();
        let ghost rows = references_before(views, t as int, i as int);
        let mut j: usize = 0;
        while j < cells.len()
            invariant
                i < count,
                count == rules.len(),
                views == grid_views(rules@),
                cells@ == views[i as int].cells,
                j <= cells.len(),
                rows == references_before(views, t as int, i as int),
                0 <= stems_of_type_before(views[i as int], t as int, j as int),
                found == vstd::math::min(
                    rows + stems_of_type_before(views[i as int], t as int, j as int),
                    u64::MAX as int,
                ),
            decreases cells.len() - j,
        {
            if let Cell::Stem(n, _) = cells[j] {
                if n as usize == t && found < u64::MAX {
                    found += 1;
                }
            }
            j += 1;
        }
        i += 1;
    }
    found
}

/// Counts of stems are never negative, and none comes before the first cell.
pub proof fn lemma_references_nonnegative(rules: Seq<GridView>, t: int, k: int)
    ensures
        0 <= references_before(rules, t, k),
        forall|i: int, n: int| 0 <= #[trigger] stems_of_type_before(rules[i], t, n),
    decreases k,
{
    assert forall|i: int, n: int| 0 <= #[trigger] stems_of_type_before(rules[i], t, n) by {
        lemma_stems_of_type_nonnegative(rules[i], t, n);
    }
    if k > 0 {
        lemma_references_nonnegative(rules, t, k - 1);
    }
}

proof fn lemma_stems_of_type_nonnegative(grid: GridView, t: int, n: int)
    ensures
        0 <= stems_of_type_before(grid, t, n),
    decreases n,
{
    if n > 0 {
        lemma_stems_of_type_nonnegative(grid, t, n - 1);
    }
}

/// Splits the stems of type `choice` at occurrence `cut`: see [`separated`].
pub fn separate_at(rules: &mut Vec<Grid>, choice: usize, cut: u64)
    requires
        all_wf(grid_views(old(rules)@)),
        choice < old(rules).len() < MAX_RULES,
    ensures
        all_wf(grid_views(final(rules)@)),
        grid_views(final(rules)@) == separated(grid_views(old(rules)@), choice as int, cut as int),
        rules_valid(grid_views(old(rules)@)) ==> rules_valid(grid_views(final(rules)@)),
{
    let ghost before = grid_views(rules@);
    let ghost t = choice as int;
    let count: usize = rules.len();
    let copy: Grid = rules[choice].clone();
    rules.push(copy);
    let ghost widened = before.push(before[t]);
    assert(grid_views(rules@) =~= widened);
    let total: usize = count + 1;
    let mut seen: u64 = 0;
    let mut i: usize = 0;
    proof {
        lemma_references_nonnegative(before, t, 0);
        let target = separated_upto(before, t, cut as int, 0, 0);
        assert forall|a: int| 0 <= a < widened.len() implies #[trigger] target[a] == widened[a] by {
            assert(target[a].cells =~= widened[a].cells);
        }
        assert(grid_views(rules@) =~= target);
    }
    while i < count
        invariant
            total == rules.len(),
            total == count + 1,
            count < MAX_RULES,
            t == choice,
            choice < count,
            before.len() == count,
            widened == before.push(before[t]),
            i <= count,
            grid_views(rules@) == separated_upto(before, t, cut as int, i as int, 0),
            seen == vstd::math::min(references_before(before, t, i as int), u64::MAX as int),
        decreases count - i,
    {
        let cells_len: usize = rules[i].contents().len();
        let ghost rows = references_before(before, t, i as int);
        proof {
            lemma_references_nonnegative(before, t, i as int);
            assert(grid_views(rules@)[i as int] == rules@[i as int]@);
            assert(separated_upto(before, t, cut as int, i as int, 0)[i as int].cells.len()
                == widened[i as int].cells.len());
        }
        let mut j: usize = 0;
        while j < cells_len
            invariant
                total == rules.len(),
                total == count + 1,
                count < MAX_RULES,
                t == choice,
                choice < count,
                before.len() == count,
                widened == before.push(before[t]),
                i < count,
                j <= cells_len,
                cells_len == widened[i as int].cells.len(),
                rows == references_before(before, t, i as int),
                0 <= rows,
                0 <= stems_of_type_before(before[i as int], t, j as int),
                grid_views(rules@) == separated_upto(before, t, cut as int, i as int, j as int),
                seen == vstd::math::min(
                    rows + stems_of_type_before(before[i as int], t, j as int),
                    u64::MAX as int,
                ),
            decreases cells_len - j,
        {
            let ghost now = grid_views(rules@);
            proof {
                assert(now[i as int] == rules@[i as int]@);
                assert(now[i as int].cells.len() == widened[i as int].cells.len());
                assert(now[i as int].cells[j as int] == widened[i as int].cells[j as int]);
            }
            let cell: Cell = rules[i].contents()[j];
            assert(cell == widened[i as int].cells[j as int]);
            let mut moved: bool = false;
            if let Cell::Stem(n, dir) = cell {
                if n as usize == choice {
                    if seen >= cut {
                        set_cell(rules, i, j, Cell::Stem(count as u8, dir));
                        moved = true;
                    }
                    if seen < u64::MAX {
                        seen += 1;
                    }
                }
            }
            proof {
                let next = grid_views(rules@);
                let target = separated_upto(before, t, cut as int, i as int, j + 1);
                assert forall|a: int| 0 <= a < widened.len() implies #[trigger] next[a]
                    == target[a] by {
                    assert(now[a] == separated_upto(before, t, cut as int, i as int, j as int)[a]);
                    assert(next[a].cells =~= target[a].cells);
                }
                assert(next =~= target);
            }
            j += 1;
        }
        proof {
            let now = grid_views(rules@);
            let target = separated_upto(before, t, cut as int, i + 1, 0);
            assert forall|a: int| 0 <= a < widened.len() implies #[trigger] now[a] == target[a] by {
                assert(now[a].cells =~= target[a].cells);
            }
            assert(now =~= target);
        }
        i += 1;
    }
    proof {
        let after = grid_views(rules@);
        let target = separated(before, t, cut as int);
        assert forall|a: int| 0 <= a < widened.len() implies #[trigger] after[a] == target[a] by {
            assert(after[a].cells =~= target[a].cells);
        }
        assert(after =~= target);
        assert forall|a: int| 0 <= a < after.len() implies (#[trigger] after[a]).wf() by {
            assert(before[if a < count { a } else { t }].wf());
        }
        if rules_valid(before) {
            assert forall|a: int, b: int|
                0 <= a < after.len() && 0 <= b < after[a].cells.len() implies (#[trigger] after[a].cells[b]).stem_below(
                after.len() as int,
            ) by {
                let source = if a < count { a } else { t };
                assert(before[source].cells[b].stem_below(before.len() as int));
            }
        }
    }
}

/// Whether rule `t` is the root or a stem in front of cell `j` of rule `i`
/// refers to it.
pub open spec fn is_used_upto(rules: Seq<GridView>, t: int, i: int, j: int) -> bool {
    t == 0 || exists|a: int, b: int|
        0 <= a < rules.len() && 0 <= b < rules[a].cells.len() && (a < i || (a == i && b < j))
            && refers_to(#[trigger] rules[a].cells[b], t)
}

/// The used rules are as many as the ranks tell, and each used rule ranks
/// below their number.
pub proof fn lemma_rank(rules: Seq<GridView>, k: int)
    requires
        0 <= k <= rules.len(),
    ensures
        live_from(rules, k).len() == rank(rules, rules.len() as int) - rank(rules, k),
        0 <= rank(rules, k) <= k,
        forall|t: int| k <= t < rules.len() && is_used(rules, t) ==> rank(rules, t) < rank(rules, rules.len() as int),
    decreases rules.len() - k,
{
    lemma_rank_bounds(rules, k);
    if k < rules.len() {
        lemma_rank(rules, k + 1);
    }
}

proof fn lemma_rank_bounds(rules: Seq<GridView>, k: int)
    requires
        0 <= k,
    ensures
        0 <= rank(rules, k) <= k,
    decreases k,
{
    if k > 0 {
        lemma_rank_bounds(rules, k - 1);
    }
}

/// Removes the rules that no stem refers to: see [`without_dead`].
fn clear_dead(rules: &mut Vec<Grid>)
    requires
        all_wf(grid_views(old(rules)@)),
        0 < old(rules).len() <= MAX_RULES + 1,
        rules_valid(grid_views(old(rules)@)),
    ensures
        all_wf(grid_views(final(rules)@)),
        grid_views(final(rules)@) == without_dead(grid_views(old(rules)@)),
        0 < final(rules).len() <= old(rules).len(),
        rules_valid(grid_views(final(rules)@)),
{
    let ghost before = grid_views(rules@);
    let count: usize = rules.len();
    let used: Vec<bool> = used_rules(rules);
    let ranks: Vec<u8> = ranks_of(&used, Ghost(before));
    relabel(rules, &ranks);
    let ghost fresh = grid_views(rules@);
    let mut i: usize = count;
    proof {
        assert(fresh.take(count as int) + live_from(before, count as int) =~= fresh);
    }
    while i > 0
        invariant
            i <= count,
            count == before.len(),
            used.len() == count,
            fresh.len() == count,
            rules.len() >= i,
            forall|t: int| 0 <= t < count ==> used[t] == is_used(before, t),
            forall|a: int| 0 <= a < count ==> #[trigger] fresh[a] == relabeled(before, before[a]),
            grid_views(rules@) == fresh.take(i as int) + live_from(before, i as int),
        decreases i,
    {
        i -= 1;
        let ghost now = grid_views(rules@);
        if !used[i] {
            let _ = rules.remove(i);
            assert(grid_views(rules@) =~= now.remove(i as int));
        }
        proof {
            assert(grid_views(rules@) =~= fresh.take(i as int) + live_from(before, i as int));
        }
    }
    proof {
        let after = grid_views(rules@);
        assert(fresh.take(0) + live_from(before, 0) =~= live_from(before, 0));
        lemma_rank(before, 0);
        lemma_live(before, 0);
    }
}

/// What is left of a valid set once the unused rules are gone is a valid set
/// of well-formed grids, the root among them.
pub proof fn lemma_live(rules: Seq<GridView>, k: int)
    requires
        0 <= k <= rules.len(),
        all_wf(rules),
        rules_valid(rules),
        rules.len() <= MAX_RULES + 1,
    ensures
        all_wf(live_from(rules, k)),
        live_from(rules, k).len() <= rules.len() - k,
        k == 0 && rules.len() > 0 ==> live_from(rules, k).len() > 0,
        forall|a: int, b: int|
            0 <= a < live_from(rules, k).len() && 0 <= b < live_from(rules, k)[a].cells.len()
                ==> (#[trigger] live_from(rules, k)[a].cells[b]).stem_below(
                rank(rules, rules.len() as int),
            ),
        k == 0 ==> rules_valid(live_from(rules, k)),
    decreases rules.len() - k,
{
    if k < rules.len() {
        lemma_live(rules, k + 1);
        lemma_rank(rules, 0);
        let rest = live_from(rules, k + 1);
        let all = live_from(rules, k);
        if is_used(rules, k) {
            let head = relabeled(rules, rules[k]);
            assert(rules[k].wf());
            assert(all =~= seq![head] + rest);
            assert forall|a: int| 0 <= a < all.len() implies (#[trigger] all[a]).wf() by {
                if a > 0 {
                    assert(all[a] == rest[a - 1]);
                }
            }
            assert forall|a: int, b: int|
                0 <= a < all.len() && 0 <= b < all[a].cells.len() implies (#[trigger] all[a].cells[b]).stem_below(
                rank(rules, rules.len() as int),
            ) by {
                if a > 0 {
                    assert(all[a] == rest[a - 1]);
                    assert(rest[a - 1].cells[b].stem_below(rank(rules, rules.len() as int)));
                } else {
                    let cell = rules[k].cells[b];
                    assert(cell.stem_below(rules.len() as int));
                    if let Cell::Stem(n, _) = cell {
                        assert(refers_to(rules[k].cells[b], n as int));
                        assert(is_used(rules, n as int));
                        lemma_rank_bounds(rules, n as int);
                    }
                }
            }
        }
    }
    if k == 0 {
        lemma_rank(rules, 0);
    }
}

/// For each rule, whether it is the root or some stem refers to it.
fn used_rules(rules: &Vec<Grid>) -> (used: Vec<bool>)
    requires
        0 < rules.len(),
        rules_valid(grid_views(rules@)),
    ensures
        used.len() == rules.len(),
        forall|t: int| 0 <= t < used.len() ==> used[t] == is_used(grid_views(rules@), t),
{
    let ghost views = grid_views(rules@);
    let count: usize = rules.len();
    let mut used: Vec<bool> = Vec::new();
    let mut k: usize = 0;
    while k < count
        invariant
            k <= count,
            used.len() == k,
            forall|t: int| 0 <= t < k ==> used[t] == (t == 0),
        decreases count - k,
    {
        used.push(k == 0);
        k += 1;
    }
    let mut i: usize = 0;
    while i < count
        invariant
            count == rules.len(),
            views == grid_views(rules@),
            rules_valid(views),
            used.len() == count,
            i <= count,
            forall|t: int| 0 <= t < count ==> used[t] == is_used_upto(views, t, i as int, 0),
        decreases count - i,
    {
        let cells: &Vec<Cell> = rules[i].contents();
        let mut j: usize = 0;
        while j < cells.len()
            invariant
                count == rules.len(),
                views == grid_views(rules@),
                rules_valid(views),
                used.len() == count,
                i < count,
                cells@ == views[i as int].cells,
                j <= cells.len(),
                forall|t: int| 0 <= t < count ==> used[t] == is_used_upto(views, t, i as int, j as int),
            decreases cells.len() - j,
        {
            let ghost earlier = used@;
            if let Cell::Stem(n, _) = cells[j] {
                assert(views[i as int].cells[j as int].stem_below(count as int));
                used.set(n as usize, true);
            }
            proof {
                assert forall|t: int| 0 <= t < count implies used[t] == is_used_upto(
                    views,
                    t,
                    i as int,
                    j + 1,
                ) by {
                    if refers_to(cells@[j as int], t) {
                        assert(refers_to(views[i as int].cells[j as int], t));
                    } else {
                        assert(used[t] == earlier[t]);
                        if is_used_upto(views, t, i as int, j + 1) && t != 0 {
                            let (a, b) = choose|a: int, b: int|
                                0 <= a < views.len() && 0 <= b < views[a].cells.len() && (a < i || (a
                                    == i && b < j + 1)) && refers_to(#[trigger] views[a].cells[b], t);
                            assert(refers_to(views[a].cells[b], t));
                            assert(!(a == i && b == j));
                        }
                        if is_used_upto(views, t, i as int, j as int) && t != 0 {
                            let (a, b) = choose|a: int, b: int|
                                0 <= a < views.len() && 0 <= b < views[a].cells.len() && (a < i || (a
                                    == i && b < j)) && refers_to(#[trigger] views[a].cells[b], t);
                            assert(refers_to(views[a].cells[b], t));
                        }
                    }
                }
            }
            j += 1;
        }
        proof {
            assert forall|t: int| 0 <= t < count implies used[t] == is_used_upto(
                views,
                t,
                i + 1,
                0,
            ) by {
                if is_used_upto(views, t, i + 1, 0) && t != 0 {
                    let (a, b) = choose|a: int, b: int|
                        0 <= a < views.len() && 0 <= b < views[a].cells.len() && (a < i + 1 || (a == i
                            + 1 && b < 0)) && refers_to(#[trigger] views[a].cells[b], t);
                    assert(refers_to(views[a].cells[b], t));
                    assert(a < i || (a == i && b < cells.len()));
                }
                if is_used_upto(views, t, i as int, cells.len() as int) && t != 0 {
                    let (a, b) = choose|a: int, b: int|
                        0 <= a < views.len() && 0 <= b < views[a].cells.len() && (a < i || (a == i
                            && b < cells.len())) && refers_to(#[trigger] views[a].cells[b], t);
                    assert(refers_to(views[a].cells[b], t));
                }
            }
        }
        i += 1;
    }
    proof {
        assert forall|t: int| 0 <= t < count implies used[t] == is_used(views, t) by {
            if is_used(views, t) && t != 0 {
                let (a, b) = choose|a: int, b: int|
                    0 <= a < views.len() && 0 <= b < views[a].cells.len() && refers_to(
                        #[trigger] views[a].cells[b],
                        t,
                    );
                assert(refers_to(views[a].cells[b], t));
            }
            if is_used_upto(views, t, count as int, 0) && t != 0 {
                let (a, b) = choose|a: int, b: int|
                    0 <= a < views.len() && 0 <= b < views[a].cells.len() && (a < count || (a
                        == count && b < 0)) && refers_to(#[trigger] views[a].cells[b], t);
                assert(refers_to(views[a].cells[b], t));
            }
        }
    }
    used
}

/// For each rule, the number of used rules below it.
fn ranks_of(used: &Vec<bool>, Ghost(rules): Ghost<Seq<GridView>>) -> (ranks: Vec<u8>)
    requires
        used.len() == rules.len(),
        used.len() <= MAX_RULES + 1,
        forall|t: int| 0 <= t < used.len() ==> used[t] == is_used(rules, t),
    ensures
        ranks.len() == used.len(),
        forall|t: int| 0 <= t < ranks.len() ==> ranks[t] == rank(rules, t),
{
    let mut ranks: Vec<u8> = Vec::new();
    let mut live: usize = 0;
    let mut t: usize = 0;
    while t < used.len()
        invariant
            used.len() == rules.len(),
            used.len() <= MAX_RULES + 1,
            forall|k: int| 0 <= k < used.len() ==> used[k] == is_used(rules, k),
            t <= used.len(),
            ranks.len() == t,
            live == rank(rules, t as int),
            live <= t,
            forall|k: int| 0 <= k < t ==> ranks[k] == rank(rules, k),
        decreases used.len() - t,
    {
        ranks.push(live as u8);
        if used[t] {
            live += 1;
        }
        t += 1;
    }
    ranks
}

/// Renumbers every stem by the table of ranks.
fn relabel(rules: &mut Vec<Grid>, ranks: &Vec<u8>)
    requires
        ranks.len() == old(rules).len(),
        rules_valid(grid_views(old(rules)@)),
        forall|t: int| 0 <= t < ranks.len() ==> ranks[t] == rank(grid_views(old(rules)@), t),
    ensures
        final(rules).len() == old(rules).len(),
        forall|a: int|
            0 <= a < old(rules).len() ==> #[trigger] grid_views(final(rules)@)[a] == relabeled(
                grid_views(old(rules)@),
                grid_views(old(rules)@)[a],
            ),
{
    let ghost before = grid_views(rules@);
    let ghost r = |b: Cell, a: Cell| a == relabeled_cell(before, b);
    let count: usize = rules.len();
    let mut i: usize = 0;
    while i < count
        invariant
            count == rules.len(),
            count == before.len(),
            ranks.len() == count,
            rules_valid(before),
            forall|t: int| 0 <= t < ranks.len() ==> ranks[t] == rank(before, t),
            i <= count,
            r == (|b: Cell, a: Cell| a == relabeled_cell(before, b)),
            rewritten_upto(before, grid_views(rules@), r, i as int, 0),
        decreases count - i,
    {
        let cells_len: usize = rules[i].contents().len();
        let mut j: usize = 0;
        while j < cells_len
            invariant
                count == rules.len(),
                count == before.len(),
                ranks.len() == count,
                rules_valid(before),
                forall|t: int| 0 <= t < ranks.len() ==> ranks[t] == rank(before, t),
                i < count,
                j <= cells_len,
                cells_len == grid_views(rules@)[i as int].cells.len(),
                r == (|b: Cell, a: Cell| a == relabeled_cell(before, b)),
                rewritten_upto(before, grid_views(rules@), r, i as int, j as int),
            decreases cells_len - j,
        {
            let cell: Cell = rules[i].contents()[j];
            assert(cell == before[i as int].cells[j as int]) by {
                assert(grid_views(rules@)[i as int].cells[j as int] == before[i as int].cells[j as int]);
                assert(grid_views(rules@)[i as int].same_shape(before[i as int]));
            }
            match cell {
                Cell::Stem(n, dir) => {
                    assert(before[i as int].cells[j as int].stem_below(count as int));
                    rewrite_cell(rules, i, j, Cell::Stem(ranks[n as usize], dir), Ghost(before), Ghost(r));
                },
                _ => {
                    proof {
                        lemma_keep_cell(before, grid_views(rules@), r, i as int, j as int);
                    }
                },
            }
            j += 1;
        }
        proof {
            lemma_next_rule(before, grid_views(rules@), r, i as int);
        }
        i += 1;
    }
    proof {
        let after = grid_views(rules@);
        assert forall|a: int| 0 <= a < count implies #[trigger] after[a] == relabeled(
            before,
            before[a],
        ) by {
            assert(after[a].same_shape(before[a]));
            assert forall|b: int| 0 <= b < after[a].cells.len() implies after[a].cells[b]
                == relabeled(before, before[a]).cells[b] by {
                assert(r(before[a].cells[b], after[a].cells[b]));
            }
            assert(after[a].cells =~= relabeled(before, before[a]).cells);
        }
    }
}

/// The bound that stems of a set of `count` rules are drawn below.
fn stem_bound(count: usize) -> (bound: u8)
    requires
        0 < count <= MAX_RULES,
    ensures
        bound == count,
{
    count as u8
}

/// Replaces rule `i` by a grid of the same stems or fewer.
proof fn lemma_update_valid(before: Seq<GridView>, i: int, grid: GridView)
    requires
        rules_valid(before),
        0 <= i < before.len(),
        grid.cells_below(before.len() as int),
    ensures
        rules_valid(before.update(i, grid)),
{
    let after = before.update(i, grid);
    assert forall|a: int, b: int| 0 <= a < after.len() && 0 <= b < after[a].cells.len() implies (
    #[trigger] after[a].cells[b]).stem_below(after.len() as int) by {
        if a != i {
            assert(before[a].cells[b].stem_below(before.len() as int));
        }
    }
}

/// The stems of a valid set are below the number of its rules, grid by grid.
proof fn lemma_valid_cells_below(rules: Seq<GridView>, i: int)
    requires
        rules_valid(rules),
        0 <= i < rules.len(),
    ensures
        rules[i].cells_below(rules.len() as int),
{
    assert forall|b: int| 0 <= b < rules[i].cells.len() implies (#[trigger] rules[i].cells[b]).stem_below(
        rules.len() as int,
    ) by {}
}

impl Ruleset for Vec<Grid> {
    open spec fn rules(&self) -> Seq<GridView> {
        grid_views(self@)
    }

    fn delete_rule(&mut self, rng: &mut StdRng) {
        let ghost before = grid_views(self@);
        let to_delete: usize = 1 + draw_below(rng, (self.len() - 1) as u64) as usize;
        let _ = self.remove(to_delete);
        let count: usize = self.len();
        let ghost r = after_deletion(to_delete as int, count as int);
        let ghost start = before.remove(to_delete as int);
        assert(grid_views(self@) =~= start);
        let mut i: usize = 0;
        while i < count
            invariant
                count == self.len(),
                2 <= count < MAX_RULES,
                1 <= to_delete <= count,
                i <= count,
                r == after_deletion(to_delete as int, count as int),
                rewritten_upto(start, grid_views(self@), r, i as int, 0),
            decreases count - i,
        {
            let cells_len: usize = self[i].contents().len();
            let mut j: usize = 0;
            while j < cells_len
                invariant
                    count == self.len(),
                    2 <= count < MAX_RULES,
                    1 <= to_delete <= count,
                    i < count,
                    j <= cells_len,
                    cells_len == grid_views(self@)[i as int].cells.len(),
                    r == after_deletion(to_delete as int, count as int),
                    rewritten_upto(start, grid_views(self@), r, i as int, j as int),
                decreases cells_len - j,
            {
                let cell: Cell = self[i].contents()[j];
                assert(cell == start[i as int].cells[j as int]) by {
                    assert(grid_views(self@)[i as int].cells[j as int] == start[i as int].cells[j as int]);
                }
                match cell {
                    Cell::Stem(n, dir) => {
                        if n as usize > to_delete {
                            rewrite_cell(self, i, j, Cell::Stem(n - 1, dir), Ghost(start), Ghost(r));
                        } else if n as usize == to_delete {
                            let m: u8 = (1 + draw_below(rng, (count - 1) as u64)) as u8;
                            rewrite_cell(self, i, j, Cell::Stem(m, dir), Ghost(start), Ghost(r));
                        } else {
                            proof {
                                lemma_keep_cell(start, grid_views(self@), r, i as int, j as int);
                            }
                        }
                    },
                    _ => {
                        proof {
                            lemma_keep_cell(start, grid_views(self@), r, i as int, j as int);
                        }
                    },
                }
                j += 1;
            }
            proof {
                lemma_next_rule(start, grid_views(self@), r, i as int);
            }
            i += 1;
        }
        proof {
            let after = grid_views(self@);
            assert(rewritten(start, after, r));
            assert(is_deletion(before, after, to_delete as int));
            assert(all_wf(start)) by {
                assert forall|a: int| 0 <= a < start.len() implies (#[trigger] start[a]).wf() by {
                    assert(before[if a < to_delete { a } else { a + 1 }].wf());
                }
            }
            lemma_rewritten_upto_wf(start, after, r, count as int, 0);
            if rules_valid(before) {
                assert forall|a: int, b: int|
                    0 <= a < after.len() && 0 <= b < after[a].cells.len() implies (#[trigger] after[a].cells[b]).stem_below(
                    after.len() as int,
                ) by {
                    let source = before[if a < to_delete { a } else { a + 1 }];
                    assert(after[a].same_shape(start[a]));
                    assert(r(start[a].cells[b], after[a].cells[b]));
                    assert(source.cells[b].stem_below(before.len() as int));
                }
            }
        }
    }

    fn add_rule(&mut self, rng: &mut StdRng) {
        let ghost before = grid_views(self@);
        let count: usize = self.len();
        let ghost r = after_addition(count as int);
        let mut i: usize = 0;
        while i < count
            invariant
                count == self.len(),
                count < MAX_RULES,
                i <= count,
                r == after_addition(count as int),
                rewritten_upto(before, grid_views(self@), r, i as int, 0),
            decreases count - i,
        {
            let cells_len: usize = self[i].contents().len();
            let mut j: usize = 0;
            while j < cells_len
                invariant
                    count == self.len(),
                    count < MAX_RULES,
                    i < count,
                    j <= cells_len,
                    cells_len == grid_views(self@)[i as int].cells.len(),
                    r == after_addition(count as int),
                    rewritten_upto(before, grid_views(self@), r, i as int, j as int),
                decreases cells_len - j,
            {
                let cell: Cell = self[i].contents()[j];
                assert(cell == before[i as int].cells[j as int]) by {
                    assert(grid_views(self@)[i as int].cells[j as int] == before[i as int].cells[j as int]);
                }
                let mut moved: bool = false;
                if let Cell::Stem(_, dir) = cell {
                    if draw_ratio(rng, 1, (count + 1) as u32) {
                        rewrite_cell(self, i, j, Cell::Stem(count as u8, dir), Ghost(before), Ghost(r));
                        moved = true;
                    }
                }
                if !moved {
                    proof {
                        lemma_keep_cell(before, grid_views(self@), r, i as int, j as int);
                    }
                }
                j += 1;
            }
            proof {
                lemma_next_rule(before, grid_views(self@), r, i as int);
            }
            i += 1;
        }
        let ghost changed = grid_views(self@);
        let fresh: Grid = Grid::random(rng, stem_bound(count + 1));
        self.push(fresh);
        proof {
            let after = grid_views(self@);
            assert(after.drop_last() =~= changed);
            assert(after.last() == fresh@);
            lemma_rewritten_upto_wf(before, changed, r, count as int, 0);
            assert forall|a: int| 0 <= a < after.len() implies (#[trigger] after[a]).wf() by {
                if a < count {
                    assert(after[a] == changed[a]);
                }
            }
            if rules_valid(before) {
                assert forall|a: int, b: int|
                    0 <= a < after.len() && 0 <= b < after[a].cells.len() implies (#[trigger] after[a].cells[b]).stem_below(
                    after.len() as int,
                ) by {
                    if a < count {
                        assert(after[a] == changed[a]);
                        assert(changed[a].same_shape(before[a]));
                        assert(r(before[a].cells[b], changed[a].cells[b]));
                        assert(before[a].cells[b].stem_below(before.len() as int));
                    }
                }
            }
        }
    }

    fn expand_rule(&mut self, rng: &mut StdRng) {
        let ghost before = grid_views(self@);
        let count: usize = self.len();
        let i: usize = draw_below(rng, count as u64) as usize;
        let dir: Direction = Direction::random(rng);
        assert(before[i as int].wf());
        if self[i].can_expand(dir) {
            let rule: &mut Grid = &mut self[i];
            rule.expand(dir, rng, stem_bound(count));
            proof {
                let after = grid_views(self@);
                assert(after =~= before.update(i as int, after[i as int]));
                assert(after[i as int].is_expansion_of(before[i as int], dir, count as int));
                assert forall|a: int| 0 <= a < after.len() implies (#[trigger] after[a]).wf() by {
                    if a != i {
                        assert(before[a].wf());
                    }
                }
                if rules_valid(before) {
                    lemma_valid_cells_below(before, i as int);
                    after[i as int].lemma_expansion(before[i as int], dir, count as int);
                    lemma_update_valid(before, i as int, after[i as int]);
                }
            }
        }
        assert(expands_rule(before, grid_views(self@), i as int, dir));
    }

    fn contract_rule(&mut self, rng: &mut StdRng) {
        let ghost before = grid_views(self@);
        let count: usize = self.len();
        let i: usize = draw_below(rng, count as u64) as usize;
        let dir: Direction = Direction::random(rng);
        assert(before[i as int].wf());
        let rule: &mut Grid = &mut self[i];
        let _ = rule.contract(dir);
        proof {
            let after = grid_views(self@);
            assert(after =~= before.update(i as int, before[i as int].contract(dir)));
            assert forall|a: int| 0 <= a < after.len() implies (#[trigger] after[a]).wf() by {
                if a != i {
                    assert(before[a].wf());
                }
            }
            if rules_valid(before) {
                lemma_valid_cells_below(before, i as int);
                before[i as int].lemma_contract(dir);
                let cut = before[i as int].contract(dir);
                assert(cut.cells_below(count as int)) by {
                    assert forall|b: int| 0 <= b < cut.cells.len() implies (#[trigger] cut.cells[b]).stem_below(
                        count as int,
                    ) by {
                        cut.lemma_index_round_trip(b);
                        let x = cut.x_of(b);
                        let y = cut.y_of(b);
                        assert(cut.at(x, y) == before[i as int].at(x, y));
                        if before[i as int].contains(x, y) {
                            before[i as int].lemma_position_round_trip(x, y);
                        }
                    }
                }
                lemma_update_valid(before, i as int, cut);
            }
        }
    }

    fn separate_rule(&mut self, rng: &mut StdRng) {
        let ghost before = grid_views(self@);
        let count: usize = self.len();
        let choice: usize = draw_below(rng, count as u64) as usize;
        let found: u64 = count_references(self, choice);
        if found > 1 {
            let cut: u64 = draw_below(rng, found);
            separate_at(self, choice, cut);
        }
    }

    fn mutate_cells(&mut self, rng: &mut StdRng, numerator: u32, denominator: u32) {
        let ghost before = grid_views(self@);
        let count: usize = self.len();
        // a cell may stay unless every draw hits, and may change only if some draw can hit
        let ghost r = |b: Cell, a: Cell|
            (numerator < denominator && a == b) || (numerator > 0 && a.stem_below(count as int));
        let mut i: usize = 0;
        while i < count
            invariant
                count == self.len(),
                0 < count <= MAX_RULES,
                0 < denominator,
                numerator <= denominator,
                i <= count,
                r == (|b: Cell, a: Cell|
                    (numerator < denominator && a == b) || (numerator > 0 && a.stem_below(
                        count as int,
                    ))),
                rewritten_upto(before, grid_views(self@), r, i as int, 0),
                numerator == 0 ==> grid_views(self@) == before,
            decreases count - i,
        {
            let cells_len: usize = self[i].contents().len();
            let mut j: usize = 0;
            while j < cells_len
                invariant
                    count == self.len(),
                    0 < count <= MAX_RULES,
                    0 < denominator,
                    numerator <= denominator,
                    i < count,
                    j <= cells_len,
                    cells_len == grid_views(self@)[i as int].cells.len(),
                    r == (|b: Cell, a: Cell|
                        (numerator < denominator && a == b) || (numerator > 0 && a.stem_below(
                            count as int,
                        ))),
                    rewritten_upto(before, grid_views(self@), r, i as int, j as int),
                    numerator == 0 ==> grid_views(self@) == before,
                decreases cells_len - j,
            {
                if draw_ratio(rng, numerator, denominator) {
                    let cell: Cell = Cell::random(rng, stem_bound(count));
                    rewrite_cell(self, i, j, cell, Ghost(before), Ghost(r));
                } else {
                    proof {
                        lemma_keep_cell(before, grid_views(self@), r, i as int, j as int);
                    }
                }
                j += 1;
            }
            proof {
                lemma_next_rule(before, grid_views(self@), r, i as int);
            }
            i += 1;
        }
        proof {
            let after = grid_views(self@);
            lemma_rewritten_upto_wf(before, after, r, count as int, 0);
            let either = after_redraw(count as int);
            assert forall|b: Cell, a: Cell| #[trigger] r(b, a) implies either(b, a) by {}
            lemma_rewritten_weaken(before, after, r, either);
            if numerator == denominator {
                let drawn = after_draw(count as int);
                assert forall|b: Cell, a: Cell| #[trigger] r(b, a) implies drawn(b, a) by {}
                lemma_rewritten_weaken(before, after, r, drawn);
            }
            if rules_valid(before) {
                lemma_rewritten(before, after, either, count as int);
            }
        }
    }

    fn clear_dead_rules(&mut self) {
        clear_dead(self);
    }

    fn contract_empty_borders(&mut self) {
        let ghost before = grid_views(self@);
        let count: usize = self.len();
        let mut i: usize = 0;
        while i < count
            invariant
                count == self.len(),
                count == before.len(),
                i <= count,
                all_wf(before),
                forall|a: int| 0 <= a < i ==> (#[trigger] grid_views(self@)[a]) == before[a].trimmed(),
                forall|a: int| i <= a < count ==> (#[trigger] grid_views(self@)[a]) == before[a],
            decreases count - i,
        {
            assert(before[i as int].wf());
            let ghost earlier = grid_views(self@);
            assert(earlier[i as int] == before[i as int]);
            assert(earlier[i as int] == self@[i as int]@);
            let rule: &mut Grid = &mut self[i];
            rule.contract_empty();
            proof {
                let now = grid_views(self@);
                assert(now[i as int] == self@[i as int]@);
                assert forall|a: int| 0 <= a < i + 1 implies (#[trigger] now[a]) == before[a].trimmed() by {
                    if a < i {
                        assert(now[a] == earlier[a]);
                    }
                }
                assert forall|a: int| i + 1 <= a < count implies (#[trigger] now[a]) == before[a] by {
                    assert(now[a] == earlier[a]);
                }
            }
            i += 1;
        }
        proof {
            let after = grid_views(self@);
            assert(after =~= all_trimmed(before));
            assert forall|a: int| 0 <= a < after.len() implies (#[trigger] after[a]).wf() by {
                assert(before[a].wf());
                before[a].lemma_trimmed();
            }
            if rules_valid(before) {
                assert forall|a: int, b: int|
                    0 <= a < after.len() && 0 <= b < after[a].cells.len() implies (#[trigger] after[a].cells[b]).stem_below(
                    after.len() as int,
                ) by {
                    assert(before[a].wf());
                    before[a].lemma_trimmed();
                    let t = after[a];
                    t.lemma_index_round_trip(b);
                    let x = t.x_of(b);
                    let y = t.y_of(b);
                    assert(t.at(x, y) == before[a].at(x, y));
                    if before[a].contains(x, y) {
                        before[a].lemma_position_round_trip(x, y);
                        assert(before[a].cells[before[a].index_of(x, y)].stem_below(before.len() as int));
                    }
                }
            }
        }
    }
}

} // verus!
