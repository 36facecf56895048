//! The agent that is evolved: a rewriting engine grown from a single root
//! stem, judged by how alike the grown state is to a goal.

use rand::rngs::StdRng;
use vstd::prelude::*;

use crate::genetic_algorithm::evolve::MAX_FACTOR;
use crate::l_system::cell::{Cell, Direction};
use crate::l_system::grid::{Grid, GridView};
use crate::l_system::ruleset::{
    after_redraw, all_trimmed, expands_rule, is_addition, is_rule_contraction, is_rule_deletion,
    is_rule_expansion, is_separation, references, rewritten, separated, without_dead, Ruleset,
    MAX_RULES,
};
use crate::l_system::{all_wf, grid_views, rules_valid, EngineError, LSystem};
use crate::random::draw_below;

verus! {

/// An engine as an agent of evolution.
pub struct LS(pub LSystem);

/// The operators among which a mutation chooses its first step.
#[derive(Clone, Copy, Debug, PartialEq, Eq, Structural)]
pub enum Mutation {
    DeleteRule,
    AddRule,
    ExpandRule,
    ContractRule,
    SeparateRule,
    MutateCells,
}

/// The number of equally likely draws for a mutation under `factor`: twenty
/// slots of 5000 draws each at factor 0, down to 5.2 slots at factor 1000.
pub open spec fn mutation_draws(factor: int) -> int {
    100_000 - 74 * factor
}

/// The operator that slot `slot` stands for in a set of `rule_count` rules.
/// Slots 0 to 4 stand for the operators that change the structure; a slot
/// whose operator cannot be applied, and every later slot, stands for the
/// mutation of cells.
pub open spec fn mutation_for(slot: int, rule_count: int) -> Mutation {
    if slot == 0 && rule_count > 2 {
        Mutation::DeleteRule
    } else if slot == 1 && rule_count < MAX_RULES {
        Mutation::AddRule
    } else if slot == 2 {
        Mutation::ExpandRule
    } else if slot == 3 {
        Mutation::ContractRule
    } else if slot == 4 && rule_count < MAX_RULES {
        Mutation::SeparateRule
    } else {
        Mutation::MutateCells
    }
}

/// Whether the operator can be applied to a set of `rule_count` rules: a
/// deletion must leave two rules, and a rule can be added only below the
/// limit.
pub open spec fn applies(mutation: Mutation, rule_count: int) -> bool {
    match mutation {
        Mutation::DeleteRule => rule_count > 2,
        Mutation::AddRule => rule_count < MAX_RULES,
        Mutation::SeparateRule => rule_count < MAX_RULES,
        _ => true,
    }
}

/// `after` comes from `before` by the given operator.
pub open spec fn is_application(
    mutation: Mutation,
    before: Seq<GridView>,
    after: Seq<GridView>,
) -> bool {
    match mutation {
        Mutation::DeleteRule => is_rule_deletion(before, after),
        Mutation::AddRule => is_addition(before, after),
        Mutation::ExpandRule => is_rule_expansion(before, after),
        Mutation::ContractRule => is_rule_contraction(before, after),
        Mutation::SeparateRule => is_separation(before, after),
        Mutation::MutateCells => rewritten(before, after, after_redraw(before.len() as int)),
    }
}

/// `after` comes from `before` by a mutation under `factor`: the operator
/// of one of the slots that can be drawn is applied, then the rules that no
/// stem refers to are removed, then every rule is trimmed.
pub open spec fn is_mutation(before: Seq<GridView>, after: Seq<GridView>, factor: int) -> bool {
    exists|slot: int, changed: Seq<GridView>|
        0 <= slot <= (mutation_draws(factor) - 1) / 5000 && #[trigger] is_application(
            mutation_for(slot, before.len() as int),
            before,
            changed,
        ) && after == all_trimmed(without_dead(changed))
}

/// The state every agent is judged from: one stem of type 0 that faces up.
pub open spec fn seed_state() -> GridView {
    GridView {
        width: 1,
        height: 1,
        shift_x: 0,
        shift_y: 0,
        cells: seq![Cell::Stem(0, Direction::UP)],
    }
}

impl Mutation {
    /// See [`mutation_for`].
    pub fn for_slot(slot: u64, rule_count: usize) -> (mutation: Mutation)
        ensures
            mutation == mutation_for(slot as int, rule_count as int),
    {
        if slot == 0 && rule_count > 2 {
            Mutation::DeleteRule
        } else if slot == 1 && rule_count < MAX_RULES {
            Mutation::AddRule
        } else if slot == 2 {
            Mutation::ExpandRule
        } else if slot == 3 {
            Mutation::ContractRule
        } else if slot == 4 && rule_count < MAX_RULES {
            Mutation::SeparateRule
        } else {
            Mutation::MutateCells
        }
    }
}

/// Applies one operator to a rule set. The mutation of cells replaces a
/// cell with `factor + 20` chances in 2000.
pub fn apply(rules: &mut Vec<Grid>, mutation: Mutation, factor: u32, rng: &mut StdRng)
    requires
        all_wf(grid_views(old(rules)@)),
        0 < old(rules).len() <= MAX_RULES,
        applies(mutation, old(rules).len() as int),
        factor <= MAX_FACTOR,
    ensures
        all_wf(grid_views(final(rules)@)),
        is_application(mutation, grid_views(old(rules)@), grid_views(final(rules)@)),
        0 < final(rules).len() <= MAX_RULES,
        rules_valid(grid_views(old(rules)@)) ==> rules_valid(grid_views(final(rules)@)),
{
    let ghost before = grid_views(rules@);
    match mutation {
        Mutation::DeleteRule => {
            rules.delete_rule(rng);
        },
        Mutation::AddRule => {
            rules.add_rule(rng);
        },
        Mutation::ExpandRule => {
            rules.expand_rule(rng);
        },
        Mutation::ContractRule => {
            rules.contract_rule(rng);
        },
        Mutation::SeparateRule => {
            rules.separate_rule(rng);
        },
        Mutation::MutateCells => {
            rules.mutate_cells(rng, factor + 20, 2000);
        },
    }
    proof {
        lemma_same_len(before, grid_views(rules@));
    }
}

/// Mutates a rule set in place. A slot is drawn, uniformly among
/// [`mutation_draws`] draws of which 5000 make a slot, and the operator that
/// [`mutation_for`] gives for it is applied, see [`apply`]. Then the rules
/// that no stem refers to are removed and every rule is trimmed.
pub fn mutate(rules: &mut Vec<Grid>, factor: u32, rng: &mut StdRng)
    requires
        all_wf(grid_views(old(rules)@)),
        rules_valid(grid_views(old(rules)@)),
        0 < old(rules).len() <= MAX_RULES,
        factor <= MAX_FACTOR,
    ensures
        all_wf(grid_views(final(rules)@)),
        rules_valid(grid_views(final(rules)@)),
        0 < final(rules).len() <= MAX_RULES,
        is_mutation(grid_views(old(rules)@), grid_views(final(rules)@), factor as int),
{
    let ghost before = grid_views(rules@);
    let draws: u64 = 100_000 - 74 * factor as u64;
    let slot: u64 = draw_below(rng, draws) / 5000;
    apply(rules, Mutation::for_slot(slot, rules.len()), factor, rng);
    let ghost changed = grid_views(rules@);
    assert(is_application(mutation_for(slot as int, before.len() as int), before, changed));
    rules.clear_dead_rules();
    let ghost live = grid_views(rules@);
    rules.contract_empty_borders();
    assert(grid_views(rules@).len() == live.len());
}

/// An expansion or a contraction keeps the number of rules; a separation
/// keeps it or adds one rule.
pub proof fn lemma_same_len(before: Seq<GridView>, after: Seq<GridView>)
    requires
        0 < before.len(),
    ensures
        is_rule_expansion(before, after) ==> after.len() == before.len(),
        is_rule_contraction(before, after) ==> after.len() == before.len(),
        is_separation(before, after) ==> before.len() <= after.len() <= before.len() + 1,
{
    if is_rule_expansion(before, after) {
        let (i, dir) = choose|i: int, dir: Direction|
            0 <= i < before.len() && #[trigger] expands_rule(before, after, i, dir);
        assert(after.len() == before.update(i, after[i]).len());
    }
    if is_rule_contraction(before, after) {
        let (i, dir) = choose|i: int, dir: Direction|
            0 <= i < before.len() && after == before.update(i, #[trigger] before[i].contract(dir));
        assert(after.len() == before.update(i, before[i].contract(dir)).len());
    }
    if is_separation(before, after) {
        let t = choose|t: int|
            0 <= t < before.len() && if #[trigger] references(before, t) > 1 {
                exists|cut: int|
                    0 <= cut < references(before, t) && after == #[trigger] separated(
                        before,
                        t,
                        cut,
                    )
            } else {
                after == before
            };
        if references(before, t) > 1 {
            let cut = choose|cut: int|
                0 <= cut < references(before, t) && after == #[trigger] separated(before, t, cut);
            assert(separated(before, t, cut).len() == before.len() + 1);
        }
    }
}

/// A copy of a rule set.
fn copy_rules(rules: &[Grid]) -> (copy: Vec<Grid>)
    ensures
        grid_views(copy@) == grid_views(rules@),
{
    let mut copy: Vec<Grid> = Vec::new();
    let mut i: usize = 0;
    while i < rules.len()
        invariant
            i <= rules.len(),
            copy.len() == i,
            forall|k: int| 0 <= k < i ==> (#[trigger] copy@[k])@ == rules@[k]@,
        decreases rules.len() - i,
    {
        copy.push(rules[i].clone());
        i += 1;
    }
    assert(grid_views(copy@) =~= grid_views(rules@));
    copy
}

impl LS {
    /// The engine is well formed, which includes that its rule set is
    /// valid, and has no more rules than a stem can name.
    pub open spec fn inv(&self) -> bool {
        &&& self.0.wf()
        &&& self.0@.rules.len() <= MAX_RULES
    }

    /// The state is the seed state and its stem waits to be rewritten.
    pub open spec fn is_seeded(&self) -> bool {
        self.0@.state == seed_state() && self.0@.queue == seq![(0int, 0int)]
    }

    /// An agent with the given rules, which must be a valid set, in the seed
    /// state.
    pub fn new(rules: Vec<Grid>) -> (agent: LS)
        requires
            rules.len() > 0,
            all_wf(grid_views(rules@)),
            rules_valid(grid_views(rules@)),
        ensures
            agent.0.wf(),
            agent.is_seeded(),
            agent.0@.rules == grid_views(rules@),
    {
        let seed: Grid = Grid::single(Cell::Stem(0, Direction::UP));
        proof {
            lemma_single_stem(seed_state());
        }
        LS(LSystem::new(seed, rules))
    }

    /// A random agent: from one to five rules, each drawn by
    /// [`Grid::random`]; its state is a single stem of a type drawn among the
    /// rules, which faces a direction drawn among the four.
    pub fn new_random(rng: &mut StdRng) -> (agent: LS)
        ensures
            agent.inv(),
            1 <= agent.0@.rules.len() <= 5,
            agent.0@.state.same_shape(seed_state()),
            agent.0@.state.cells[0] matches Cell::Stem(t, _) && t < agent.0@.rules.len(),
            agent.0@.queue == seq![(0int, 0int)],
    {
        let stem_types: u8 = (1 + draw_below(rng, 5)) as u8;
        let mut rules: Vec<Grid> = Vec::new();
        while rules.len() < stem_types as usize
            invariant
                1 <= stem_types <= 5,
                rules.len() <= stem_types,
                all_wf(grid_views(rules@)),
                forall|a: int, b: int|
                    0 <= a < rules.len() && 0 <= b < grid_views(rules@)[a].cells.len() ==> (
                    #[trigger] grid_views(rules@)[a].cells[b]).stem_below(stem_types as int),
            decreases stem_types - rules.len(),
        {
            let ghost earlier = grid_views(rules@);
            let rule: Grid = Grid::random(rng, stem_types);
            rules.push(rule);
            proof {
                let now = grid_views(rules@);
                assert forall|a: int| 0 <= a < now.len() implies (#[trigger] now[a]).wf() by {
                    if a < earlier.len() {
                        assert(now[a] == earlier[a]);
                    }
                }
                assert forall|a: int, b: int|
                    0 <= a < now.len() && 0 <= b < now[a].cells.len() implies (#[trigger] now[a].cells[b]).stem_below(
                    stem_types as int,
                ) by {
                    if a < earlier.len() {
                        assert(now[a] == earlier[a]);
                        assert(earlier[a].cells[b].stem_below(stem_types as int));
                    }
                }
            }
        }
        let root: u8 = draw_below(rng, stem_types as u64) as u8;
        let state: Grid = Grid::single(Cell::Stem(root, Direction::random(rng)));
        proof {
            lemma_single_stem(state@);
        }
        LS(LSystem::new(state, rules))
    }

    /// Puts the state back to the seed state; the rules stay.
    pub fn reset(&mut self)
        requires
            old(self).0.wf(),
        ensures
            final(self).0.wf(),
            final(self).is_seeded(),
            final(self).0@.rules == old(self).0@.rules,
    {
        proof {
            lemma_single_stem(seed_state());
        }
        self.0.set_state(Grid::single(Cell::Stem(0, Direction::UP)));
    }

    /// A child of `other`: an agent in the seed state whose rules come from
    /// those of `other` by a mutation, see [`mutate`].
    pub fn new_mutated(other: &Self, factor: u32, rng: &mut StdRng) -> (agent: LS)
        requires
            other.inv(),
            factor <= MAX_FACTOR,
        ensures
            agent.inv(),
            agent.is_seeded(),
            is_mutation(other.0@.rules, agent.0@.rules, factor as int),
    {
        let mut rules: Vec<Grid> = copy_rules(other.0.rules());
        mutate(&mut rules, factor, rng);
        LS::new(rules)
    }

    /// Grows the state by up to `max_steps` steps, then counts the positions
    /// at which `goal` and the state hold the same kind of cell other than
    /// `Empty`, and those at which they hold different kinds. Fails where a
    /// step fails; the steps made before it stay made.
    pub fn evaluate(&mut self, goal: &Grid, max_steps: u16) -> (r: Result<(u128, u128), EngineError>)
        requires
            old(self).0.wf(),
            goal.wf(),
        ensures
            final(self).0.wf(),
            final(self).0@ == old(self).0@.after(max_steps as nat),
            r matches Ok(counts) ==> old(self).0@.run_verdict(max_steps as nat) is Ok && counts.0
                == goal@.same(final(self).0@.state) && counts.1 == goal@.different(
                final(self).0@.state,
            ),
            r matches Err(e) ==> old(self).0@.run_verdict(max_steps as nat) == Err::<
                int,
                EngineError,
            >(e),
    {
        match self.0.run(max_steps as u32) {
            Err(e) => Err(e),
            Ok(_) => Ok(goal.similarity_counts(self.0.state())),
        }
    }

    /// The number of cells of each rule, in the order of the rules.
    pub fn rule_sizes(&self) -> (sizes: Vec<usize>)
        ensures
            sizes.len() == self.0@.rules.len(),
            forall|i: int| 0 <= i < sizes.len() ==> sizes[i] == (#[trigger] self.0@.rules[i]).cells.len(),
    {
        let rules: &[Grid] = self.0.rules();
        let mut sizes: Vec<usize> = Vec::new();
        let mut i: usize = 0;
        while i < rules.len()
            invariant
                grid_views(rules@) == self.0@.rules,
                i <= rules.len(),
                sizes.len() == i,
                forall|k: int| 0 <= k < i ==> sizes[k] == (#[trigger] self.0@.rules[k]).cells.len(),
            decreases rules.len() - i,
        {
            assert(grid_views(rules@)[i as int] == rules@[i as int]@);
            sizes.push(rules[i].contents().len());
            i += 1;
        }
        sizes
    }
}

/// A grid of one cell that is a stem has one stem, at the origin.
pub proof fn lemma_single_stem(grid: GridView)
    requires
        grid.same_shape(seed_state()),
        grid.cells[0] is Stem,
    ensures
        grid.wf(),
        grid.stems() == seq![(0int, 0int)],
{
    assert(grid.stems_before(1) == grid.stems_before(0).push((grid.x_of(0), grid.y_of(0))));
    assert(grid.stems() =~= seq![(0int, 0int)]);
}

} // verus!
