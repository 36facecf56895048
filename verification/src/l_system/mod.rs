//! Grid rewriting systems: cells, grids, rule sets and the engine that grows
//! a state grid by stamping rules over its stems.

pub mod cell;
pub mod codec;
pub mod expand;
pub mod grid;
pub mod pattern;
pub mod ruleset;
pub mod similarity;

use std::collections::VecDeque;
use vstd::prelude::*;

use cell::{Cell, Direction};
use grid::{Grid, GridView};

verus! {

/// A rewriting engine: the grid that grows, the rules, one for each type of
/// stem, and the positions of the stems that wait to be rewritten, first come
/// first served.
pub struct LSystem {
    state: Grid,
    rules: Vec<Grid>,
    stem_queue: VecDeque<[i32; 2]>,
}

/// The mathematical content of an [`LSystem`].
pub struct LSystemView {
    pub state: GridView,
    pub rules: Seq<GridView>,
    pub queue: Seq<(int, int)>,
}

/// Why a step could not be made.
#[derive(Clone, Copy, Debug, PartialEq, Eq, Structural)]
pub enum EngineError {
    /// The position first in line holds no stem, or a stem of a type for
    /// which there is no rule: the engine was given a state that its rules
    /// cannot grow.
    InvariantViolated,
    /// The state would outgrow what a grid can store.
    StateOverflow,
}

/// The contents of a sequence of grids.
pub open spec fn grid_views(grids: Seq<Grid>) -> Seq<GridView> {
    grids.map_values(|g: Grid| g@)
}

/// Every grid of a sequence is well formed.
pub open spec fn all_wf(grids: Seq<GridView>) -> bool {
    forall|i: int| 0 <= i < grids.len() ==> (#[trigger] grids[i]).wf()
}

/// The positions of a queue as pairs of integers.
pub open spec fn positions(queue: Seq<[i32; 2]>) -> Seq<(int, int)> {
    queue.map_values(|p: [i32; 2]| (p[0] as int, p[1] as int))
}

/// Every stem in any rule of the set refers to a rule of the set.
pub open spec fn rules_valid(rules: Seq<GridView>) -> bool {
    forall|i: int, j: int|
        0 <= i < rules.len() && 0 <= j < rules[i].cells.len() ==> (#[trigger] rules[i].cells[j]).stem_below(
            rules.len() as int,
        )
}

/// Where a local position of a pattern lands when the pattern is turned by
/// `dir` and laid with its origin at `(x, y)`.
pub open spec fn placed(local: (int, int), x: int, y: int, dir: Direction) -> (int, int) {
    (x + dir.rotate_point(local.0, local.1).0, y + dir.rotate_point(local.0, local.1).1)
}

/// The entries of a queue that point at a stem of `state`, in their order.
pub open spec fn keep_stems(state: GridView, queue: Seq<(int, int)>) -> Seq<(int, int)>
    decreases queue.len(),
{
    if queue.len() == 0 {
        Seq::empty()
    } else {
        let rest = keep_stems(state, queue.drop_last());
        if state.at(queue.last().0, queue.last().1) is Stem {
            rest.push(queue.last())
        } else {
            rest
        }
    }
}

impl GridView {
    /// The positions of the stems among the first `n` cells of the buffer, in
    /// buffer order.
    pub open spec fn stems_before(self, n: int) -> Seq<(int, int)>
        decreases n,
    {
        if n <= 0 {
            Seq::empty()
        } else {
            let rest = self.stems_before(n - 1);
            if self.cells[n - 1] is Stem {
                rest.push((self.x_of(n - 1), self.y_of(n - 1)))
            } else {
                rest
            }
        }
    }

    /// The positions of all stems, in buffer order.
    pub open spec fn stems(self) -> Seq<(int, int)> {
        self.stems_before(self.cells.len() as int)
    }

    /// Every stem of the grid refers to a rule below `count`.
    pub open spec fn stems_below(self, count: int) -> bool {
        forall|x: int, y: int| (#[trigger] self.at(x, y)).stem_below(count)
    }

    /// Every listed stem position is the position of a stem.
    pub proof fn lemma_stems_are_stems(self, n: int)
        requires
            self.wf(),
            0 <= n <= self.cells.len(),
        ensures
            forall|k: int|
                0 <= k < self.stems_before(n).len() ==> self.at(
                    (#[trigger] self.stems_before(n)[k]).0,
                    self.stems_before(n)[k].1,
                ) is Stem && self.contains(self.stems_before(n)[k].0, self.stems_before(n)[k].1),
        decreases n,
    {
        if n > 0 {
            self.lemma_stems_are_stems(n - 1);
            self.lemma_index_round_trip(n - 1);
        }
    }
}

impl LSystemView {
    /// The state and the rules are well-formed grids, there is a rule, and
    /// the rule set is valid.
    pub open spec fn wf(self) -> bool {
        &&& self.state.wf()
        &&& self.rules.len() > 0
        &&& all_wf(self.rules)
        &&& rules_valid(self.rules)
    }

    /// The cell at the position first in line.
    pub open spec fn front_cell(self) -> Cell {
        self.state.at(self.queue[0].0, self.queue[0].1)
    }

    /// What a step attempted now comes to: `Ok(false)` where nothing waits,
    /// `Ok(true)` where the step can be made, else the reason why not.
    pub open spec fn verdict(self) -> Result<bool, EngineError> {
        if self.queue.len() == 0 {
            Ok(false)
        } else {
            match self.front_cell() {
                Cell::Stem(t, d) => if t >= self.rules.len() {
                    Err(EngineError::InvariantViolated)
                } else if !self.state.insert_fits(
                    self.rules[t as int],
                    self.queue[0].0,
                    self.queue[0].1,
                    d,
                ) {
                    Err(EngineError::StateOverflow)
                } else {
                    Ok(true)
                },
                _ => Err(EngineError::InvariantViolated),
            }
        }
    }

    /// The engine after one step, where one can be made: the rule of the
    /// stem first in line is stamped over it, turned the way the stem faces.
    /// Of the positions that waited behind it, those that still hold a stem
    /// stay; the stems of the rule line up after them, in the order of the
    /// rule's buffer; and the rewritten position itself comes last if it
    /// holds a stem again.
    pub open spec fn step(self) -> LSystemView {
        let x = self.queue[0].0;
        let y = self.queue[0].1;
        match self.front_cell() {
            Cell::Stem(t, d) => {
                let rule = self.rules[t as int];
                let state = self.state.insert(rule, x, y, d);
                let stay = keep_stems(state, self.queue.skip(1));
                let come = rule.stems().map_values(|q: (int, int)| placed(q, x, y, d));
                let again = if state.at(x, y) is Stem {
                    seq![(x, y)]
                } else {
                    Seq::empty()
                };
                LSystemView { state, rules: self.rules, queue: stay + come + again }
            },
            _ => self,
        }
    }

    /// The engine after a call of `try_step`.
    pub open spec fn next(self) -> LSystemView {
        if self.verdict() == Ok::<bool, EngineError>(true) {
            self.step()
        } else {
            self
        }
    }

    /// The engine after up to `n` steps, ended early where no step can be made.
    pub open spec fn after(self, n: nat) -> LSystemView
        decreases n,
    {
        if n == 0 || self.verdict() != Ok::<bool, EngineError>(true) {
            self
        } else {
            self.step().after((n - 1) as nat)
        }
    }

    /// What a run of up to `n` steps reports: the number of steps made, or
    /// the reason why a step could not be made.
    pub open spec fn run_verdict(self, n: nat) -> Result<int, EngineError>
        decreases n,
    {
        if n == 0 {
            Ok(0)
        } else {
            match self.verdict() {
                Ok(false) => Ok(0),
                Err(e) => Err(e),
                Ok(true) => match self.step().run_verdict((n - 1) as nat) {
                    Ok(k) => Ok(k + 1),
                    Err(e) => Err(e),
                },
            }
        }
    }

    /// Every stem of the state refers to a rule, and every position in line
    /// holds a stem.
    pub open spec fn sound(self) -> bool {
        &&& self.state.stems_below(self.rules.len() as int)
        &&& forall|k: int|
            0 <= k < self.queue.len() ==> self.state.at(
                (#[trigger] self.queue[k]).0,
                self.queue[k].1,
            ) is Stem
    }
}

/// The entries kept from a queue point at stems.
pub proof fn lemma_keep_stems(state: GridView, queue: Seq<(int, int)>)
    ensures
        forall|k: int|
            0 <= k < keep_stems(state, queue).len() ==> state.at(
                (#[trigger] keep_stems(state, queue)[k]).0,
                keep_stems(state, queue)[k].1,
            ) is Stem,
    decreases queue.len(),
{
    if queue.len() > 0 {
        lemma_keep_stems(state, queue.drop_last());
    }
}

impl LSystemView {
    /// A sound engine never finds its invariant violated, and a step leaves
    /// it well formed and sound: a rule set found valid once, and a state
    /// whose stems it has rules for, need not be looked at again.
    pub proof fn lemma_sound_steps(self)
        requires
            self.wf(),
            self.sound(),
        ensures
            self.verdict() != Err::<bool, EngineError>(EngineError::InvariantViolated),
            self.next().wf(),
            self.next().sound(),
    {
        if self.verdict() == Ok::<bool, EngineError>(true) {
            let x = self.queue[0].0;
            let y = self.queue[0].1;
            let t = self.front_cell()->Stem_0;
            let d = self.front_cell()->Stem_1;
            let rule = self.rules[t as int];
            let count = self.rules.len() as int;
            assert(rule.wf());
            self.state.lemma_insert(rule, x, y, d);
            let state = self.state.insert(rule, x, y, d);
            let next = self.step();
            assert forall|u: int, v: int| (#[trigger] state.at(u, v)).stem_below(count) by {
                let (lx, ly) = d.inverse().rotate_point(u - x, v - y);
                assert(self.state.at(u, v).stem_below(count));
                if rule.contains(lx, ly) {
                    rule.lemma_position_round_trip(lx, ly);
                    assert(rule.cells[rule.index_of(lx, ly)].stem_below(count));
                }
            }
            let stay = keep_stems(state, self.queue.skip(1));
            let come = rule.stems().map_values(|q: (int, int)| placed(q, x, y, d));
            lemma_keep_stems(state, self.queue.skip(1));
            rule.lemma_stems_are_stems(rule.cells.len() as int);
            assert forall|k: int| 0 <= k < next.queue.len() implies state.at(
                (#[trigger] next.queue[k]).0,
                next.queue[k].1,
            ) is Stem by {
                if k < stay.len() {
                    assert(next.queue[k] == stay[k]);
                } else if k < stay.len() + come.len() {
                    let q = rule.stems()[k - stay.len()];
                    assert(next.queue[k] == placed(q, x, y, d));
                    cell::lemma_rotate_point_composes(d, d, q.0, q.1);
                    assert(rule.at(q.0, q.1) is Stem);
                    assert(rule.stamped_at(x, y, d, placed(q, x, y, d).0, placed(q, x, y, d).1)
                        == rule.at(q.0, q.1).rotated(d));
                } else {
                    assert(next.queue[k] == (x, y));
                }
            }
        } else if self.queue.len() > 0 {
            assert(self.state.at(self.queue[0].0, self.queue[0].1) is Stem);
            assert(self.front_cell().stem_below(self.rules.len() as int));
        }
    }

    /// Nothing but the state, the rules and the line of waiting positions
    /// decides how a run goes: engines that agree in these agree after any
    /// number of steps, in what they hold and in what they report.
    pub proof fn lemma_run_is_determined(self, other: LSystemView, n: nat)
        requires
            self.state == other.state,
            self.rules == other.rules,
            self.queue == other.queue,
        ensures
            self.after(n) == other.after(n),
            self.after(n).state == other.after(n).state,
            self.after(n).queue == other.after(n).queue,
            self.run_verdict(n) == other.run_verdict(n),
    {
    }

    /// A run keeps a well-formed engine well formed and a sound engine sound,
    /// and on a sound engine never reports a violated invariant.
    pub proof fn lemma_run(self, n: nat)
        requires
            self.wf(),
        ensures
            self.after(n).wf(),
            self.after(n).rules == self.rules,
            self.sound() ==> self.after(n).sound() && self.run_verdict(n) != Err::<
                int,
                EngineError,
            >(EngineError::InvariantViolated),
        decreases n,
    {
        if n > 0 && self.verdict() == Ok::<bool, EngineError>(true) {
            self.lemma_step_wf();
            self.step().lemma_run((n - 1) as nat);
            if self.sound() {
                self.lemma_sound_steps();
            }
        } else if self.sound() {
            self.lemma_sound_steps();
        }
    }

    /// A step keeps the engine well formed and its rules as they are.
    pub proof fn lemma_step_wf(self)
        requires
            self.wf(),
            self.verdict() == Ok::<bool, EngineError>(true),
        ensures
            self.step().wf(),
            self.step().rules == self.rules,
    {
        let t = self.front_cell()->Stem_0;
        let d = self.front_cell()->Stem_1;
        assert(self.rules[t as int].wf());
        self.state.lemma_insert(self.rules[t as int], self.queue[0].0, self.queue[0].1, d);
    }
}

impl View for LSystem {
    type V = LSystemView;

    closed spec fn view(&self) -> LSystemView {
        LSystemView {
            state: self.state@,
            rules: grid_views(self.rules@),
            queue: positions(self.stem_queue@),
        }
    }
}

/// The positions of the stems of a grid, in buffer order.
fn stems_of(grid: &Grid) -> (queue: VecDeque<[i32; 2]>)
    requires
        grid.wf(),
    ensures
        positions(queue@) == grid@.stems(),
{
    let mut queue: VecDeque<[i32; 2]> = VecDeque::new();
    let cells: &Vec<Cell> = grid.contents();
    let mut i: usize = 0;
    assert(positions(queue@) =~= grid@.stems_before(0));
    while i < cells.len()
        invariant
            grid.wf(),
            cells@ == grid@.cells,
            i <= cells.len(),
            positions(queue@) == grid@.stems_before(i as int),
        decreases cells.len() - i,
    {
        match cells[i] {
            Cell::Stem(_, _) => {
                let ghost before = queue@;
                let pos: [i32; 2] = grid.index_to_pos(i);
                queue.push_back(pos);
                assert(positions(queue@) =~= positions(before).push((pos[0] as int, pos[1] as int)));
            },
            _ => {},
        }
        i += 1;
    }
    queue
}

impl LSystem {
    /// See [`LSystemView::wf`].
    pub open spec fn wf(&self) -> bool {
        self@.wf()
    }

    /// An engine on `state` with the given rules; the stems of `state` line
    /// up in buffer order. The rule set must be valid: whoever builds an
    /// engine asks [`is_valid`] first.
    pub fn new(state: Grid, rules: Vec<Grid>) -> (system: LSystem)
        requires
            state.wf(),
            rules.len() > 0,
            all_wf(grid_views(rules@)),
            rules_valid(grid_views(rules@)),
        ensures
            system.wf(),
            system@ == (LSystemView {
                state: state@,
                rules: grid_views(rules@),
                queue: state@.stems(),
            }),
    {
        let stem_queue = stems_of(&state);
        LSystem { state, rules, stem_queue }
    }

    /// Makes one step if a stem waits: see [`LSystemView::step`]. Returns
    /// `Ok(false)`, and changes nothing, where none waits. Fails, and changes
    /// nothing, where the position first in line does not hold a stem with a
    /// rule, or where the state would outgrow a grid.
    pub fn try_step(&mut self) -> (r: Result<bool, EngineError>)
        requires
            old(self).wf(),
        ensures
            final(self).wf(),
            r == old(self)@.verdict(),
            final(self)@ == old(self)@.next(),
    {
        if self.stem_queue.len() == 0 {
            return Ok(false);
        }
        let ghost before = self@;
        let pos: [i32; 2] = self.stem_queue[0];
        let cell: Cell = self.state.at(pos);
        match cell {
            Cell::Stem(stem_type, stem_dir) => {
                if stem_type as usize >= self.rules.len() {
                    return Err(EngineError::InvariantViolated);
                }
                assert(grid_views(self.rules@)[stem_type as int].wf());
                if !self.state.can_insert(&self.rules[stem_type as usize], pos, stem_dir) {
                    return Err(EngineError::StateOverflow);
                }
                let to: &Grid = &self.rules[stem_type as usize];
                self.state.insert(to, pos, stem_dir);
                proof {
                    before.state.lemma_insert(to@, pos[0] as int, pos[1] as int, stem_dir);
                }
                let mut queue: VecDeque<[i32; 2]> = VecDeque::new();
                let waiting: usize = self.stem_queue.len();
                let mut k: usize = 1;
                assert(positions(self.stem_queue@).skip(1).take(0) =~= Seq::<(int, int)>::empty());
                assert(positions(queue@) =~= Seq::<(int, int)>::empty());
                while k < waiting
                    invariant
                        self.state.wf(),
                        waiting == self.stem_queue@.len(),
                        1 <= k <= waiting,
                        positions(queue@) == keep_stems(
                            self.state@,
                            positions(self.stem_queue@).skip(1).take(k - 1),
                        ),
                    decreases waiting - k,
                {
                    let e: [i32; 2] = self.stem_queue[k];
                    let ghost line = positions(self.stem_queue@).skip(1);
                    let ghost kept = queue@;
                    proof {
                        assert(line.take(k as int).drop_last() =~= line.take(k - 1));
                        assert(line.take(k as int).last() == (e[0] as int, e[1] as int));
                    }
                    if let Cell::Stem(_, _) = self.state.at(e) {
                        queue.push_back(e);
                        assert(positions(queue@) =~= positions(kept).push(
                            (e[0] as int, e[1] as int),
                        ));
                    }
                    k += 1;
                }
                let ghost stay = positions(queue@);
                proof {
                    let line = positions(self.stem_queue@).skip(1);
                    assert(line.take(waiting - 1) =~= line);
                }
                let cells: &Vec<Cell> = to.contents();
                let mut i: usize = 0;
                let ghost x = pos[0] as int;
                let ghost y = pos[1] as int;
                assert(positions(queue@) =~= stay + to@.stems_before(0).map_values(
                    |q: (int, int)| placed(q, x, y, stem_dir),
                ));
                while i < cells.len()
                    invariant
                        to.wf(),
                        self.state.wf(),
                        cells@ == to@.cells,
                        i <= cells.len(),
                        x == pos[0],
                        y == pos[1],
                        self.state@.left() >= to@.turned_left(stem_dir) - x,
                        self.state@.right() >= to@.turned_right(stem_dir) + x,
                        self.state@.bottom() >= to@.turned_bottom(stem_dir) - y,
                        self.state@.top() >= to@.turned_top(stem_dir) + y,
                        positions(queue@) == stay + to@.stems_before(i as int).map_values(
                            |q: (int, int)| placed(q, x, y, stem_dir),
                        ),
                    decreases cells.len() - i,
                {
                    match cells[i] {
                        Cell::Stem(_, _) => {
                            let ghost lined = queue@;
                            let local: [i32; 2] = to.index_to_pos(i);
                            proof {
                                to@.lemma_turned_position(
                                    stem_dir,
                                    local[0] as int,
                                    local[1] as int,
                                );
                            }
                            let turned: [i32; 2] = stem_dir.rotate_coords(local);
                            let target: [i32; 2] = [
                                (turned[0] as i64 + pos[0] as i64) as i32,
                                (turned[1] as i64 + pos[1] as i64) as i32,
                            ];
                            queue.push_back(target);
                            proof {
                                let q = (local[0] as int, local[1] as int);
                                assert((target[0] as int, target[1] as int) == placed(
                                    q,
                                    x,
                                    y,
                                    stem_dir,
                                ));
                                assert(positions(queue@) =~= positions(lined).push(
                                    placed(q, x, y, stem_dir),
                                ));
                                assert(to@.stems_before(i + 1) == to@.stems_before(i as int).push(
                                    q,
                                ));
                                assert(to@.stems_before(i + 1).map_values(
                                    |q: (int, int)| placed(q, x, y, stem_dir),
                                ) =~= to@.stems_before(i as int).map_values(
                                    |q: (int, int)| placed(q, x, y, stem_dir),
                                ).push(placed(q, x, y, stem_dir)));
                            }
                        },
                        _ => {},
                    }
                    i += 1;
                }
                let ghost come = to@.stems().map_values(|q: (int, int)| placed(q, x, y, stem_dir));
                if let Cell::Stem(_, _) = self.state.at(pos) {
                    let ghost lined = queue@;
                    queue.push_back(pos);
                    assert(positions(queue@) =~= stay + come + seq![(x, y)]) by {
                        assert(positions(queue@) =~= positions(lined).push((x, y)));
                    }
                } else {
                    assert(positions(queue@) =~= stay + come + Seq::<(int, int)>::empty());
                }
                self.stem_queue = queue;
                Ok(true)
            },
            _ => Err(EngineError::InvariantViolated),
        }
    }

    /// Makes up to `max_steps` steps, and stops early where a step makes
    /// nothing or fails. Returns the number of steps made, or why the step
    /// after them failed.
    pub fn run(&mut self, max_steps: u32) -> (r: Result<u32, EngineError>)
        requires
            old(self).wf(),
        ensures
            final(self).wf(),
            final(self)@ == old(self)@.after(max_steps as nat),
            r matches Ok(n) ==> old(self)@.run_verdict(max_steps as nat) == Ok::<int, EngineError>(
                n as int,
            ),
            r matches Err(e) ==> old(self)@.run_verdict(max_steps as nat) == Err::<
                int,
                EngineError,
            >(e),
    {
        let ghost start = self@;
        let mut made: u32 = 0;
        while made < max_steps
            invariant
                self.wf(),
                start == old(self)@,
                made <= max_steps,
                start.after(max_steps as nat) == self@.after((max_steps - made) as nat),
                start.run_verdict(max_steps as nat) == match self@.run_verdict(
                    (max_steps - made) as nat,
                ) {
                    Ok(k) => Ok::<int, EngineError>(k + made),
                    Err(e) => Err(e),
                },
            decreases max_steps - made,
        {
            match self.try_step() {
                Ok(true) => {
                    made += 1;
                },
                Ok(false) => {
                    return Ok(made);
                },
                Err(e) => {
                    return Err(e);
                },
            }
        }
        Ok(made)
    }

    /// The grid that grows.
    pub fn state(&self) -> (state: &Grid)
        ensures
            state@ == self@.state,
    {
        &self.state
    }

    /// Replaces the state; the stems of the new state line up in buffer
    /// order, and whatever waited is forgotten.
    pub fn set_state(&mut self, grid: Grid)
        requires
            old(self).wf(),
            grid.wf(),
        ensures
            final(self).wf(),
            final(self)@ == (LSystemView {
                state: grid@,
                rules: old(self)@.rules,
                queue: grid@.stems(),
            }),
    {
        self.stem_queue = stems_of(&grid);
        self.state = grid;
    }

    /// The rules, one for each type of stem.
    pub fn rules(&self) -> (rules: &[Grid])
        ensures
            grid_views(rules@) == self@.rules,
    {
        self.rules.as_slice()
    }

    /// The positions that wait to be rewritten, the next one first.
    pub fn queue(&self) -> (queue: &VecDeque<[i32; 2]>)
        ensures
            positions(queue@) == self@.queue,
    {
        &self.stem_queue
    }
}

/// Whether every stem in any rule refers to a rule of the set. A rule set
/// must pass this test before an engine is built on it: see
/// [`LSystem::new`].
pub fn is_valid(rules: &[Grid]) -> (valid: bool)
    ensures
        valid == rules_valid(grid_views(rules@)),
{
    let count: usize = rules.len();
    let mut i: usize = 0;
    while i < count
        invariant
            count == rules@.len(),
            i <= count,
            forall|a: int, b: int|
                0 <= a < i && 0 <= b < grid_views(rules@)[a].cells.len() ==> (#[trigger] grid_views(
                    rules@,
                )[a].cells[b]).stem_below(count as int),
        decreases count - i,
    {
        let cells: &Vec<Cell> = rules[i].contents();
        let mut j: usize = 0;
        while j < cells.len()
            invariant
                count == rules@.len(),
                i < count,
                cells@ == grid_views(rules@)[i as int].cells,
                j <= cells.len(),
                forall|b: int| 0 <= b < j ==> (#[trigger] cells@[b]).stem_below(count as int),
            decreases cells.len() - j,
        {
            if let Cell::Stem(n, _) = cells[j] {
                if n as usize >= count {
                    assert(!grid_views(rules@)[i as int].cells[j as int].stem_below(count as int));
                    return false;
                }
            }
            j += 1;
        }
        i += 1;
    }
    true
}

} // verus!
