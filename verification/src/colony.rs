//! The colony: cycles of 64 ants, one placed on each square, over one graph.

use vstd::prelude::*;
use crate::ant::{draw_ints, Ant};
use crate::graph::{evaporated, levels_wf, uniform_levels, Graph};
use crate::pheromone::UNIT;
use crate::walk::{
    deposited, draws_wf, fresh, is_complete, lemma_walk_length, lemma_walk_on_wf, open_moves,
    walk_on, walk_wf, Walk,
};

verus! {

/// A search for tours: the graph, the tours counted so far, and the rate of
/// evaporation.
pub struct TourFinder {
    pub graph: Graph,
    pub complete: u32,
    pub incomplete: u32,
    pub p_evap_rate: u64,
}

/// Why a configuration is refused.
#[derive(Debug, Clone, Copy, PartialEq, Eq, Structural)]
pub enum ConfigError {
    /// The rate of evaporation is not below 1.
    EvaporationRate,
}

/// The state of a search as mathematics.
pub struct Colony {
    /// The pheromone levels, by square and by move.
    pub levels: Seq<Seq<int>>,
    /// Number of complete tours so far.
    pub complete: int,
    /// Number of walks that ended before the tour was complete.
    pub incomplete: int,
    /// The rate of evaporation, in units of 2^-32.
    pub rate: int,
}

/// The walks of the 64 ants of a cycle, the ant on square `s` led by `draws[s]`.
pub open spec fn toured(levels: Seq<Seq<int>>, draws: Seq<Seq<int>>) -> Seq<Walk> {
    Seq::new(64, |s: int| walk_on(fresh(s), levels, draws[s], 0))
}

/// Number of complete tours among the first `n` walks.
pub open spec fn completed_among(walks: Seq<Walk>, n: int) -> int
    decreases n,
{
    if n <= 0 {
        0
    } else if is_complete(walks[n - 1]) {
        completed_among(walks, n - 1) + 1
    } else {
        completed_among(walks, n - 1)
    }
}

/// The levels after the ants of the first `n` walks have laid their pheromone.
pub open spec fn deposited_all(levels: Seq<Seq<int>>, walks: Seq<Walk>, n: int) -> Seq<Seq<int>>
    decreases n,
{
    if n <= 0 {
        levels
    } else {
        deposited(deposited_all(levels, walks, n - 1), walks[n - 1])
    }
}

/// The search after a cycle in which the ants made these walks: the walks are
/// counted, every ant lays its pheromone, and then all levels evaporate once.
pub open spec fn settled(colony: Colony, walks: Seq<Walk>) -> Colony {
    Colony {
        levels: evaporated(deposited_all(colony.levels, walks, 64), colony.rate),
        complete: colony.complete + completed_among(walks, 64),
        incomplete: colony.incomplete + 64 - completed_among(walks, 64),
        rate: colony.rate,
    }
}

/// The search after one cycle led by `draws`. Every ant walks by the levels
/// that the cycle began with.
pub open spec fn cycled(colony: Colony, draws: Seq<Seq<int>>) -> Colony {
    settled(colony, toured(colony.levels, draws))
}

/// The search after `n` cycles, the `i`-th led by `draws[i]`.
pub open spec fn ran(colony: Colony, draws: Seq<Seq<Seq<int>>>, n: int) -> Colony
    decreases n,
{
    if n <= 0 {
        colony
    } else {
        cycled(ran(colony, draws, n - 1), draws[n - 1])
    }
}

/// Draws for a cycle: a sequence of draws for each of the 64 ants.
pub open spec fn cycle_draws_wf(draws: Seq<Seq<int>>) -> bool {
    &&& draws.len() == 64
    &&& forall|s: int| 0 <= s < 64 ==> draws_wf(#[trigger] draws[s])
}

/// Draws that lead each of the 64 ants to a square with no open move.
pub open spec fn to_dead_ends(levels: Seq<Seq<int>>, draws: Seq<Seq<int>>) -> bool {
    &&& cycle_draws_wf(draws)
    &&& forall|s: int| 0 <= s < 64 ==> open_moves(#[trigger] toured(levels, draws)[s]).len() == 0
}

/// Draws that lead every ant of each of the first `n` cycles to a square with
/// no open move.
pub open spec fn all_to_dead_ends(colony: Colony, draws: Seq<Seq<Seq<int>>>, n: int) -> bool {
    forall|i: int| 0 <= i < n ==> to_dead_ends(ran(colony, draws, i).levels, #[trigger] draws[i])
}

/// The draws of a cycle as mathematical integers.
pub open spec fn cycle_draw_ints(draws: Seq<Vec<u32>>) -> Seq<Seq<int>> {
    Seq::new(draws.len(), |s: int| draw_ints(draws[s]@))
}

/// The views of ants.
pub open spec fn walks_of(ants: Seq<Ant>) -> Seq<Walk> {
    Seq::new(ants.len(), |s: int| ants[s]@)
}

/// Among `n` walks, between 0 and `n` are complete tours.
pub proof fn lemma_completed_bounds(walks: Seq<Walk>, n: int)
    requires
        0 <= n,
    ensures
        0 <= completed_among(walks, n) <= n,
    decreases n,
{
    if n > 0 {
        lemma_completed_bounds(walks, n - 1);
    }
}

/// In a cycle every ant makes a walk by knight moves from its own square that
/// enters no square twice, so none makes more than 63 moves.
pub proof fn lemma_toured(levels: Seq<Seq<int>>, draws: Seq<Seq<int>>)
    requires
        levels_wf(levels),
        cycle_draws_wf(draws),
    ensures
        toured(levels, draws).len() == 64,
        forall|s: int|
            0 <= s < 64 ==> walk_wf(#[trigger] toured(levels, draws)[s]) && toured(
                levels,
                draws,
            )[s].start == s && toured(levels, draws)[s].moves.len() <= 63,
{
    assert forall|s: int| 0 <= s < 64 implies walk_wf(#[trigger] toured(levels, draws)[s])
        && toured(levels, draws)[s].start == s && toured(levels, draws)[s].moves.len() <= 63 by {
        assert(draws_wf(draws[s]));
        lemma_walk_on_wf(fresh(s), levels, draws[s], 0);
        lemma_walk_length(toured(levels, draws)[s]);
    }
}

/// A cycle counts 64 walks, and lowers neither count.
pub proof fn lemma_cycled_counts(colony: Colony, draws: Seq<Seq<int>>)
    ensures
        cycled(colony, draws).complete + cycled(colony, draws).incomplete == colony.complete
            + colony.incomplete + 64,
        colony.complete <= cycled(colony, draws).complete,
        colony.incomplete <= cycled(colony, draws).incomplete,
        cycled(colony, draws).rate == colony.rate,
{
    lemma_completed_bounds(toured(colony.levels, draws), 64);
}

/// The cycles led by the first `n` sequences of draws do not depend on later ones.
pub proof fn lemma_ran_prefix(
    colony: Colony,
    draws: Seq<Seq<Seq<int>>>,
    more: Seq<Seq<int>>,
    n: int,
)
    requires
        0 <= n <= draws.len(),
    ensures
        ran(colony, draws.push(more), n) == ran(colony, draws, n),
    decreases n,
{
    if n > 0 {
        lemma_ran_prefix(colony, draws, more, n - 1);
        assert(draws.push(more)[n - 1] == draws[n - 1]);
    }
}

impl View for TourFinder {
    type V = Colony;

    open spec fn view(&self) -> Colony {
        Colony {
            levels: self.graph@,
            complete: self.complete as int,
            incomplete: self.incomplete as int,
            rate: self.p_evap_rate as int,
        }
    }
}

impl TourFinder {
    /// The graph is that of the knight's moves, and the rate of evaporation is below 1.
    pub open spec fn wf(&self) -> bool {
        &&& self.graph.wf()
        &&& self.p_evap_rate < UNIT
    }

    /// Whether the two counters can take `cycles` more cycles.
    pub open spec fn has_room(&self, cycles: int) -> bool {
        &&& self.complete + 64 * cycles <= u32::MAX
        &&& self.incomplete + 64 * cycles <= u32::MAX
    }

    /// A search that begins with the level `p_initial_level` on every move and
    /// evaporates at `p_evap_rate`, both in units of 2^-32. A rate of 1 or more
    /// is refused.
    pub fn new(p_initial_level: u64, p_evap_rate: u64) -> (made: Result<TourFinder, ConfigError>)
        ensures
            made.is_ok() <==> p_evap_rate < UNIT,
            made.is_err() ==> made == Err::<TourFinder, ConfigError>(ConfigError::EvaporationRate),
            made.is_ok() ==> made.unwrap().wf() && made.unwrap()@ == (Colony {
                levels: uniform_levels(p_initial_level as int),
                complete: 0,
                incomplete: 0,
                rate: p_evap_rate as int,
            }),
    {
        if p_evap_rate >= UNIT {
            return Err(ConfigError::EvaporationRate);
        }
        Ok(
            TourFinder {
                graph: Graph::new(p_initial_level),
                complete: 0,
                incomplete: 0,
                p_evap_rate: p_evap_rate,
            },
        )
    }

    /// One ant on each square.
    fn place_ants() -> (ants: Vec<Ant>)
        ensures
            ants.len() == 64,
            forall|s: int| 0 <= s < 64 ==> (#[trigger] ants[s])@ == fresh(s) && ants[s].wf(),
    {
        let mut ants: Vec<Ant> = Vec::with_capacity(64);
        let mut i: i8 = 0;
        while i < 64
            invariant
                0 <= i <= 64,
                ants.len() == i,
                forall|s: int| 0 <= s < i ==> (#[trigger] ants[s])@ == fresh(s) && ants[s].wf(),
            decreases 64 - i,
        {
            ants.push(Ant::new(i));
            i = i + 1;
        }
        ants
    }

    /// The end of a cycle: every ant lays its pheromone, then all levels evaporate.
    fn settle(&mut self, ants: &Vec<Ant>)
        requires
            old(self).wf(),
            ants.len() == 64,
            forall|s: int| 0 <= s < 64 ==> (#[trigger] ants[s]).wf(),
        ensures
            final(self).wf(),
            final(self).complete == old(self).complete,
            final(self).incomplete == old(self).incomplete,
            final(self).p_evap_rate == old(self).p_evap_rate,
            final(self).graph@ == evaporated(
                deposited_all(old(self).graph@, walks_of(ants@), 64),
                old(self).p_evap_rate as int,
            ),
    {
        let mut i: usize = 0;
        while i < 64
            invariant
                0 <= i <= 64,
                ants.len() == 64,
                forall|s: int| 0 <= s < 64 ==> (#[trigger] ants[s]).wf(),
                self.wf(),
                self.complete == old(self).complete,
                self.incomplete == old(self).incomplete,
                self.p_evap_rate == old(self).p_evap_rate,
                self.graph@ == deposited_all(old(self).graph@, walks_of(ants@), i as int),
            decreases 64 - i,
        {
            proof {
                assert(walks_of(ants@)[i as int] == ants[i as int]@);
            }
            ants[i].lay_pheromone(&mut self.graph);
            i = i + 1;
        }
        let rate: u64 = self.p_evap_rate;
        self.graph.evaporate_pheromones(&rate);
    }

    /// One cycle led by the given draws, `draws[s]` for the ant placed on
    /// square `s`: each ant walks until no move is open or its draws are used
    /// up. The outcome is a function of the search and the draws alone.
    pub fn cycle_with(&mut self, draws: &Vec<Vec<u32>>)
        requires
            old(self).wf(),
            old(self).has_room(1),
            draws.len() == 64,
        ensures
            final(self).wf(),
            final(self)@ == cycled(old(self)@, cycle_draw_ints(draws@)),
    {
        let mut ants = Self::place_ants();
        let ghost levels = self.graph@;
        let ghost given = cycle_draw_ints(draws@);
        let mut i: usize = 0;
        while i < 64
            invariant
                0 <= i <= 64,
                ants.len() == 64,
                draws.len() == 64,
                given == cycle_draw_ints(draws@),
                self.wf(),
                old(self).has_room(1),
                self.graph == old(self).graph,
                levels == self.graph@,
                self.p_evap_rate == old(self).p_evap_rate,
                forall|s: int| 0 <= s < 64 ==> (#[trigger] ants[s]).wf(),
                forall|s: int| 0 <= s < i ==> (#[trigger] ants[s])@ == toured(levels, given)[s],
                forall|s: int| i <= s < 64 ==> (#[trigger] ants[s])@ == fresh(s),
                self.complete == old(self).complete + completed_among(walks_of(ants@), i as int),
                self.incomplete == old(self).incomplete + i - completed_among(
                    walks_of(ants@),
                    i as int,
                ),
            decreases 64 - i,
        {
            let ghost before = walks_of(ants@);
            proof {
                lemma_completed_bounds(before, i as int);
                assert(given[i as int] == draw_ints(draws[i as int]@));
            }
            if ants[i].tour_with(&self.graph, &draws[i]) {
                self.complete += 1;
            } else {
                self.incomplete += 1;
            }
            proof {
                lemma_completed_same(before, walks_of(ants@), i as int);
                assert(walks_of(ants@)[i as int] == ants[i as int]@);
            }
            i = i + 1;
        }
        proof {
            assert(walks_of(ants@) =~= toured(levels, given));
        }
        self.settle(&ants);
    }

    /// One cycle led by random draws: each ant walks until no move is open.
    pub fn cycle(&mut self)
        requires
            old(self).wf(),
            old(self).has_room(1),
        ensures
            final(self).wf(),
            exists|draws: Seq<Seq<int>>|
                to_dead_ends(old(self)@.levels, draws) && final(self)@ == #[trigger] cycled(
                    old(self)@,
                    draws,
                ),
    {
        let mut ants = Self::place_ants();
        let ghost levels = self.graph@;
        let ghost mut drawn: Seq<Seq<int>> = Seq::new(64, |s: int| Seq::<int>::empty());
        let mut i: usize = 0;
        while i < 64
            invariant
                0 <= i <= 64,
                ants.len() == 64,
                cycle_draws_wf(drawn),
                self.wf(),
                old(self).has_room(1),
                self.graph == old(self).graph,
                levels == self.graph@,
                self.p_evap_rate == old(self).p_evap_rate,
                forall|s: int| 0 <= s < 64 ==> (#[trigger] ants[s]).wf(),
                forall|s: int| 0 <= s < i ==> (#[trigger] ants[s])@ == toured(levels, drawn)[s],
                forall|s: int| 0 <= s < i ==> open_moves((#[trigger] ants[s])@).len() == 0,
                forall|s: int| i <= s < 64 ==> (#[trigger] ants[s])@ == fresh(s),
                self.complete == old(self).complete + completed_among(walks_of(ants@), i as int),
                self.incomplete == old(self).incomplete + i - completed_among(
                    walks_of(ants@),
                    i as int,
                ),
            decreases 64 - i,
        {
            let ghost before = walks_of(ants@);
            let ghost drawn_before = drawn;
            proof {
                lemma_completed_bounds(before, i as int);
            }
            let complete: bool = ants[i].tour(&self.graph);
            if complete {
                self.complete += 1;
            } else {
                self.incomplete += 1;
            }
            proof {
                let used = choose|used: Seq<int>|
                    draws_wf(used) && ants[i as int]@ == #[trigger] walk_on(
                        fresh(i as int),
                        levels,
                        used,
                        0,
                    );
                drawn = drawn.update(i as int, used);
                lemma_completed_same(before, walks_of(ants@), i as int);
                assert(walks_of(ants@)[i as int] == ants[i as int]@);
                assert forall|s: int| 0 <= s < i + 1 implies (#[trigger] ants[s])@ == toured(
                    levels,
                    drawn,
                )[s] by {
                    if s < i {
                        assert(drawn[s] == drawn_before[s]);
                        assert(ants[s]@ == toured(levels, drawn_before)[s]);
                    }
                }
            }
            i = i + 1;
        }
        proof {
            assert(walks_of(ants@) =~= toured(levels, drawn));
        }
        self.settle(&ants);
        proof {
            assert(self@ == cycled(old(self)@, drawn));
            assert forall|s: int| 0 <= s < 64 implies open_moves(
                #[trigger] toured(old(self)@.levels, drawn)[s],
            ).len() == 0 by {
                assert(ants[s]@ == toured(levels, drawn)[s]);
            }
            assert(to_dead_ends(old(self)@.levels, drawn));
        }
    }

    /// `cycles` cycles led by random draws, one after the other.
    pub fn run(&mut self, cycles: u32)
        requires
            old(self).wf(),
            old(self).has_room(cycles as int),
        ensures
            final(self).wf(),
            final(self).complete + final(self).incomplete == old(self).complete + old(
                self,
            ).incomplete + 64 * cycles,
            exists|draws: Seq<Seq<Seq<int>>>|
                draws.len() == cycles && all_to_dead_ends(old(self)@, draws, cycles as int)
                    && final(self)@ == #[trigger] ran(old(self)@, draws, cycles as int),
    {
        let ghost mut drawn: Seq<Seq<Seq<int>>> = Seq::empty();
        let mut done: u32 = 0;
        while done < cycles
            invariant
                0 <= done <= cycles,
                self.wf(),
                old(self).has_room(cycles as int),
                drawn.len() == done,
                all_to_dead_ends(old(self)@, drawn, done as int),
                self@ == ran(old(self)@, drawn, done as int),
                self.complete + self.incomplete == old(self).complete + old(self).incomplete + 64
                    * done,
                self.complete <= old(self).complete + 64 * done,
                self.incomplete <= old(self).incomplete + 64 * done,
            decreases cycles - done,
        {
            let ghost before = self@;
            self.cycle();
            proof {
                let used = choose|used: Seq<Seq<int>>|
                    to_dead_ends(before.levels, used) && self@ == #[trigger] cycled(before, used);
                lemma_completed_bounds(toured(before.levels, used), 64);
                let longer = drawn.push(used);
                assert forall|i: int| 0 <= i < done + 1 implies to_dead_ends(
                    ran(old(self)@, longer, i).levels,
                    #[trigger] longer[i],
                ) by {
                    lemma_ran_prefix(old(self)@, drawn, used, i);
                    if i < done {
                        assert(longer[i] == drawn[i]);
                    }
                }
                lemma_ran_prefix(old(self)@, drawn, used, done as int);
                drawn = longer;
            }
            done = done + 1;
        }
    }
}

/// The count of complete tours among the first `n` walks depends on these alone.
proof fn lemma_completed_same(first: Seq<Walk>, second: Seq<Walk>, n: int)
    requires
        0 <= n <= first.len(),
        first.len() == second.len(),
        forall|s: int| 0 <= s < n ==> first[s] == second[s],
    ensures
        completed_among(first, n) == completed_among(second, n),
    decreases n,
{
    if n > 0 {
        lemma_completed_same(first, second, n - 1);
    }
}

} // verus!
