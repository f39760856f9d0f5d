//! Running an engine: on its own at the caller's pace, or one step per
//! key press, counting the steps that did not end the search.

use vstd::prelude::*;
use crate::algo::{AlgoStatus, Algorithm};
use crate::engines::Engine;
use crate::picker::Key;
use crate::progress::lemma_running_bounded;
use crate::search::{status_of, step, Problem, SearchState};

verus! {

/// An engine with the switches that pace it.
pub struct Executor {
    algo: Engine,
    auto_advance: bool,
    advance: bool,
    ticks: usize,
}

impl Executor {
    /// The problem that the engine works on.
    pub closed spec fn problem(&self) -> Problem {
        self.algo.problem()
    }

    /// The state that the engine is in.
    pub closed spec fn state(&self) -> SearchState {
        self.algo.state()
    }

    /// Whether the engine steps whenever a step is due.
    pub closed spec fn auto_advances(&self) -> bool {
        self.auto_advance
    }

    /// Whether a single step has been asked for.
    pub closed spec fn advance_pending(&self) -> bool {
        self.advance
    }

    /// How many steps left the search running.
    pub closed spec fn tick_count(&self) -> nat {
        self.ticks as nat
    }

    /// The engine is well-formed, and while the search runs every step
    /// taken has been counted.
    pub closed spec fn wf(&self) -> bool {
        &&& self.algo.wf()
        &&& self.algo.state().outcome is Running ==> self.ticks == self.algo.steps()
    }

    /// An executor for a fresh engine; it steps on its own.
    pub fn new(algo: Engine) -> (executor: Executor)
        requires
            algo.wf(),
            algo.steps() == 0,
        ensures
            executor.wf(),
            executor.problem() == algo.problem(),
            executor.state() == algo.state(),
            executor.auto_advances(),
            !executor.advance_pending(),
            executor.tick_count() == 0,
    {
        Executor { algo, auto_advance: true, advance: false, ticks: 0 }
    }

    /// Reacts to a key: `P` switches between stepping on its own and
    /// stepping by hand; `Space` switches to stepping by hand and asks for
    /// one step.
    pub fn on_button_down(&mut self, key: Key)
        requires
            old(self).wf(),
        ensures
            final(self).wf(),
            final(self).problem() == old(self).problem(),
            final(self).state() == old(self).state(),
            final(self).tick_count() == old(self).tick_count(),
            final(self).auto_advances() == (match key {
                Key::P => !old(self).auto_advances(),
                Key::Space => false,
                _ => old(self).auto_advances(),
            }),
            final(self).advance_pending() == (key == Key::Space || old(self).advance_pending()),
    {
        match key {
            Key::P => {
                self.auto_advance = !self.auto_advance;
            },
            Key::Space => {
                self.auto_advance = false;
                self.advance = true;
            },
            _ => {},
        }
    }

    /// Whether the next update would look at the clock at all.
    pub fn is_waiting(&self) -> (idle: bool)
        ensures
            idle == (!self.auto_advances() && !self.advance_pending()),
    {
        !self.auto_advance && !self.advance
    }

    /// One update. Nothing happens while the executor steps by hand and
    /// no step has been asked for. Otherwise the request for a step is
    /// used up, and if a step is `due` the engine takes it; the step is
    /// counted if the search still runs after it.
    pub fn update(&mut self, due: bool)
        requires
            old(self).wf(),
        ensures
            final(self).wf(),
            final(self).problem() == old(self).problem(),
            final(self).auto_advances() == old(self).auto_advances(),
            !old(self).auto_advances() && !old(self).advance_pending() ==> {
                &&& final(self).state() == old(self).state()
                &&& final(self).tick_count() == old(self).tick_count()
                &&& !final(self).advance_pending()
            },
            old(self).auto_advances() || old(self).advance_pending() ==> {
                &&& !final(self).advance_pending()
                &&& final(self).state() == (if due {
                    step(old(self).problem(), old(self).state())
                } else {
                    old(self).state()
                })
                &&& final(self).tick_count() == old(self).tick_count() + (if due
                    && final(self).state().outcome is Running {
                    1nat
                } else {
                    0nat
                })
            },
    {
        if !self.auto_advance && !self.advance {
            return ;
        }
        self.advance = false;
        if due {
            self.algo.tick();
            let running = match self.algo.get_data() {
                AlgoStatus::InProgress(_) => true,
                _ => false,
            };
            if running {
                proof {
                    self.algo.lemma_state();
                    lemma_running_bounded(self.algo.problem(), self.algo.steps());
                    assert(old(self).algo.state().outcome is Running);
                }
                self.ticks += 1;
            }
        }
    }

    /// The status of the engine.
    pub fn get_data(&self) -> (status: &AlgoStatus)
        requires
            self.wf(),
        ensures
            status@ == status_of(self.state()),
    {
        self.algo.get_data()
    }

    /// The engine.
    pub fn engine(&self) -> (algo: &Engine)
        ensures
            algo.problem() == self.problem(),
            algo.state() == self.state(),
            self.wf() ==> algo.wf(),
    {
        &self.algo
    }

    /// How many steps left the search running.
    pub fn ticks(&self) -> (n: usize)
        ensures
            n == self.tick_count(),
    {
        self.ticks
    }

    /// Whether the engine steps whenever a step is due.
    pub fn is_automatic(&self) -> (auto: bool)
        ensures
            auto == self.auto_advances(),
    {
        self.auto_advance
    }
}

} // verus!
