//! The timing accountant: per-module and per-tick cost samples, in
//! nanoseconds, summarised into periodic performance reports.
use vstd::prelude::*;
use crate::ids::ModuleId;

verus! {

/// Accumulated cost of one module.
#[derive(Clone, Copy, Debug, PartialEq, Eq, Structural)]
pub struct ModuleTiming {
    pub id: ModuleId,
    pub total_ns: u64,
    pub max_ns: u64,
    pub count: u64,
    /// Sliding average: each sample moves it an eighth of the way.
    pub recent_ns: u64,
}

/// Accumulated cost of whole ticks.
#[derive(Clone, Copy, Debug, PartialEq, Eq, Structural)]
pub struct TickTiming {
    pub total_ns: u64,
    pub max_ns: u64,
    pub count: u64,
    /// Ticks that ended after their deadline.
    pub overruns: u64,
}

/// Summary of one module's cost.
#[derive(Clone, Copy, Debug, PartialEq, Eq, Structural)]
pub struct ModuleReport {
    pub id: ModuleId,
    pub avg_ns: u64,
    pub sliding_avg_ns: u64,
    pub max_ns: u64,
    pub count: u64,
}

/// Summary of tick cost against the budget of one tick.
#[derive(Clone, Copy, Debug, PartialEq, Eq, Structural)]
pub struct TickReport {
    pub avg_ns: u64,
    pub max_ns: u64,
    pub budget_ns: u64,
    pub overruns: u64,
}

/// A performance snapshot.
#[derive(Clone, Debug, PartialEq)]
pub struct PerformanceInfo {
    pub modules: Vec<ModuleReport>,
    pub tick: TickReport,
}

/// All cost samples so far; one entry per module id.
pub struct EngineStat {
    pub modules: Vec<ModuleTiming>,
    pub tick: TickTiming,
    pub budget_ns: u64,
}

pub open spec fn sat_add(a: u64, b: u64) -> u64 {
    if a + b > u64::MAX {
        u64::MAX
    } else {
        (a + b) as u64
    }
}

pub open spec fn max_u64(a: u64, b: u64) -> u64 {
    if a >= b {
        a
    } else {
        b
    }
}

/// The average of a total over a count; zero for no samples.
pub open spec fn average(total: u64, count: u64) -> u64 {
    if count == 0 {
        0
    } else {
        (total / count) as u64
    }
}

/// The sliding average after a sample of `ns`: seven eighths of the old
/// average plus an eighth of the sample.
pub open spec fn slide(recent: u64, ns: u64) -> u64 {
    (recent - recent / 8 + ns / 8) as u64
}

/// Adds one sample to an accumulated cost (or starts one).
pub open spec fn with_sample(prior: Option<ModuleTiming>, id: ModuleId, ns: u64) -> ModuleTiming {
    match prior {
        Some(t) => ModuleTiming {
            id,
            total_ns: sat_add(t.total_ns, ns),
            max_ns: max_u64(t.max_ns, ns),
            count: sat_add(t.count, 1),
            recent_ns: slide(t.recent_ns, ns),
        },
        None => ModuleTiming { id, total_ns: ns, max_ns: ns, count: 1, recent_ns: ns },
    }
}

impl EngineStat {
    pub open spec fn wf(self) -> bool {
        forall|a: int, b: int|
            0 <= a < b < self.modules@.len() ==> (#[trigger] self.modules@[a]).id
                != (#[trigger] self.modules@[b]).id
    }

    /// The accumulated cost of module `id`, if it has any samples.
    pub open spec fn timing(self, id: ModuleId) -> Option<ModuleTiming> {
        if exists|k: int| 0 <= k < self.modules@.len() && self.modules@[k].id == id {
            Some(self.modules@[choose|k: int| 0 <= k < self.modules@.len() && self.modules@[k].id == id])
        } else {
            None
        }
    }

    pub proof fn lemma_timing_at(self, k: int)
        requires
            self.wf(),
            0 <= k < self.modules@.len(),
        ensures
            self.timing(self.modules@[k].id) == Some(self.modules@[k]),
    {
        let id = self.modules@[k].id;
        let j = choose|j: int| 0 <= j < self.modules@.len() && self.modules@[j].id == id;
        if j < k {
            assert(self.modules@[j].id != self.modules@[k].id);
        } else if k < j {
            assert(self.modules@[k].id != self.modules@[j].id);
        }
    }

    /// No samples yet, against a budget of `budget_ns` per tick.
    pub fn new(budget_ns: u64) -> (r: Self)
        ensures
            r.wf(),
            r.budget_ns == budget_ns,
            r.tick == (TickTiming { total_ns: 0, max_ns: 0, count: 0, overruns: 0 }),
            forall|id: ModuleId| #[trigger] r.timing(id) is None,
    {
        EngineStat {
            modules: Vec::new(),
            tick: TickTiming { total_ns: 0, max_ns: 0, count: 0, overruns: 0 },
            budget_ns,
        }
    }

    fn find(&self, id: ModuleId) -> (r: Option<usize>)
        requires
            self.wf(),
        ensures
            r is None ==> self.timing(id) is None,
            r matches Some(k) ==> k < self.modules@.len() && self.modules@[k as int].id == id,
    {
        let mut k: usize = 0;
        while k < self.modules.len()
            invariant
                k <= self.modules@.len(),
                forall|j: int| 0 <= j < k ==> self.modules@[j].id != id,
            decreases self.modules@.len() - k,
        {
            if self.modules[k].id == id {
                return Some(k);
            }
            k = k + 1;
        }
        None
    }

    /// Adds one run of module `id` that took `ns` nanoseconds.
    pub fn record_module(&mut self, id: ModuleId, ns: u64)
        requires
            old(self).wf(),
        ensures
            final(self).wf(),
            final(self).tick == old(self).tick,
            final(self).budget_ns == old(self).budget_ns,
            final(self).timing(id) == Some(with_sample(old(self).timing(id), id, ns)),
            forall|x: ModuleId| x != id ==> #[trigger] final(self).timing(x) == old(self).timing(x),
    {
        let ghost pre = *self;
        match self.find(id) {
            Some(k) => {
                proof {
                    pre.lemma_timing_at(k as int);
                }
                let t = self.modules[k];
                let updated = ModuleTiming {
                    id,
                    total_ns: t.total_ns.saturating_add(ns),
                    max_ns: if t.max_ns >= ns {
                        t.max_ns
                    } else {
                        ns
                    },
                    count: t.count.saturating_add(1),
                    recent_ns: t.recent_ns - t.recent_ns / 8 + ns / 8,
                };
                self.modules.set(k, updated);
                proof {
                    assert(self.modules@ == pre.modules@.update(k as int, updated));
                    assert(self.wf());
                    self.lemma_timing_at(k as int);
                    assert forall|x: ModuleId| x != id implies #[trigger] self.timing(x) == pre.timing(x) by {
                        if exists|j: int| 0 <= j < pre.modules@.len() && pre.modules@[j].id == x {
                            let j = choose|j: int| 0 <= j < pre.modules@.len() && pre.modules@[j].id == x;
                            pre.lemma_timing_at(j);
                            self.lemma_timing_at(j);
                        }
                        if exists|j: int| 0 <= j < self.modules@.len() && self.modules@[j].id == x {
                            let j = choose|j: int| 0 <= j < self.modules@.len() && self.modules@[j].id == x;
                            assert(pre.modules@[j].id == x);
                        }
                    }
                }
            },
            None => {
                let fresh = ModuleTiming { id, total_ns: ns, max_ns: ns, count: 1, recent_ns: ns };
                self.modules.push(fresh);
                proof {
                    let n = pre.modules@.len() as int;
                    assert(self.modules@ == pre.modules@.push(fresh));
                    assert forall|a: int, b: int|
                        0 <= a < b < self.modules@.len() implies (#[trigger] self.modules@[a]).id
                            != (#[trigger] self.modules@[b]).id by {
                        assert(self.modules@[a] == pre.modules@[a]);
                        if b < n {
                            assert(self.modules@[b] == pre.modules@[b]);
                        } else {
                            assert(pre.modules@[a].id != id);
                        }
                    }
                    self.lemma_timing_at(n);
                    assert forall|x: ModuleId| x != id implies #[trigger] self.timing(x) == pre.timing(x) by {
                        if exists|j: int| 0 <= j < pre.modules@.len() && pre.modules@[j].id == x {
                            let j = choose|j: int| 0 <= j < pre.modules@.len() && pre.modules@[j].id == x;
                            pre.lemma_timing_at(j);
                            assert(self.modules@[j] == pre.modules@[j]);
                            self.lemma_timing_at(j);
                        }
                        if exists|j: int| 0 <= j < self.modules@.len() && self.modules@[j].id == x {
                            let j = choose|j: int| 0 <= j < self.modules@.len() && self.modules@[j].id == x;
                            assert(pre.modules@[j] == self.modules@[j]);
                        }
                    }
                }
            },
        }
    }

    /// Forgets module `id`.
    pub fn remove_module(&mut self, id: ModuleId)
        requires
            old(self).wf(),
        ensures
            final(self).wf(),
            final(self).tick == old(self).tick,
            final(self).budget_ns == old(self).budget_ns,
            final(self).timing(id) is None,
            forall|x: ModuleId| x != id ==> #[trigger] final(self).timing(x) == old(self).timing(x),
    {
        let ghost pre = *self;
        match self.find(id) {
            None => {},
            Some(k) => {
                self.modules.remove(k);
                proof {
                    assert forall|a: int, b: int|
                        0 <= a < b < self.modules@.len() implies (#[trigger] self.modules@[a]).id
                            != (#[trigger] self.modules@[b]).id by {
                        let a2 = if a < k { a } else { a + 1 };
                        let b2 = if b < k { b } else { b + 1 };
                        assert(self.modules@[a] == pre.modules@[a2]);
                        assert(self.modules@[b] == pre.modules@[b2]);
                    }
                    if exists|j: int| 0 <= j < self.modules@.len() && self.modules@[j].id == id {
                        let j = choose|j: int| 0 <= j < self.modules@.len() && self.modules@[j].id == id;
                        let j2 = if j < k { j } else { j + 1 };
                        assert(self.modules@[j] == pre.modules@[j2]);
                    }
                    assert forall|x: ModuleId| x != id implies #[trigger] self.timing(x) == pre.timing(x) by {
                        if exists|j: int| 0 <= j < pre.modules@.len() && pre.modules@[j].id == x {
                            let j = choose|j: int| 0 <= j < pre.modules@.len() && pre.modules@[j].id == x;
                            pre.lemma_timing_at(j);
                            let j2 = if j < k { j } else { j - 1 };
                            assert(self.modules@[j2] == pre.modules@[j]);
                            self.lemma_timing_at(j2);
                        }
                        if exists|j: int| 0 <= j < self.modules@.len() && self.modules@[j].id == x {
                            let j = choose|j: int| 0 <= j < self.modules@.len() && self.modules@[j].id == x;
                            let j2 = if j < k { j } else { j + 1 };
                            assert(self.modules@[j] == pre.modules@[j2]);
                        }
                    }
                }
            },
        }
    }

    /// Adds one tick that took `ns` nanoseconds; `overran` when it ended
    /// after its deadline.
    pub fn record_tick(&mut self, ns: u64, overran: bool)
        ensures
            final(self).modules@ == old(self).modules@,
            final(self).budget_ns == old(self).budget_ns,
            final(self).tick == (TickTiming {
                total_ns: sat_add(old(self).tick.total_ns, ns),
                max_ns: max_u64(old(self).tick.max_ns, ns),
                count: sat_add(old(self).tick.count, 1),
                overruns: if overran {
                    sat_add(old(self).tick.overruns, 1)
                } else {
                    old(self).tick.overruns
                },
            }),
    {
        let t = self.tick;
        self.tick = TickTiming {
            total_ns: t.total_ns.saturating_add(ns),
            max_ns: if t.max_ns >= ns {
                t.max_ns
            } else {
                ns
            },
            count: t.count.saturating_add(1),
            overruns: if overran {
                t.overruns.saturating_add(1)
            } else {
                t.overruns
            },
        };
    }

    /// The current summary: for each module with samples its all-time and
    /// sliding averages, maximum and count, and the same for whole ticks with the budget.
    pub fn report(&self) -> (r: PerformanceInfo)
        ensures
            r.modules@.len() == self.modules@.len(),
            forall|k: int|
                0 <= k < self.modules@.len() ==> {
                    let t = #[trigger] self.modules@[k];
                    r.modules@[k] == ModuleReport {
                        id: t.id,
                        avg_ns: average(t.total_ns, t.count),
                        sliding_avg_ns: t.recent_ns,
                        max_ns: t.max_ns,
                        count: t.count,
                    }
                },
            r.tick == (TickReport {
                avg_ns: average(self.tick.total_ns, self.tick.count),
                max_ns: self.tick.max_ns,
                budget_ns: self.budget_ns,
                overruns: self.tick.overruns,
            }),
    {
        let mut modules: Vec<ModuleReport> = Vec::new();
        let mut k: usize = 0;
        while k < self.modules.len()
            invariant
                k <= self.modules@.len(),
                modules@.len() == k,
                forall|j: int|
                    0 <= j < k ==> {
                        let t = #[trigger] self.modules@[j];
                        modules@[j] == ModuleReport {
                            id: t.id,
                            avg_ns: average(t.total_ns, t.count),
                            sliding_avg_ns: t.recent_ns,
                            max_ns: t.max_ns,
                            count: t.count,
                        }
                    },
            decreases self.modules@.len() - k,
        {
            let t = self.modules[k];
            let avg = if t.count == 0 {
                0
            } else {
                t.total_ns / t.count
            };
            modules.push(
                ModuleReport {
                    id: t.id,
                    avg_ns: avg,
                    sliding_avg_ns: t.recent_ns,
                    max_ns: t.max_ns,
                    count: t.count,
                },
            );
            k = k + 1;
        }
        let avg = if self.tick.count == 0 {
            0
        } else {
            self.tick.total_ns / self.tick.count
        };
        PerformanceInfo {
            modules,
            tick: TickReport {
                avg_ns: avg,
                max_ns: self.tick.max_ns,
                budget_ns: self.budget_ns,
                overruns: self.tick.overruns,
            },
        }
    }
}

} // verus!
