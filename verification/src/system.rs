//! Per-tick systems and the sequential scheduler.
//!
//! A system is one unit of per-tick work. Its contract pins its whole effect
//! to a spec-level transition function of the world, so the scheduler can
//! promise exactly what a tick does: each system, once, in registration
//! order, each seeing every earlier system's effects and never touching the
//! tick counter.

use vstd::prelude::*;

use crate::resources::{
    all_free, find_res, lemma_checkout_roundtrip, lemma_find_res_idx, lemma_set_res_frame,
    res_borrowed, set_res, ResVal, ResValModel,
};
use crate::world::{wf_world, Egregoria, WorldModel, CLOCK_RES, MAP_RES};

verus! {

/// A schedulable unit of per-tick work.
///
/// `model` is the system's own statement of what one run does to the world;
/// `run` must do exactly that. A run may update the system's internal state,
/// but not what the system means: its transition function stays the same.
pub trait System: Sized {
    /// The transition this system performs on the world, one run at a time.
    spec fn model(&self, w: WorldModel) -> WorldModel;

    /// Runs the system once against the world.
    fn run(&mut self, goria: &mut Egregoria)
        requires
            wf_world(old(goria)@),
        ensures
            wf_world(final(goria)@),
            final(goria)@ == old(self).model(old(goria)@),
            forall|m: WorldModel| #[trigger] final(self).model(m) == old(self).model(m),
            final(goria)@.tick == old(goria)@.tick,
            all_free(old(goria)@.resources) ==> all_free(final(goria)@.resources),
    ;
}

/// The effect of running a list of systems in order.
pub open spec fn sched_model<S: System>(systems: Seq<S>, w: WorldModel) -> WorldModel
    decreases systems.len(),
{
    if systems.len() == 0 {
        w
    } else {
        sched_model(systems.drop_first(), systems[0].model(w))
    }
}

/// A fixed ordered sequence of systems, built once, run once per tick.
pub struct SeqSchedule<S: System> {
    pub systems: Vec<S>,
}

impl<S: System> SeqSchedule<S> {
    /// An empty schedule.
    pub fn new() -> (r: SeqSchedule<S>)
        ensures
            r.systems@ =~= Seq::<S>::empty(),
    {
        SeqSchedule { systems: Vec::new() }
    }

    /// Appends a system; execution order is registration order.
    pub fn add_system(&mut self, s: S)
        ensures
            final(self).systems@ =~= old(self).systems@.push(s),
    {
        self.systems.push(s);
    }

    /// Runs every system once, in order, synchronously. Each system sees
    /// the effects of all earlier systems in the same run; none touches the
    /// tick counter; no borrow outlives the run.
    #[verifier::loop_isolation(false)]
    pub fn execute(&mut self, goria: &mut Egregoria)
        requires
            wf_world(old(goria)@),
        ensures
            wf_world(final(goria)@),
            final(goria)@ == sched_model(old(self).systems@, old(goria)@),
            final(goria)@.tick == old(goria)@.tick,
            all_free(old(goria)@.resources) ==> all_free(final(goria)@.resources),
            final(self).systems@.len() == old(self).systems@.len(),
            forall|i: int, m: WorldModel|
                0 <= i < old(self).systems@.len() ==> #[trigger] final(self).systems@[i].model(m)
                    == old(self).systems@[i].model(m),
    {
        let ghost osys = old(self).systems@;
        proof {
            assert(osys.skip(0) =~= osys);
        }
        let n = self.systems.len();
        let mut k: usize = 0;
        while k < n
            invariant
                0 <= k <= n,
                n == osys.len(),
                self.systems@.len() == n,
                forall|j: int| k <= j < n ==> #[trigger] self.systems@[j] == osys[j],
                forall|i: int, m: WorldModel|
                    0 <= i < k ==> #[trigger] self.systems@[i].model(m) == osys[i].model(m),
                wf_world(goria@),
                goria@.tick == old(goria)@.tick,
                all_free(old(goria)@.resources) ==> all_free(goria@.resources),
                sched_model(osys.skip(k as int), goria@) == sched_model(osys, old(goria)@),
            decreases n - k,
        {
            let ghost pre = goria@;
            let ghost s_pre = self.systems@[k as int];
            self.systems[k].run(goria);
            proof {
                assert(osys.skip(k as int).drop_first() =~= osys.skip(k + 1));
                assert(osys.skip(k as int)[0] == osys[k as int]);
                assert(goria@ == osys[k as int].model(pre));
                assert(sched_model(osys.skip(k as int), pre) == sched_model(
                    osys.skip(k + 1),
                    goria@,
                ));
            }
            k = k + 1;
        }
        proof {
            assert(osys.skip(n as int) =~= Seq::<S>::empty());
        }
    }
}

/// The next value of a counter resource: one more, wrapping at the top.
pub open spec fn counter_next(v: u64) -> u64 {
    if v == 0xFFFF_FFFF_FFFF_FFFFu64 {
        0
    } else {
        (v + 1) as u64
    }
}

/// What one run of a `CounterSystem` does: bump its counter resource, when
/// that resource holds a counter and is not checked out.
pub open spec fn counter_system_model(res_id: u64, w: WorldModel) -> WorldModel {
    if res_id != MAP_RES && find_res(w.resources, res_id) is Some && find_res(
        w.resources,
        res_id,
    )->Some_0 is Uint && !res_borrowed(w.resources, res_id) {
        WorldModel {
            resources: set_res(
                w.resources,
                res_id,
                ResValModel::Uint(counter_next(find_res(w.resources, res_id)->Some_0->Uint_0)),
            ),
            ..w
        }
    } else {
        w
    }
}

/// A system that increments a counter resource by one per tick.
pub struct CounterSystem {
    pub res_id: u64,
}

impl System for CounterSystem {
    open spec fn model(&self, w: WorldModel) -> WorldModel {
        counter_system_model(self.res_id, w)
    }

    fn run(&mut self, goria: &mut Egregoria) {
        let id = self.res_id;
        if id == MAP_RES {
            return ;
        }
        let ghost pre = goria@;
        match goria.try_write(id) {
            None => {},
            Some(ResVal::Uint(v)) => {
                let next: u64 = if v == 0xFFFF_FFFF_FFFF_FFFFu64 {
                    0
                } else {
                    v + 1
                };
                proof {
                    lemma_find_res_idx(pre.resources, id);
                    assert(res_borrowed(goria@.resources, id)) by {
                        let i = find_res_idx_of(pre.resources, id);
                        crate::resources::lemma_find_res_idx_unique(goria@.resources, id, i);
                    }
                }
                goria.end_write(id, ResVal::Uint(next));
                proof {
                    lemma_checkout_roundtrip(pre.resources, id, ResValModel::Uint(next));
                    lemma_set_res_frame(pre.resources, id, ResValModel::Uint(next), CLOCK_RES);
                    lemma_set_res_frame(pre.resources, id, ResValModel::Uint(next), MAP_RES);
                    assert(goria@ =~~= counter_system_model(id, pre));
                    assert(all_free(pre.resources) ==> all_free(goria@.resources)) by {
                        if all_free(pre.resources) {
                            assert(forall|i: int|
                                0 <= i < goria@.resources.len()
                                    ==> !(#[trigger] goria@.resources[i]).borrowed);
                        }
                    }
                }
            },
            Some(other) => {
                proof {
                    lemma_find_res_idx(pre.resources, id);
                    assert(res_borrowed(goria@.resources, id)) by {
                        let i = find_res_idx_of(pre.resources, id);
                        crate::resources::lemma_find_res_idx_unique(goria@.resources, id, i);
                    }
                }
                let ghost vback = other@;
                goria.end_write(id, other);
                proof {
                    lemma_checkout_roundtrip(pre.resources, id, vback);
                    lemma_set_res_frame(pre.resources, id, vback, CLOCK_RES);
                    lemma_set_res_frame(pre.resources, id, vback, MAP_RES);
                    let i = find_res_idx_of(pre.resources, id);
                    assert(set_res(pre.resources, id, vback) =~~= pre.resources) by {
                        lemma_find_res_idx(pre.resources, id);
                    }
                    assert(goria@ =~~= pre);
                }
            },
        }
    }
}

/// The index `find_res_idx` names, for proof bookkeeping.
pub open spec fn find_res_idx_of(
    rs: Seq<crate::resources::ResEntryModel>,
    id: u64,
) -> int {
    crate::resources::find_res_idx(rs, id)->Some_0
}

} // verus!
