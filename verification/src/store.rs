//! The entity/component store: a slot table mapping generation-stamped
//! handles to per-entity component data.
//!
//! Component data is opaque to the kernel: a component is a numeric type tag
//! plus a byte payload, attached to at most one slot per tag. Handles to
//! despawned entities are detectably invalid (the slot generation moves on)
//! and a retired slot is never handed out again under an old generation.

use vstd::prelude::*;

use crate::entity::Entity;

verus! {

/// One slot of the table.
pub struct Slot {
    /// Bumped on despawn so stale handles never alias a reused slot.
    pub generation: u32,
    /// Whether a live entity currently occupies the slot.
    pub alive: bool,
    /// The components attached to the occupying entity: (type tag, payload).
    pub comps: Vec<(u64, Vec<u8>)>,
}

/// The mathematical value of one slot.
#[verifier::ext_equal]
pub struct SlotModel {
    pub generation: u32,
    pub alive: bool,
    pub comps: Seq<(u64, Seq<u8>)>,
}

impl View for Slot {
    type V = SlotModel;

    open spec fn view(&self) -> SlotModel {
        SlotModel {
            generation: self.generation,
            alive: self.alive,
            comps: self.comps@.map_values(|c: (u64, Vec<u8>)| (c.0, c.1@)),
        }
    }
}

/// The position of the first component with tag `tag`, if any.
pub open spec fn find_comp_idx(comps: Seq<(u64, Seq<u8>)>, tag: u64) -> Option<int>
    decreases comps.len(),
{
    if comps.len() == 0 {
        None
    } else if comps[0].0 == tag {
        Some(0)
    } else {
        match find_comp_idx(comps.drop_first(), tag) {
            Some(i) => Some(i + 1),
            None => None,
        }
    }
}

/// The payload of the component with tag `tag`, if attached.
pub open spec fn find_comp(comps: Seq<(u64, Seq<u8>)>, tag: u64) -> Option<Seq<u8>> {
    match find_comp_idx(comps, tag) {
        Some(i) => Some(comps[i].1),
        None => None,
    }
}

/// Attaching or replacing a component: replace the first occurrence of the
/// tag in place, or append the component if the tag is new.
pub open spec fn set_comp(comps: Seq<(u64, Seq<u8>)>, tag: u64, data: Seq<u8>) -> Seq<
    (u64, Seq<u8>),
> {
    match find_comp_idx(comps, tag) {
        Some(i) => comps.update(i, (tag, data)),
        None => comps.push((tag, data)),
    }
}

/// Detaching a component: drop the first occurrence of the tag, if any.
pub open spec fn remove_comp(comps: Seq<(u64, Seq<u8>)>, tag: u64) -> Seq<(u64, Seq<u8>)> {
    match find_comp_idx(comps, tag) {
        Some(i) => comps.remove(i),
        None => comps,
    }
}

/// What `find_comp_idx` returns: the first index carrying the tag.
pub proof fn lemma_find_comp_idx(comps: Seq<(u64, Seq<u8>)>, tag: u64)
    ensures
        match find_comp_idx(comps, tag) {
            Some(i) => 0 <= i < comps.len() && comps[i].0 == tag && forall|j: int|
                0 <= j < i ==> comps[j].0 != tag,
            None => forall|j: int| 0 <= j < comps.len() ==> comps[j].0 != tag,
        },
    decreases comps.len(),
{
    if comps.len() > 0 && comps[0].0 != tag {
        let t = comps.drop_first();
        lemma_find_comp_idx(t, tag);
        assert(forall|j: int| 0 <= j < t.len() ==> #[trigger] t[j] == comps[j + 1]);
        match find_comp_idx(t, tag) {
            Some(i) => {
                assert(find_comp_idx(comps, tag) == Some(i + 1));
                assert(forall|j: int| 0 <= j < i + 1 ==> comps[j].0 != tag) by {
                    assert(forall|j: int| 1 <= j < i + 1 ==> comps[j] == t[j - 1] && t[j - 1].0 != tag);
                }
            },
            None => {
                assert(forall|j: int| 0 <= j < comps.len() ==> comps[j].0 != tag) by {
                    assert(forall|j: int| 1 <= j < comps.len() ==> comps[j] == t[j - 1] && t[j - 1].0 != tag);
                }
            },
        }
    }
}

/// A first match determines `find_comp_idx`.
pub proof fn lemma_find_comp_idx_unique(comps: Seq<(u64, Seq<u8>)>, tag: u64, i: int)
    requires
        0 <= i < comps.len(),
        comps[i].0 == tag,
        forall|j: int| 0 <= j < i ==> comps[j].0 != tag,
    ensures
        find_comp_idx(comps, tag) == Some(i),
    decreases comps.len(),
{
    if i > 0 {
        lemma_find_comp_idx_unique(comps.drop_first(), tag, i - 1);
    }
}

/// No match at all means `find_comp_idx` is `None`.
pub proof fn lemma_find_comp_idx_none(comps: Seq<(u64, Seq<u8>)>, tag: u64)
    requires
        forall|j: int| 0 <= j < comps.len() ==> comps[j].0 != tag,
    ensures
        find_comp_idx(comps, tag) is None,
{
    lemma_find_comp_idx(comps, tag);
}

/// Well-formed component list: each tag attached at most once.
pub open spec fn wf_comps(comps: Seq<(u64, Seq<u8>)>) -> bool {
    forall|i: int, j: int| 0 <= i < j < comps.len() ==> comps[i].0 != comps[j].0
}

/// Well-formed store: every slot's component list is well-formed.
pub open spec fn wf_store(s: Seq<SlotModel>) -> bool {
    forall|i: int| 0 <= i < s.len() ==> wf_comps(#[trigger] s[i].comps)
}

/// `e` is a live handle: its slot exists, is occupied, and still carries the
/// generation the handle was spawned with.
pub open spec fn live(s: Seq<SlotModel>, e: Entity) -> bool {
    &&& (e.index as int) < s.len()
    &&& s[e.index as int].alive
    &&& s[e.index as int].generation == e.generation
}

/// The slot a despawn leaves behind: empty, dead, and (while the generation
/// counter lasts) stamped with a fresh generation.
pub open spec fn despawned_slot(s: SlotModel) -> SlotModel {
    SlotModel {
        generation: if s.generation < 0xFFFF_FFFFu32 {
            (s.generation + 1) as u32
        } else {
            s.generation
        },
        alive: false,
        comps: Seq::empty(),
    }
}

/// The entity/component table. All simulation state attached to entities
/// lives here.
pub struct World {
    pub slots: Vec<Slot>,
}

impl View for World {
    type V = Seq<SlotModel>;

    open spec fn view(&self) -> Seq<SlotModel> {
        self.slots@.map_values(|s: Slot| s@)
    }
}

impl World {
    /// An empty store.
    pub fn new() -> (r: World)
        ensures
            r@ =~= Seq::<SlotModel>::empty(),
    {
        World { slots: Vec::new() }
    }

    /// How many slots the table holds (live or dead).
    pub fn slot_count(&self) -> (r: usize)
        ensures
            r == self@.len(),
    {
        self.slots.len()
    }

    /// Whether `e` is a live handle.
    pub fn contains(&self, e: Entity) -> (r: bool)
        ensures
            r == live(self@, e),
    {
        let idx = e.index as usize;
        idx < self.slots.len() && self.slots[idx].alive && self.slots[idx].generation
            == e.generation
    }

    /// Creates a fresh entity with no components. Reuses a retired slot when
    /// one is available, else appends a new one.
    #[verifier::loop_isolation(false)]
    pub fn spawn(&mut self) -> (e: Entity)
        requires
            old(self)@.len() < 0xFFFF_FFFFu32,
            wf_store(old(self)@),
        ensures
            wf_store(final(self)@),
            live(final(self)@, e),
            !live(old(self)@, e),
            final(self)@[e.index as int].comps =~= Seq::<(u64, Seq<u8>)>::empty(),
            old(self)@.len() <= final(self)@.len(),
            forall|i: int|
                0 <= i < old(self)@.len() && i != e.index as int ==> final(self)@[i] == old(
                    self,
                )@[i],
            (e.index as int == old(self)@.len()) || ((e.index as int) < old(self)@.len()
                && !old(self)@[e.index as int].alive),
            final(self)@ =~~= if e.index as int == old(self)@.len() {
                old(self)@.push(SlotModel { generation: e.generation, alive: true, comps: Seq::empty() })
            } else {
                old(self)@.update(
                    e.index as int,
                    SlotModel { generation: e.generation, alive: true, comps: Seq::empty() },
                )
            },
    {
        let n = self.slots.len();
        let mut idx: usize = 0;
        while idx < n
            invariant
                0 <= idx <= n,
                n == self@.len(),
                self == old(self),
            decreases n - idx,
        {
            if !self.slots[idx].alive && self.slots[idx].generation < 0xFFFF_FFFFu32 {
                let generation = self.slots[idx].generation;
                self.slots[idx].alive = true;
                self.slots[idx].comps = Vec::new();
                let e = Entity { generation, index: idx as u32 };
                proof {
                    assert(self@ =~~= old(self)@.update(
                        e.index as int,
                        SlotModel { generation: e.generation, alive: true, comps: Seq::empty() },
                    ));
                }
                return e;
            }
            idx = idx + 1;
        }
        let e = Entity { generation: 0, index: n as u32 };
        self.slots.push(Slot { generation: 0, alive: true, comps: Vec::new() });
        proof {
            assert(self@ =~~= old(self)@.push(
                SlotModel { generation: 0, alive: true, comps: Seq::empty() },
            ));
        }
        e
    }

    /// Attaches a component to `e`, or replaces the one already attached
    /// under the same tag. Dropped (returning `false`) when `e` is no longer
    /// live, so that a half-applied command cannot crash the world.
    #[verifier::loop_isolation(false)]
    pub fn insert(&mut self, e: Entity, tag: u64, data: Vec<u8>) -> (ok: bool)
        requires
            wf_store(old(self)@),
        ensures
            wf_store(final(self)@),
            ok == live(old(self)@, e),
            !ok ==> final(self)@ =~= old(self)@,
            ok ==> final(self)@ =~~= old(self)@.update(
                e.index as int,
                SlotModel {
                    comps: set_comp(old(self)@[e.index as int].comps, tag, data@),
                    ..old(self)@[e.index as int]
                },
            ),
    {
        if !self.contains(e) {
            return false;
        }
        let idx = e.index as usize;
        let ghost old_comps = self@[e.index as int].comps;
        let m = self.slots[idx].comps.len();
        let mut ci: usize = 0;
        while ci < m
            invariant
                0 <= ci <= m,
                m == old_comps.len(),
                self == old(self),
                old_comps == self@[e.index as int].comps,
                idx == e.index as int,
                idx < self@.len(),
                forall|j: int| 0 <= j < ci ==> old_comps[j].0 != tag,
            decreases m - ci,
        {
            if self.slots[idx].comps[ci].0 == tag {
                proof {
                    lemma_find_comp_idx_unique(old_comps, tag, ci as int);
                }
                self.slots[idx].comps[ci] = (tag, data);
                proof {
                    assert(self@ =~~= old(self)@.update(
                        e.index as int,
                        SlotModel {
                            comps: set_comp(old_comps, tag, data@),
                            ..old(self)@[e.index as int]
                        },
                    )) by {
                        assert(self.slots@[idx as int].comps@.map_values(
                            |c: (u64, Vec<u8>)| (c.0, c.1@),
                        ) =~~= old_comps.update(ci as int, (tag, data@)));
                    }
                    assert(wf_comps(set_comp(old_comps, tag, data@))) by {
                        let c2 = old_comps.update(ci as int, (tag, data@));
                        assert(forall|j: int|
                            0 <= j < c2.len() ==> (#[trigger] c2[j]).0 == old_comps[j].0);
                    }
                }
                return true;
            }
            ci = ci + 1;
        }
        proof {
            lemma_find_comp_idx_none(old_comps, tag);
        }
        self.slots[idx].comps.push((tag, data));
        proof {
            assert(self@ =~~= old(self)@.update(
                e.index as int,
                SlotModel {
                    comps: set_comp(old_comps, tag, data@),
                    ..old(self)@[e.index as int]
                },
            )) by {
                assert(self.slots@[idx as int].comps@.map_values(
                    |c: (u64, Vec<u8>)| (c.0, c.1@),
                ) =~~= old_comps.push((tag, data@)));
            }
        }
        true
    }

    /// Detaches the component under `tag` from `e`, if attached; a no-op
    /// otherwise.
    #[verifier::loop_isolation(false)]
    pub fn remove(&mut self, e: Entity, tag: u64)
        requires
            wf_store(old(self)@),
        ensures
            wf_store(final(self)@),
            !live(old(self)@, e) ==> final(self)@ =~= old(self)@,
            live(old(self)@, e) ==> final(self)@ =~~= old(self)@.update(
                e.index as int,
                SlotModel {
                    comps: remove_comp(old(self)@[e.index as int].comps, tag),
                    ..old(self)@[e.index as int]
                },
            ),
    {
        if !self.contains(e) {
            return ;
        }
        let idx = e.index as usize;
        let ghost old_comps = self@[e.index as int].comps;
        let m = self.slots[idx].comps.len();
        let mut ci: usize = 0;
        while ci < m
            invariant
                0 <= ci <= m,
                m == old_comps.len(),
                self == old(self),
                old_comps == self@[e.index as int].comps,
                idx == e.index as int,
                idx < self@.len(),
                forall|j: int| 0 <= j < ci ==> old_comps[j].0 != tag,
            decreases m - ci,
        {
            if self.slots[idx].comps[ci].0 == tag {
                proof {
                    lemma_find_comp_idx_unique(old_comps, tag, ci as int);
                }
                self.slots[idx].comps.remove(ci);
                proof {
                    assert(self@ =~~= old(self)@.update(
                        e.index as int,
                        SlotModel {
                            comps: remove_comp(old_comps, tag),
                            ..old(self)@[e.index as int]
                        },
                    )) by {
                        assert(self.slots@[idx as int].comps@.map_values(
                            |c: (u64, Vec<u8>)| (c.0, c.1@),
                        ) =~~= old_comps.remove(ci as int));
                    }
                }
                return ;
            }
            ci = ci + 1;
        }
        proof {
            lemma_find_comp_idx_none(old_comps, tag);
            assert(self@ =~~= old(self)@.update(
                e.index as int,
                SlotModel { comps: remove_comp(old_comps, tag), ..old(self)@[e.index as int] },
            ));
        }
    }

    /// The payload of the component attached to `e` under `tag`, if `e` is
    /// live and carries one.
    #[verifier::loop_isolation(false)]
    pub fn get(&self, e: Entity, tag: u64) -> (r: Option<Vec<u8>>)
        ensures
            r is Some <==> live(self@, e) && find_comp(self@[e.index as int].comps, tag) is Some,
            r matches Some(d) ==> d@ == find_comp(self@[e.index as int].comps, tag)->Some_0,
    {
        if !self.contains(e) {
            proof {
                if live(self@, e) {
                }
            }
            return None;
        }
        let idx = e.index as usize;
        let ghost comps = self@[e.index as int].comps;
        let m = self.slots[idx].comps.len();
        let mut ci: usize = 0;
        while ci < m
            invariant
                0 <= ci <= m,
                m == comps.len(),
                comps == self@[e.index as int].comps,
                idx == e.index as int,
                idx < self@.len(),
                forall|j: int| 0 <= j < ci ==> comps[j].0 != tag,
            decreases m - ci,
        {
            if self.slots[idx].comps[ci].0 == tag {
                proof {
                    lemma_find_comp_idx_unique(comps, tag, ci as int);
                }
                let mut out: Vec<u8> = Vec::new();
                let dlen = self.slots[idx].comps[ci].1.len();
                let mut k: usize = 0;
                while k < dlen
                    invariant
                        0 <= k <= dlen,
                        idx < self@.len(),
                        ci < self@[idx as int].comps.len(),
                        comps == self@[e.index as int].comps,
                        idx == e.index as int,
                        ci < comps.len(),
                        dlen == comps[ci as int].1.len(),
                        out@ =~= comps[ci as int].1.take(k as int),
                    decreases dlen - k,
                {
                    proof {
                        assert(comps[ci as int].1.take(k as int).push(comps[ci as int].1[k as int])
                            =~= comps[ci as int].1.take(k + 1));
                    }
                    out.push(self.slots[idx].comps[ci].1[k]);
                    k = k + 1;
                }
                proof {
                    assert(comps[ci as int].1.take(dlen as int) =~= comps[ci as int].1);
                }
                return Some(out);
            }
            ci = ci + 1;
        }
        proof {
            lemma_find_comp_idx_none(comps, tag);
        }
        None
    }

    /// Removes all components of `e` and invalidates the handle. The slot's
    /// generation is bumped, so the handle can never alias a later entity.
    pub fn despawn(&mut self, e: Entity)
        requires
            wf_store(old(self)@),
        ensures
            wf_store(final(self)@),
            !live(final(self)@, e),
            !live(old(self)@, e) ==> final(self)@ =~= old(self)@,
            live(old(self)@, e) ==> final(self)@ =~~= old(self)@.update(
                e.index as int,
                despawned_slot(old(self)@[e.index as int]),
            ),
    {
        if !self.contains(e) {
            return ;
        }
        let idx = e.index as usize;
        let generation = self.slots[idx].generation;
        self.slots[idx].alive = false;
        self.slots[idx].comps = Vec::new();
        if generation < 0xFFFF_FFFFu32 {
            self.slots[idx].generation = generation + 1;
        }
        proof {
            assert(self@ =~~= old(self)@.update(
                e.index as int,
                despawned_slot(old(self)@[e.index as int]),
            ));
        }
    }
}

} // verus!
