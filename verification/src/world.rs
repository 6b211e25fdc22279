//! The world: exclusive owner of the entity/component store and the
//! resource store, plus the monotonically increasing tick counter.

use vstd::prelude::*;

use crate::entity::Entity;
use crate::registry::{InitEntryModel, Registries, RegistriesModel};
use crate::resources::{
    all_free, find_res, lemma_set_res_frame, res_borrowed, set_res, wf_res, ResEntryModel,
    Resources, ResVal, ResValModel,
};
use crate::store::{find_comp, live, set_comp, wf_store, SlotModel, World};

verus! {

/// The resource id of the simulated game clock (milliseconds since the
/// world began; a counter resource).
pub const CLOCK_RES: u64 = 0;

/// The resource id of the terrain grid (the map).
pub const MAP_RES: u64 = 1;

/// How far the simulated clock advances per tick, in milliseconds.
pub const CLOCK_STEP_MS: u64 = 50;

/// The kernel reserves the clock and map ids for values of their kind; all
/// other ids may hold any value.
pub open spec fn ok_for_id(id: u64, v: ResValModel) -> bool {
    &&& id == CLOCK_RES ==> v is Uint
    &&& id == MAP_RES ==> v is Terrain
}

/// The mathematical value of a whole world.
#[verifier::ext_equal]
pub struct WorldModel {
    pub slots: Seq<SlotModel>,
    pub resources: Seq<ResEntryModel>,
    pub tick: u32,
}

/// The simulated clock's current timestamp.
pub open spec fn clock_of(w: WorldModel) -> u64 {
    find_res(w.resources, CLOCK_RES)->Some_0->Uint_0
}

/// Step one of a tick: the simulated clock advances by the fixed step.
pub open spec fn advance_clock(w: WorldModel) -> WorldModel {
    WorldModel {
        resources: set_res(
            w.resources,
            CLOCK_RES,
            ResValModel::Uint((clock_of(w) + CLOCK_STEP_MS) as u64),
        ),
        ..w
    }
}

/// A well-formed world: well-formed stores, and the clock installed as a
/// counter.
pub open spec fn wf_world(w: WorldModel) -> bool {
    &&& wf_store(w.slots)
    &&& wf_res(w.resources)
    &&& find_res(w.resources, CLOCK_RES) is Some
    &&& find_res(w.resources, CLOCK_RES)->Some_0 is Uint
    &&& (find_res(w.resources, MAP_RES) is Some ==> find_res(w.resources, MAP_RES)->Some_0
        is Terrain)
}

/// One row of the generated chunk grid, at height `y`.
pub open spec fn terrain_row(size: int, y: int) -> Seq<(i32, i32)> {
    Seq::new((2 * size - 1) as nat, |c: int| ((1 - size + c) as i32, y as i32))
}

/// The first `upto` rows of the generated chunk grid.
pub open spec fn terrain_rows(size: int, upto: int) -> Seq<(i32, i32)>
    decreases upto,
{
    if upto <= 0 {
        Seq::empty()
    } else {
        terrain_rows(size, upto - 1) + terrain_row(size, 1 - size + (upto - 1))
    }
}

/// The whole chunk grid for a world of the given size: the square
/// `1-size ..= size-1` in both axes, row-major — deterministic, so two
/// worlds built with the same size carry identical terrain.
pub open spec fn terrain_grid(size: int) -> Seq<(i32, i32)> {
    if size <= 0 {
        Seq::empty()
    } else {
        terrain_rows(size, 2 * size - 1)
    }
}

/// One init entry applied to the resource store: installs its resource,
/// unless it would put a value of the wrong kind under a reserved id.
pub open spec fn apply_init(rs: Seq<ResEntryModel>, e: InitEntryModel) -> Seq<ResEntryModel> {
    if ok_for_id(e.id, e.val) {
        set_res(rs, e.id, e.val)
    } else {
        rs
    }
}

/// All init entries applied in registration order.
pub open spec fn apply_inits(rs: Seq<ResEntryModel>, inits: Seq<InitEntryModel>) -> Seq<
    ResEntryModel,
>
    decreases inits.len(),
{
    if inits.len() == 0 {
        rs
    } else {
        apply_inits(apply_init(rs, inits[0]), inits.drop_first())
    }
}

/// Appending one more init entry to a run of applications.
pub proof fn lemma_apply_inits_snoc(
    rs: Seq<ResEntryModel>,
    inits: Seq<InitEntryModel>,
    e: InitEntryModel,
)
    ensures
        apply_inits(rs, inits.push(e)) == apply_init(apply_inits(rs, inits), e),
    decreases inits.len(),
{
    let s1 = inits.push(e);
    if inits.len() == 0 {
        assert(s1.drop_first() =~= Seq::<InitEntryModel>::empty());
        assert(s1[0] == e);
        assert(apply_inits(rs, s1) == apply_inits(apply_init(rs, e), s1.drop_first()));
        assert(apply_inits(apply_init(rs, e), s1.drop_first()) == apply_init(rs, e));
        assert(apply_inits(rs, inits) == rs);
    } else {
        assert(s1[0] == inits[0]);
        assert(s1.drop_first() =~= inits.drop_first().push(e));
        lemma_apply_inits_snoc(apply_init(rs, inits[0]), inits.drop_first(), e);
        assert(apply_inits(rs, s1) == apply_inits(apply_init(rs, s1[0]), s1.drop_first()));
        assert(apply_inits(rs, inits) == apply_inits(apply_init(rs, inits[0]), inits.drop_first()));
    }
}

/// Init application keeps the store sound: ids stay unique, the clock stays
/// a counter, the map stays terrain, and nothing becomes borrowed.
pub proof fn lemma_apply_inits_wf(rs: Seq<ResEntryModel>, inits: Seq<InitEntryModel>)
    requires
        wf_res(rs),
        find_res(rs, CLOCK_RES) is Some,
        find_res(rs, CLOCK_RES)->Some_0 is Uint,
        find_res(rs, MAP_RES) is Some ==> find_res(rs, MAP_RES)->Some_0 is Terrain,
        all_free(rs),
    ensures
        wf_res(apply_inits(rs, inits)),
        find_res(apply_inits(rs, inits), CLOCK_RES) is Some,
        find_res(apply_inits(rs, inits), CLOCK_RES)->Some_0 is Uint,
        find_res(apply_inits(rs, inits), MAP_RES) is Some ==> find_res(
            apply_inits(rs, inits),
            MAP_RES,
        )->Some_0 is Terrain,
        all_free(apply_inits(rs, inits)),
    decreases inits.len(),
{
    if inits.len() > 0 {
        let e = inits[0];
        let rs2 = apply_init(rs, e);
        if ok_for_id(e.id, e.val) {
            lemma_set_res_frame(rs, e.id, e.val, CLOCK_RES);
            lemma_set_res_frame(rs, e.id, e.val, MAP_RES);
            assert(all_free(rs2)) by {
                crate::resources::lemma_find_res_idx(rs, e.id);
                assert(forall|i: int|
                    0 <= i < rs2.len() ==> !(#[trigger] rs2[i]).borrowed);
            }
        }
        lemma_apply_inits_wf(rs2, inits.drop_first());
    }
}

/// The resource store a fresh world starts from, before init entries run:
/// the clock at zero and an empty terrain grid.
pub open spec fn base_resources() -> Seq<ResEntryModel> {
    seq![
        ResEntryModel { id: CLOCK_RES, val: ResValModel::Uint(0), borrowed: false },
        ResEntryModel { id: MAP_RES, val: ResValModel::Terrain(Seq::empty()), borrowed: false },
    ]
}

/// The world `new` builds: empty entity store, tick zero, and the resource
/// store after the base resources, the init entries in order, and the
/// generated terrain.
pub open spec fn new_world_model(size: int, regs: RegistriesModel) -> WorldModel {
    WorldModel {
        slots: Seq::empty(),
        resources: set_res(
            apply_inits(base_resources(), regs.inits),
            MAP_RES,
            ResValModel::Terrain(terrain_grid(size)),
        ),
        tick: 0,
    }
}


/// The world model `new` builds is well-formed, with every resource
/// checked in.
pub proof fn lemma_new_world_model_wf(regs: RegistriesModel)
    ensures
        wf_world(new_world_model(0, regs)),
        all_free(new_world_model(0, regs).resources),
{
    lemma_new_world_model_wf_sized(0, regs);
}

/// The same, for any size.
pub proof fn lemma_new_world_model_wf_sized(size: int, regs: RegistriesModel)
    ensures
        wf_world(new_world_model(size, regs)),
        all_free(new_world_model(size, regs).resources),
{
    let b = base_resources();
    crate::resources::lemma_find_res_idx_unique(b, CLOCK_RES, 0);
    crate::resources::lemma_find_res_idx_unique(b, MAP_RES, 1);
    lemma_apply_inits_wf(b, regs.inits);
    let r1 = apply_inits(b, regs.inits);
    let tv = ResValModel::Terrain(terrain_grid(size));
    lemma_set_res_frame(r1, MAP_RES, tv, CLOCK_RES);
    lemma_set_res_frame(r1, MAP_RES, tv, MAP_RES);
    let r2 = set_res(r1, MAP_RES, tv);
    assert(all_free(r2)) by {
        crate::resources::lemma_find_res_idx(r1, MAP_RES);
        assert(forall|i: int| 0 <= i < r2.len() ==> !(#[trigger] r2[i]).borrowed);
    }
}

/// The simulation world.
pub struct Egregoria {
    pub world: World,
    pub resources: Resources,
    pub tick: u32,
}

impl View for Egregoria {
    type V = WorldModel;

    open spec fn view(&self) -> WorldModel {
        WorldModel { slots: self.world@, resources: self.resources@, tick: self.tick }
    }
}

impl Egregoria {
    /// Constructs a world: empty stores, the clock at zero, every registered
    /// init entry applied in registration order, then the terrain grid
    /// generated as a square of chunks, deterministically from the size.
    #[verifier::loop_isolation(false)]
    pub fn new(size: i32, regs: &Registries) -> (r: Egregoria)
        requires
            0 <= size <= 0x1000,
        ensures
            r@ == new_world_model(size as int, regs@),
            wf_world(r@),
            all_free(r@.resources),
    {
        let mut goria = Egregoria {
            world: World::new(),
            resources: Resources::new(),
            tick: 0,
        };
        proof {
            crate::resources::lemma_find_res_idx_none(goria.resources@, CLOCK_RES);
        }
        goria.resources.insert(CLOCK_RES, ResVal::Uint(0));
        let ghost after_clock = goria.resources@;
        proof {
            crate::resources::lemma_find_res_idx_none(after_clock, MAP_RES);
        }
        goria.resources.insert(MAP_RES, ResVal::Terrain(Vec::new()));
        proof {
            assert(goria.resources@ =~~= base_resources());
            crate::resources::lemma_find_res_idx_unique(base_resources(), CLOCK_RES, 0);
            crate::resources::lemma_find_res_idx_unique(base_resources(), MAP_RES, 1);
        }

        let n = regs.inits.len();
        let mut k: usize = 0;
        while k < n
            invariant
                0 <= k <= n,
                n == regs@.inits.len(),
                goria.resources@ == apply_inits(base_resources(), regs@.inits.take(k as int)),
                wf_res(goria.resources@),
                all_free(goria.resources@),
                find_res(goria.resources@, CLOCK_RES) is Some,
                find_res(goria.resources@, CLOCK_RES)->Some_0 is Uint,
                find_res(goria.resources@, MAP_RES) is Some ==> find_res(
                    goria.resources@,
                    MAP_RES,
                )->Some_0 is Terrain,
                goria.world@ =~= Seq::<SlotModel>::empty(),
                goria.tick == 0,
            decreases n - k,
        {
            let ghost pre = goria.resources@;
            let e = &regs.inits[k];
            let id = e.id;
            let val = e.val.duplicate();
            let ok = match (&val, id == CLOCK_RES, id == MAP_RES) {
                (ResVal::Uint(_), _, false) => true,
                (_, false, false) => true,
                (ResVal::Terrain(_), false, _) => true,
                _ => false,
            };
            proof {
                assert(ok == ok_for_id(id, val@));
            }
            if ok {
                proof {
                    crate::resources::lemma_find_res_idx(pre, id);
                }
                goria.resources.insert(id, val);
                proof {
                    lemma_set_res_frame(pre, id, val@, CLOCK_RES);
                    lemma_set_res_frame(pre, id, val@, MAP_RES);
                    assert(all_free(goria.resources@)) by {
                        assert(forall|i: int|
                            0 <= i < goria.resources@.len()
                                ==> !(#[trigger] goria.resources@[i]).borrowed);
                    }
                }
            }
            proof {
                assert(regs@.inits.take(k + 1).drop_last() =~= regs@.inits.take(k as int));
                assert(regs@.inits.take(k + 1).last() == regs@.inits[k as int]);
                assert(regs@.inits.take(k + 1) =~= regs@.inits.take(k as int).push(
                    regs@.inits[k as int],
                ));
                lemma_apply_inits_snoc(base_resources(), regs@.inits.take(k as int), regs@.inits[k as int]);
                assert(goria.resources@ == apply_init(pre, regs@.inits[k as int]));
            }
            k = k + 1;
        }
        proof {
            assert(regs@.inits.take(n as int) =~= regs@.inits);
        }

        // Generate the terrain: a (2*size-1) x (2*size-1) square of chunks,
        // row-major, centred on the origin.
        let mut chunks: Vec<(i32, i32)> = Vec::new();
        if size > 0 {
            let w: usize = (2 * (size as usize)) - 1;
            let mut r: usize = 0;
            while r < w
                invariant
                    0 <= r <= w,
                    w == 2 * size - 1,
                    1 <= size <= 0x1000,
                    chunks@ == terrain_rows(size as int, r as int),
                decreases w - r,
            {
                let y: i32 = 1 - size + (r as i32);
                let mut c: usize = 0;
                while c < w
                    invariant
                        0 <= c <= w,
                        w == 2 * size - 1,
                        1 <= size <= 0x1000,
                        y == 1 - size + r,
                        r < w,
                        chunks@ == terrain_rows(size as int, r as int) + terrain_row(
                            size as int,
                            y as int,
                        ).take(c as int),
                    decreases w - c,
                {
                    let x: i32 = 1 - size + (c as i32);
                    proof {
                        assert(terrain_row(size as int, y as int)[c as int] == (x, y));
                        assert((terrain_rows(size as int, r as int) + terrain_row(
                            size as int,
                            y as int,
                        ).take(c as int)).push((x, y)) =~= terrain_rows(size as int, r as int)
                            + terrain_row(size as int, y as int).take(c + 1));
                    }
                    chunks.push((x, y));
                    c = c + 1;
                }
                proof {
                    assert(terrain_row(size as int, y as int).take(w as int) =~= terrain_row(
                        size as int,
                        y as int,
                    ));
                    assert(terrain_rows(size as int, r + 1) == terrain_rows(size as int, r as int)
                        + terrain_row(size as int, y as int));
                }
                r = r + 1;
            }
        }
        proof {
            assert(chunks@ == terrain_grid(size as int));
            crate::resources::lemma_find_res_idx(goria.resources@, MAP_RES);
        }
        let ghost pre_map = goria.resources@;
        goria.resources.insert(MAP_RES, ResVal::Terrain(chunks));
        proof {
            lemma_set_res_frame(pre_map, MAP_RES, ResValModel::Terrain(chunks@), CLOCK_RES);
            lemma_set_res_frame(pre_map, MAP_RES, ResValModel::Terrain(chunks@), MAP_RES);
            assert(goria@ =~~= new_world_model(size as int, regs@));
            assert(all_free(goria.resources@)) by {
                assert(forall|i: int|
                    0 <= i < goria.resources@.len()
                        ==> !(#[trigger] goria.resources@[i]).borrowed);
            }
        }
        goria
    }

    /// Advances the world by one step: the simulated clock moves by a fixed
    /// step, then the whole queued command batch is applied in order, then
    /// every scheduled system runs once, in order — so a command of this
    /// batch is visible to every system of the same tick — and the tick
    /// counter grows by exactly one: it never decreases and never skips.
    pub fn tick<S: crate::system::System>(
        &mut self,
        game_schedule: &mut crate::system::SeqSchedule<S>,
        commands: &crate::commands::WorldCommands,
    )
        requires
            wf_world(old(self)@),
            all_free(old(self)@.resources),
            old(self)@.tick < 0xFFFF_FFFFu32,
            clock_of(old(self)@) <= 0xFFFF_FFFF_FFFF_FFFFu64 - CLOCK_STEP_MS,
        ensures
            wf_world(final(self)@),
            all_free(final(self)@.resources),
            final(self)@.tick == old(self)@.tick + 1,
            final(self)@ == (WorldModel {
                tick: (old(self)@.tick + 1) as u32,
                ..crate::system::sched_model(
                    old(game_schedule).systems@,
                    crate::commands::apply_commands_model(
                        advance_clock(old(self)@),
                        commands@,
                    ),
                )
            }),
            final(game_schedule).systems@.len() == old(game_schedule).systems@.len(),
            forall|i: int, m: WorldModel|
                0 <= i < old(game_schedule).systems@.len()
                    ==> #[trigger] final(game_schedule).systems@[i].model(m) == old(
                    game_schedule,
                ).systems@[i].model(m),
    {
        let ghost o = self@;
        proof {
            crate::resources::lemma_find_res_idx(o.resources, CLOCK_RES);
        }
        let c = self.read(CLOCK_RES);
        let v = match c {
            ResVal::Uint(v) => v,
            _ => {
                proof {
                    assert(false);
                }
                vstd::pervasive::unreached()
            },
        };
        proof {
            crate::resources::lemma_find_res_idx(o.resources, CLOCK_RES);
        }
        self.insert(CLOCK_RES, ResVal::Uint(v + CLOCK_STEP_MS));
        proof {
            assert(self@ =~~= advance_clock(o));
            assert(all_free(self@.resources)) by {
                assert(forall|i: int|
                    0 <= i < self@.resources.len()
                        ==> !(#[trigger] self@.resources[i]).borrowed);
            }
        }
        crate::commands::apply_all(self, commands);
        game_schedule.execute(self);
        self.tick = self.tick + 1;
        proof {
            assert(final(self)@ =~~= WorldModel {
                tick: (o.tick + 1) as u32,
                ..crate::system::sched_model(
                    old(game_schedule).systems@,
                    crate::commands::apply_commands_model(advance_clock(o), commands@),
                )
            });
        }
    }

    /// Read-only access to the entity/component store.
    pub fn world(&self) -> (r: &World)
        ensures
            r@ == self@.slots,
    {
        &self.world
    }

    /// The tick counter: how many simulation steps this world has run.
    pub fn get_tick(&self) -> (r: u32)
        ensures
            r == self@.tick,
    {
        self.tick
    }

    /// Stores or overwrites the singleton resource `id`.
    pub fn insert(&mut self, id: u64, val: ResVal)
        requires
            wf_world(old(self)@),
            ok_for_id(id, val@),
            !res_borrowed(old(self)@.resources, id),
        ensures
            wf_world(final(self)@),
            final(self)@ == (WorldModel {
                resources: set_res(old(self)@.resources, id, val@),
                ..old(self)@
            }),
    {
        proof {
            lemma_set_res_frame(self@.resources, id, val@, CLOCK_RES);
            lemma_set_res_frame(self@.resources, id, val@, MAP_RES);
        }
        self.resources.insert(id, val);
        proof {
            assert(self@ =~~= WorldModel {
                resources: set_res(old(self)@.resources, id, val@),
                ..old(self)@
            });
        }
    }

    /// A shared read of resource `id`: a copy of the stored value. The
    /// resource must be installed and not checked out; a missing resource
    /// is a missing init hook, which callers must rule out.
    pub fn read(&self, id: u64) -> (r: ResVal)
        requires
            find_res(self@.resources, id) is Some,
            !res_borrowed(self@.resources, id),
        ensures
            r@ == find_res(self@.resources, id)->Some_0,
    {
        self.resources.read(id)
    }

    /// Begins an exclusive borrow of resource `id`, rejecting it (with
    /// `None`) when the resource is absent or already exclusively borrowed —
    /// two exclusive borrows of the same resource never coexist.
    pub fn try_write(&mut self, id: u64) -> (r: Option<ResVal>)
        ensures
            r is Some <==> find_res(old(self)@.resources, id) is Some && !res_borrowed(
                old(self)@.resources,
                id,
            ),
            r matches Some(v) ==> (v@ == find_res(old(self)@.resources, id)->Some_0
                && final(self)@ == (WorldModel {
                resources: crate::resources::mark_borrowed(old(self)@.resources, id),
                ..old(self)@
            })),
            r is None ==> final(self)@ == old(self)@,
    {
        let r = self.resources.try_write(id);
        proof {
            if r is Some {
                assert(self@ =~~= WorldModel {
                    resources: crate::resources::mark_borrowed(old(self)@.resources, id),
                    ..old(self)@
                });
            } else {
                assert(self@ =~~= old(self)@);
            }
        }
        r
    }

    /// Begins an exclusive borrow the caller has shown to be available.
    pub fn write(&mut self, id: u64) -> (r: ResVal)
        requires
            find_res(old(self)@.resources, id) is Some,
            !res_borrowed(old(self)@.resources, id),
        ensures
            r@ == find_res(old(self)@.resources, id)->Some_0,
            final(self)@ == (WorldModel {
                resources: crate::resources::mark_borrowed(old(self)@.resources, id),
                ..old(self)@
            }),
    {
        let r = self.resources.write(id);
        proof {
            assert(self@ =~~= WorldModel {
                resources: crate::resources::mark_borrowed(old(self)@.resources, id),
                ..old(self)@
            });
        }
        r
    }

    /// Begins an exclusive borrow of `id`, first installing `default` if the
    /// resource is absent.
    pub fn write_or_default(&mut self, id: u64, default: ResVal) -> (r: ResVal)
        requires
            ok_for_id(id, default@),
            !res_borrowed(old(self)@.resources, id),
        ensures
            r@ == if find_res(old(self)@.resources, id) is Some {
                find_res(old(self)@.resources, id)->Some_0
            } else {
                default@
            },
            final(self)@ == (WorldModel {
                resources: crate::resources::mark_borrowed(
                    set_res(old(self)@.resources, id, r@),
                    id,
                ),
                ..old(self)@
            }),
    {
        let r = self.resources.write_or_default(id, default);
        proof {
            assert(self@ =~~= WorldModel {
                resources: crate::resources::mark_borrowed(
                    set_res(old(self)@.resources, id, r@),
                    id,
                ),
                ..old(self)@
            });
        }
        r
    }

    /// Ends an exclusive borrow, storing the (possibly updated) value back.
    pub fn end_write(&mut self, id: u64, val: ResVal)
        requires
            res_borrowed(old(self)@.resources, id),
            ok_for_id(id, val@),
        ensures
            final(self)@ == (WorldModel {
                resources: crate::resources::check_in(old(self)@.resources, id, val@),
                ..old(self)@
            }),
    {
        self.resources.end_write(id, val);
        proof {
            assert(self@ =~~= WorldModel {
                resources: crate::resources::check_in(old(self)@.resources, id, val@),
                ..old(self)@
            });
        }
    }

    /// The terrain grid (the map resource): the generated chunk
    /// coordinates.
    pub fn map(&self) -> (r: Vec<(i32, i32)>)
        requires
            wf_world(self@),
            find_res(self@.resources, MAP_RES) is Some,
            !res_borrowed(self@.resources, MAP_RES),
        ensures
            find_res(self@.resources, MAP_RES)->Some_0 == ResValModel::Terrain(r@),
    {
        match self.read(MAP_RES) {
            ResVal::Terrain(c) => c,
            _ => {
                proof {
                    assert(false);
                }
                vstd::pervasive::unreached()
            },
        }
    }

    /// Creates a fresh entity with no components.
    pub fn spawn(&mut self) -> (e: Entity)
        requires
            wf_world(old(self)@),
            old(self)@.slots.len() < 0xFFFF_FFFFu32,
        ensures
            wf_world(final(self)@),
            live(final(self)@.slots, e),
            !live(old(self)@.slots, e),
            final(self)@.resources == old(self)@.resources,
            final(self)@.tick == old(self)@.tick,
    {
        self.world.spawn()
    }

    /// Attaches component `tag` to `e` (or replaces it). Dropped, returning
    /// `false`, when `e` is no longer live.
    pub fn add_comp(&mut self, e: Entity, tag: u64, data: Vec<u8>) -> (ok: bool)
        requires
            wf_world(old(self)@),
        ensures
            wf_world(final(self)@),
            ok == live(old(self)@.slots, e),
            !ok ==> final(self)@ == old(self)@,
            ok ==> final(self)@ == (WorldModel {
                slots: old(self)@.slots.update(
                    e.index as int,
                    SlotModel {
                        comps: set_comp(old(self)@.slots[e.index as int].comps, tag, data@),
                        ..old(self)@.slots[e.index as int]
                    },
                ),
                ..old(self)@
            }),
    {
        let ok = self.world.insert(e, tag, data);
        proof {
            if ok {
                assert(self@ =~~= WorldModel {
                    slots: old(self)@.slots.update(
                        e.index as int,
                        SlotModel {
                            comps: set_comp(old(self)@.slots[e.index as int].comps, tag, data@),
                            ..old(self)@.slots[e.index as int]
                        },
                    ),
                    ..old(self)@
                });
            } else {
                assert(self@ =~~= old(self)@);
            }
        }
        ok
    }

    /// The payload of the component attached to `e` under `tag`, if any.
    pub fn comp(&self, e: Entity, tag: u64) -> (r: Option<Vec<u8>>)
        ensures
            r is Some <==> live(self@.slots, e) && find_comp(
                self@.slots[e.index as int].comps,
                tag,
            ) is Some,
            r matches Some(d) ==> d@ == find_comp(self@.slots[e.index as int].comps, tag)->Some_0,
    {
        self.world.get(e, tag)
    }

    /// Despawns `e`: all its components are removed and the handle becomes
    /// detectably invalid, never aliasing a later entity.
    pub fn despawn(&mut self, e: Entity)
        requires
            wf_world(old(self)@),
        ensures
            wf_world(final(self)@),
            !live(final(self)@.slots, e),
            final(self)@.resources == old(self)@.resources,
            final(self)@.tick == old(self)@.tick,
    {
        self.world.despawn(e);
    }
}

} // verus!
