//! External commands: the ordered batch of world mutations the outside
//! layer queues up, applied once per tick, before any system runs.

use vstd::prelude::*;

use crate::entity::Entity;
use crate::resources::{
    all_free, lemma_set_res_frame, res_borrowed, set_res, ResVal, ResValModel,
};
use crate::store::{despawned_slot, live, remove_comp, set_comp, SlotModel};
use crate::world::{ok_for_id, wf_world, Egregoria, WorldModel};

verus! {

/// One opaque action against the mutable world.
pub enum WorldCommand {
    /// Attach (or replace) a component; dropped if the entity is gone.
    AddComp { e: Entity, tag: u64, data: Vec<u8> },
    /// Detach a component, if attached.
    RemoveComp { e: Entity, tag: u64 },
    /// Despawn an entity.
    Despawn { e: Entity },
    /// Store or overwrite a singleton resource; dropped if the resource is
    /// checked out or the value does not fit a reserved id.
    SetResource { id: u64, val: ResVal },
}

/// The mathematical value of a command.
#[verifier::ext_equal]
pub enum WorldCommandModel {
    AddComp { e: Entity, tag: u64, data: Seq<u8> },
    RemoveComp { e: Entity, tag: u64 },
    Despawn { e: Entity },
    SetResource { id: u64, val: ResValModel },
}

impl View for WorldCommand {
    type V = WorldCommandModel;

    open spec fn view(&self) -> WorldCommandModel {
        match self {
            WorldCommand::AddComp { e, tag, data } => WorldCommandModel::AddComp {
                e: *e,
                tag: *tag,
                data: data@,
            },
            WorldCommand::RemoveComp { e, tag } => WorldCommandModel::RemoveComp {
                e: *e,
                tag: *tag,
            },
            WorldCommand::Despawn { e } => WorldCommandModel::Despawn { e: *e },
            WorldCommand::SetResource { id, val } => WorldCommandModel::SetResource {
                id: *id,
                val: val@,
            },
        }
    }
}

/// What one command does to the world.
pub open spec fn apply_command_model(w: WorldModel, c: WorldCommandModel) -> WorldModel {
    match c {
        WorldCommandModel::AddComp { e, tag, data } => if live(w.slots, e) {
            WorldModel {
                slots: w.slots.update(
                    e.index as int,
                    SlotModel {
                        comps: set_comp(w.slots[e.index as int].comps, tag, data),
                        ..w.slots[e.index as int]
                    },
                ),
                ..w
            }
        } else {
            w
        },
        WorldCommandModel::RemoveComp { e, tag } => if live(w.slots, e) {
            WorldModel {
                slots: w.slots.update(
                    e.index as int,
                    SlotModel {
                        comps: remove_comp(w.slots[e.index as int].comps, tag),
                        ..w.slots[e.index as int]
                    },
                ),
                ..w
            }
        } else {
            w
        },
        WorldCommandModel::Despawn { e } => if live(w.slots, e) {
            WorldModel {
                slots: w.slots.update(e.index as int, despawned_slot(w.slots[e.index as int])),
                ..w
            }
        } else {
            w
        },
        WorldCommandModel::SetResource { id, val } => if ok_for_id(id, val) && !res_borrowed(
            w.resources,
            id,
        ) {
            WorldModel { resources: set_res(w.resources, id, val), ..w }
        } else {
            w
        },
    }
}

/// What a whole batch does, applied in queue order.
pub open spec fn apply_commands_model(w: WorldModel, cs: Seq<WorldCommandModel>) -> WorldModel
    decreases cs.len(),
{
    if cs.len() == 0 {
        w
    } else {
        apply_commands_model(apply_command_model(w, cs[0]), cs.drop_first())
    }
}

/// Appending one more command to a run of applications.
pub proof fn lemma_apply_commands_snoc(
    w: WorldModel,
    cs: Seq<WorldCommandModel>,
    c: WorldCommandModel,
)
    ensures
        apply_commands_model(w, cs.push(c)) == apply_command_model(apply_commands_model(w, cs), c),
    decreases cs.len(),
{
    let s1 = cs.push(c);
    if cs.len() == 0 {
        assert(s1.drop_first() =~= Seq::<WorldCommandModel>::empty());
        assert(s1[0] == c);
        assert(apply_commands_model(w, s1) == apply_commands_model(
            apply_command_model(w, c),
            s1.drop_first(),
        ));
        assert(apply_commands_model(apply_command_model(w, c), s1.drop_first())
            == apply_command_model(w, c));
        assert(apply_commands_model(w, cs) == w);
    } else {
        assert(s1[0] == cs[0]);
        assert(s1.drop_first() =~= cs.drop_first().push(c));
        lemma_apply_commands_snoc(apply_command_model(w, cs[0]), cs.drop_first(), c);
        assert(apply_commands_model(w, s1) == apply_commands_model(
            apply_command_model(w, s1[0]),
            s1.drop_first(),
        ));
        assert(apply_commands_model(w, cs) == apply_commands_model(
            apply_command_model(w, cs[0]),
            cs.drop_first(),
        ));
    }
}

/// The ordered command queue handed to `tick`.
pub struct WorldCommands {
    pub commands: Vec<WorldCommand>,
}

impl View for WorldCommands {
    type V = Seq<WorldCommandModel>;

    open spec fn view(&self) -> Seq<WorldCommandModel> {
        self.commands@.map_values(|c: WorldCommand| c@)
    }
}

impl WorldCommands {
    /// An empty batch.
    pub fn new() -> (r: WorldCommands)
        ensures
            r@ =~= Seq::<WorldCommandModel>::empty(),
    {
        WorldCommands { commands: Vec::new() }
    }

    /// Queues one more command.
    pub fn push(&mut self, c: WorldCommand)
        ensures
            final(self)@ =~= old(self)@.push(c@),
    {
        self.commands.push(c);
    }
}

/// Applies one command against the world.
pub fn apply(goria: &mut Egregoria, cmd: &WorldCommand) -> (applied: bool)
    requires
        wf_world(old(goria)@),
    ensures
        wf_world(final(goria)@),
        final(goria)@ == apply_command_model(old(goria)@, cmd@),
        all_free(old(goria)@.resources) ==> all_free(final(goria)@.resources),
    {
    match cmd {
        WorldCommand::AddComp { e, tag, data } => {
            let mut copy: Vec<u8> = Vec::new();
            let n = data.len();
            let mut k: usize = 0;
            #[verifier::loop_isolation(false)]
            while k < n
                invariant
                    0 <= k <= n,
                    n == data@.len(),
                    copy@ =~= data@.take(k as int),
                decreases n - k,
            {
                proof {
                    assert(data@.take(k as int).push(data@[k as int]) =~= data@.take(k + 1));
                }
                copy.push(data[k]);
                k = k + 1;
            }
            proof {
                assert(data@.take(n as int) =~= data@);
            }
            let ok = goria.add_comp(*e, *tag, copy);
            proof {
                assert(goria@ =~~= apply_command_model(old(goria)@, cmd@));
            }
            ok
        },
        WorldCommand::RemoveComp { e, tag } => {
            let was_live = goria.world.contains(*e);
            goria.world.remove(*e, *tag);
            proof {
                if was_live {
                    assert(goria@ =~~= apply_command_model(old(goria)@, cmd@));
                } else {
                    assert(goria@ =~~= apply_command_model(old(goria)@, cmd@));
                }
            }
            was_live
        },
        WorldCommand::Despawn { e } => {
            let was_live = goria.world.contains(*e);
            goria.world.despawn(*e);
            proof {
                assert(goria@ =~~= apply_command_model(old(goria)@, cmd@));
            }
            was_live
        },
        WorldCommand::SetResource { id, val } => {
            let kind_ok = match (val, *id == crate::world::CLOCK_RES, *id
                == crate::world::MAP_RES) {
                (ResVal::Uint(_), _, false) => true,
                (_, false, false) => true,
                (ResVal::Terrain(_), false, _) => true,
                _ => false,
            };
            proof {
                assert(kind_ok == ok_for_id(*id, val@));
            }
            if kind_ok && !goria.resources.is_borrowed(*id) {
                let ghost pre = goria.resources@;
                goria.resources.insert(*id, val.duplicate());
                proof {
                    lemma_set_res_frame(pre, *id, val@, crate::world::CLOCK_RES);
                    lemma_set_res_frame(pre, *id, val@, crate::world::MAP_RES);
                    assert(goria@ =~~= apply_command_model(old(goria)@, cmd@));
                    if all_free(pre) {
                        crate::resources::lemma_find_res_idx(pre, *id);
                        assert(forall|i: int|
                            0 <= i < goria.resources@.len()
                                ==> !(#[trigger] goria.resources@[i]).borrowed);
                    }
                }
                true
            } else {
                proof {
                    assert(goria@ =~~= apply_command_model(old(goria)@, cmd@));
                }
                false
            }
        },
    }
}

/// Applies a whole batch, in queue order, before anything else may run.
#[verifier::loop_isolation(false)]
pub fn apply_all(goria: &mut Egregoria, cmds: &WorldCommands)
    requires
        wf_world(old(goria)@),
    ensures
        wf_world(final(goria)@),
        final(goria)@ == apply_commands_model(old(goria)@, cmds@),
        final(goria)@.tick == old(goria)@.tick,
        all_free(old(goria)@.resources) ==> all_free(final(goria)@.resources),
{
    let n = cmds.commands.len();
    let mut k: usize = 0;
    while k < n
        invariant
            0 <= k <= n,
            n == cmds@.len(),
            wf_world(goria@),
            goria@ == apply_commands_model(old(goria)@, cmds@.take(k as int)),
            goria@.tick == old(goria)@.tick,
            all_free(old(goria)@.resources) ==> all_free(goria@.resources),
        decreases n - k,
    {
        let ghost pre = goria@;
        apply(goria, &cmds.commands[k]);
        proof {
            assert(cmds@.take(k + 1) =~= cmds@.take(k as int).push(cmds@[k as int]));
            lemma_apply_commands_snoc(old(goria)@, cmds@.take(k as int), cmds@[k as int]);
        }
        k = k + 1;
    }
    proof {
        assert(cmds@.take(n as int) =~= cmds@);
    }
}

} // verus!
