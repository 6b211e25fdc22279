//! The tick loop: counter monotonicity, command-before-systems ordering,
//! and the terrain a fresh world generates.

use egregoria::commands::{WorldCommand, WorldCommands};
use egregoria::entity::Entity;
use egregoria::registry::Registries;
use egregoria::resources::ResVal;
use egregoria::system::{CounterSystem, SeqSchedule, System};
use egregoria::world::{Egregoria, CLOCK_RES, CLOCK_STEP_MS};

const COUNTER: u64 = 100;

fn counter_of(goria: &Egregoria) -> u64 {
    match goria.read(COUNTER) {
        ResVal::Uint(v) => v,
        _ => panic!("counter resource is not a counter"),
    }
}

#[test]
fn three_ticks_increment_counter_and_tick() {
    // a world with no terrain, one init hook installing a counter at zero,
    // and one system incrementing it
    let mut regs = Registries::new();
    regs.register_init(COUNTER, ResVal::Uint(0));
    let mut goria = Egregoria::new(0, &regs);
    let mut schedule: SeqSchedule<CounterSystem> = SeqSchedule::new();
    schedule.add_system(CounterSystem { res_id: COUNTER });
    let commands = WorldCommands::new();
    assert_eq!(goria.get_tick(), 0);
    assert_eq!(counter_of(&goria), 0);
    goria.tick(&mut schedule, &commands);
    goria.tick(&mut schedule, &commands);
    goria.tick(&mut schedule, &commands);
    assert_eq!(counter_of(&goria), 3);
    assert_eq!(goria.get_tick(), 3);
    assert!(matches!(goria.read(CLOCK_RES), ResVal::Uint(v) if v == 3 * CLOCK_STEP_MS));
}

#[test]
fn tick_increases_by_exactly_one_per_call() {
    let regs = Registries::new();
    let mut goria = Egregoria::new(0, &regs);
    let mut schedule: SeqSchedule<CounterSystem> = SeqSchedule::new();
    let commands = WorldCommands::new();
    let mut last = goria.get_tick();
    for _ in 0..5 {
        goria.tick(&mut schedule, &commands);
        let now = goria.get_tick();
        assert_eq!(now, last + 1);
        last = now;
    }
}

/// A probe: copies the first byte of one component into a counter
/// resource, so a test can see what the system observed.
struct ProbeSystem {
    e: Entity,
    tag: u64,
    out: u64,
}

impl System for ProbeSystem {
    fn model(&self, w: egregoria::world::WorldModel) -> egregoria::world::WorldModel {
        w
    }

    fn run(&mut self, goria: &mut Egregoria) {
        if let Some(d) = goria.comp(self.e, self.tag) {
            goria.insert(self.out, ResVal::Uint(d[0] as u64));
        }
    }
}

#[test]
fn commands_apply_before_systems_run() {
    let mut regs = Registries::new();
    regs.register_init(COUNTER, ResVal::Uint(0));
    let mut goria = Egregoria::new(0, &regs);
    let e = goria.spawn();
    assert!(goria.add_comp(e, 1, vec![5]));
    let mut schedule: SeqSchedule<ProbeSystem> = SeqSchedule::new();
    schedule.add_system(ProbeSystem { e, tag: 1, out: COUNTER });
    // the command replaces the component in the same tick the probe reads it
    let mut commands = WorldCommands::new();
    commands.push(WorldCommand::AddComp { e, tag: 1, data: vec![42] });
    goria.tick(&mut schedule, &commands);
    // the probe saw the commanded value, never the pre-command one
    assert_eq!(counter_of(&goria), 42);
    assert_eq!(goria.comp(e, 1), Some(vec![42]));
}

#[test]
fn despawn_command_drops_later_component_inserts() {
    let regs = Registries::new();
    let mut goria = Egregoria::new(0, &regs);
    let e = goria.spawn();
    let mut schedule: SeqSchedule<CounterSystem> = SeqSchedule::new();
    let mut commands = WorldCommands::new();
    commands.push(WorldCommand::Despawn { e });
    commands.push(WorldCommand::AddComp { e, tag: 1, data: vec![1] });
    goria.tick(&mut schedule, &commands);
    assert!(!goria.world().contains(e));
    assert_eq!(goria.comp(e, 1), None);
}

#[test]
fn fresh_world_terrain_is_a_row_major_square() {
    let regs = Registries::new();
    let goria = Egregoria::new(2, &regs);
    let chunks = goria.map();
    assert_eq!(
        chunks,
        vec![
            (-1, -1),
            (0, -1),
            (1, -1),
            (-1, 0),
            (0, 0),
            (1, 0),
            (-1, 1),
            (0, 1),
            (1, 1),
        ]
    );
    let empty = Egregoria::new(0, &regs);
    assert_eq!(empty.map(), Vec::<(i32, i32)>::new());
}
