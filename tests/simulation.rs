use rusty_towers::components::{GameAssets, SceneHandle, Transform};
use rusty_towers::systems::{
    bullet_despawn, tower_shooting, update, Tuning, PROJECTILE_LIFETIME_NS, SPAWN_YAW_MILLIDEG,
    TOWER_FIRE_INTERVAL_NS,
};
use rusty_towers::timer::{ConfigError, Timer, TimerMode};
use rusty_towers::world::{Commands, Entity, Spawn, World};
use rusty_towers::components::Lifetime;

fn ms(n: u64) -> u64 {
    n * 1_000_000
}

fn origin() -> Transform {
    Transform { x_mm: 0, y_mm: 500, z_mm: 0, yaw_millideg: 0 }
}

fn loaded() -> GameAssets {
    GameAssets { bullet_scene: Some(SceneHandle { id: 7 }) }
}

fn projectile_count(w: &World) -> usize {
    w.records.iter().filter(|r| r.lifetime.is_some()).count()
}

fn tower_world(tuning: &Tuning) -> (World, Entity) {
    let mut w = World::new();
    let e = w.spawn(tuning.tower_at(origin()), None);
    (w, e)
}

fn bullet(lifetime: u64) -> Spawn {
    Spawn {
        transform: origin(),
        scene: Some(SceneHandle { id: 1 }),
        tower: None,
        lifetime: Some(Lifetime { timer: Timer::new(lifetime, TimerMode::Once).unwrap() }),
    }
}

#[test]
fn tuning_defaults_and_validation() {
    let t = Tuning::standard();
    assert_eq!(t.tower_fire_interval, TOWER_FIRE_INTERVAL_NS);
    assert_eq!(t.projectile_lifetime, PROJECTILE_LIFETIME_NS);
    assert_eq!(TOWER_FIRE_INTERVAL_NS, 1_000_000_000);
    assert_eq!(PROJECTILE_LIFETIME_NS, 500_000_000);
    assert_eq!(Tuning::new(0, 5), Err(ConfigError::NonPositiveDuration));
    assert_eq!(Tuning::new(5, 0), Err(ConfigError::NonPositiveDuration));
    assert_eq!(Tuning::new(5, 6), Ok(Tuning { tower_fire_interval: 5, projectile_lifetime: 6 }));
}

#[test]
fn tower_fires_on_third_tick() {
    let tuning = Tuning::standard();
    let (mut w, _) = tower_world(&tuning);
    let assets = loaded();
    update(&mut w, &assets, &tuning, ms(400));
    assert_eq!(projectile_count(&w), 0);
    update(&mut w, &assets, &tuning, ms(400));
    assert_eq!(projectile_count(&w), 0);
    update(&mut w, &assets, &tuning, ms(400));
    assert_eq!(projectile_count(&w), 1);
    let p = w.records.iter().find(|r| r.lifetime.is_some()).unwrap();
    assert_eq!(p.scene, Some(SceneHandle { id: 7 }));
    assert_eq!(p.transform, Transform { x_mm: 0, y_mm: 700, z_mm: 600, yaw_millideg: SPAWN_YAW_MILLIDEG });
    assert_eq!(SPAWN_YAW_MILLIDEG, -90_000);
    assert_eq!(p.lifetime.unwrap().timer, Timer::new(ms(500), TimerMode::Once).unwrap());
}

#[test]
fn tower_shooting_queues_projectile() {
    let tuning = Tuning::standard();
    let (mut w, _) = tower_world(&tuning);
    let mut cmds = Commands { spawns: Vec::new(), despawns: Vec::new() };
    tower_shooting(&mut w, &loaded(), &tuning, ms(999), &mut cmds);
    assert!(cmds.spawns.is_empty());
    tower_shooting(&mut w, &loaded(), &tuning, ms(1), &mut cmds);
    assert_eq!(cmds.spawns.len(), 1);
    assert_eq!(w.len(), 1);
    assert_eq!(w.records[0].tower.unwrap().shooting_timer.elapsed, 0);
}

#[test]
fn unloaded_asset_skips_firing() {
    let tuning = Tuning::standard();
    let (mut w, _) = tower_world(&tuning);
    let none = GameAssets { bullet_scene: None };
    update(&mut w, &none, &tuning, ms(1000));
    assert_eq!(projectile_count(&w), 0);
    update(&mut w, &loaded(), &tuning, ms(1000));
    assert_eq!(projectile_count(&w), 1);
}

#[test]
fn projectile_expires_after_lifetime() {
    let tuning = Tuning::standard();
    let mut w = World::new();
    let b = w.spawn(bullet(ms(500)), None);
    update(&mut w, &loaded(), &tuning, ms(300));
    assert!(w.contains(b));
    update(&mut w, &loaded(), &tuning, ms(300));
    assert!(!w.contains(b));
    assert_eq!(w.len(), 0);
}

#[test]
fn bullet_despawn_queues_expired() {
    let mut w = World::new();
    let b = w.spawn(bullet(ms(500)), None);
    let mut cmds = Commands { spawns: Vec::new(), despawns: Vec::new() };
    bullet_despawn(&mut w, ms(300), &mut cmds);
    assert!(cmds.despawns.is_empty());
    bullet_despawn(&mut w, ms(300), &mut cmds);
    assert_eq!(cmds.despawns, vec![b]);
}

#[test]
fn duplicate_despawn_removes_once() {
    let mut w = World::new();
    let a = w.spawn(bullet(ms(500)), None);
    let b = w.spawn(bullet(ms(500)), None);
    assert_eq!(w.records.iter().filter(|r| r.entity == a).count(), 1);
    let cmds = Commands { spawns: Vec::new(), despawns: vec![a, a, a] };
    w.commit(cmds);
    assert_eq!(w.records.iter().filter(|r| r.entity == a).count(), 0);
    assert!(w.contains(b));
    assert_eq!(w.len(), 1);
    let stale = Commands { spawns: Vec::new(), despawns: vec![a] };
    w.commit(stale);
    assert_eq!(w.len(), 1);
}

#[test]
fn expiry_and_external_despawn_in_same_tick() {
    let tuning = Tuning::standard();
    let mut w = World::new();
    let b = w.spawn(bullet(ms(500)), None);
    let mut cmds = Commands { spawns: Vec::new(), despawns: vec![b] };
    bullet_despawn(&mut w, ms(500), &mut cmds);
    assert_eq!(cmds.despawns, vec![b, b]);
    tower_shooting(&mut w, &loaded(), &tuning, ms(500), &mut cmds);
    w.commit(cmds);
    assert!(!w.contains(b));
    assert_eq!(w.len(), 0);
}

#[test]
fn despawn_cascades_to_descendants() {
    let mut w = World::new();
    let root = w.spawn(bullet(ms(500)), None);
    let child = w.spawn(bullet(ms(5000)), Some(root));
    let grandchild = w.spawn(bullet(ms(5000)), Some(child));
    let other = w.spawn(bullet(ms(5000)), None);
    let cmds = Commands { spawns: Vec::new(), despawns: vec![root] };
    w.commit(cmds);
    assert!(!w.contains(root));
    assert!(!w.contains(child));
    assert!(!w.contains(grandchild));
    assert!(w.contains(other));
    assert_eq!(w.len(), 1);
}

#[test]
fn commit_numbers_new_entities_in_order() {
    let mut w = World::new();
    let first = w.spawn(bullet(ms(500)), None);
    assert_eq!(first, Entity { id: 0 });
    let cmds = Commands { spawns: vec![bullet(ms(500)), bullet(ms(600))], despawns: vec![first] };
    w.commit(cmds);
    assert_eq!(w.next_id, 3);
    assert_eq!(w.len(), 2);
    assert_eq!(w.records[0].entity, Entity { id: 1 });
    assert_eq!(w.records[1].entity, Entity { id: 2 });
    assert_eq!(w.records[1].lifetime.unwrap().timer.duration, ms(600));
}

#[test]
fn new_projectile_not_expired_on_spawn_tick() {
    let tuning = Tuning::new(ms(100), ms(100)).unwrap();
    let (mut w, _) = tower_world(&tuning);
    update(&mut w, &loaded(), &tuning, ms(100));
    assert_eq!(projectile_count(&w), 1);
    let p = w.records.iter().find(|r| r.lifetime.is_some()).unwrap();
    assert_eq!(p.lifetime.unwrap().timer.elapsed, 0);
}

#[test]
fn end_to_end_two_projectiles() {
    let tuning = Tuning::standard();
    let (mut w, tower) = tower_world(&tuning);
    let assets = loaded();
    let mut spawned: Vec<Entity> = Vec::new();
    for _ in 0..12 {
        update(&mut w, &assets, &tuning, ms(200));
        for r in &w.records {
            if r.lifetime.is_some() && !spawned.contains(&r.entity) {
                spawned.push(r.entity);
            }
        }
    }
    // t = 2.4 s: both shots fired, the first already gone, the second alive.
    assert_eq!(spawned.len(), 2);
    assert!(!w.contains(spawned[0]));
    assert!(w.contains(spawned[1]));
    assert!(w.contains(tower));
    // t = 2.6 s: the second has had 0.6 s of life and expires on this tick.
    update(&mut w, &assets, &tuning, ms(200));
    assert_eq!(projectile_count(&w), 0);
    assert!(w.contains(tower));
    assert_eq!(w.next_id, 3);
}
