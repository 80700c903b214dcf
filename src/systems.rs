use vstd::prelude::*;
use crate::components::{GameAssets, Lifetime, SceneHandle, Tower, Transform};
use crate::timer::{ConfigError, Timer, TimerMode};
use crate::world::{
    doomed, lemma_survivor_kept, parent_of, records_wf, spawned, survivors, Commands, Entity, EntityRecord,
    Spawn, World,
};

verus! {

/// Default interval between tower shots: one second.
pub const TOWER_FIRE_INTERVAL_NS: u64 = 1_000_000_000;

/// Default projectile lifetime: half a second.
pub const PROJECTILE_LIFETIME_NS: u64 = 500_000_000;

/// Where a projectile appears, relative to the scene origin.
pub const SPAWN_X_MM: i64 = 0;
pub const SPAWN_Y_MM: i64 = 700;
pub const SPAWN_Z_MM: i64 = 600;
/// A quarter turn clockwise about the vertical axis.
pub const SPAWN_YAW_MILLIDEG: i64 = -90_000;

/// Tuning options: tower fire interval and projectile lifetime, in nanoseconds.
#[derive(Clone, Copy, Debug, PartialEq, Eq, Structural)]
pub struct Tuning {
    pub tower_fire_interval: u64,
    pub projectile_lifetime: u64,
}

impl Tuning {
    pub open spec fn wf(self) -> bool {
        self.tower_fire_interval > 0 && self.projectile_lifetime > 0
    }

    /// Checks both durations; a zero duration is a configuration error.
    pub fn new(tower_fire_interval: u64, projectile_lifetime: u64) -> (r: Result<Tuning, ConfigError>)
        ensures
            (tower_fire_interval == 0 || projectile_lifetime == 0) <==> r == Err::<Tuning, ConfigError>(
                ConfigError::NonPositiveDuration,
            ),
            r matches Ok(t) ==> t == (Tuning { tower_fire_interval, projectile_lifetime }) && t.wf(),
    {
        if tower_fire_interval == 0 || projectile_lifetime == 0 {
            Err(ConfigError::NonPositiveDuration)
        } else {
            Ok(Tuning { tower_fire_interval, projectile_lifetime })
        }
    }

    /// One second between shots, half a second of projectile life.
    pub fn standard() -> (r: Tuning)
        ensures
            r.tower_fire_interval == TOWER_FIRE_INTERVAL_NS,
            r.projectile_lifetime == PROJECTILE_LIFETIME_NS,
            r.wf(),
    {
        Tuning { tower_fire_interval: TOWER_FIRE_INTERVAL_NS, projectile_lifetime: PROJECTILE_LIFETIME_NS }
    }

    /// The components of a tower at `transform`, with a fresh fire timer.
    pub fn tower_at(&self, transform: Transform) -> (r: Spawn)
        requires
            self.wf(),
        ensures
            r == (Spawn {
                transform,
                scene: None,
                tower: Some(Tower { shooting_timer: Timer::fresh(self.tower_fire_interval, TimerMode::Repeating) }),
                lifetime: None,
            }),
            r.wf(),
    {
        let shooting_timer = Timer {
            duration: self.tower_fire_interval,
            elapsed: 0,
            mode: TimerMode::Repeating,
            just_completed: false,
        };
        Spawn { transform, scene: None, tower: Some(Tower { shooting_timer }), lifetime: None }
    }
}

/// The pose given to every new projectile.
pub open spec fn spawn_transform() -> Transform {
    Transform { x_mm: SPAWN_X_MM, y_mm: SPAWN_Y_MM, z_mm: SPAWN_Z_MM, yaw_millideg: SPAWN_YAW_MILLIDEG }
}

/// A projectile showing `scene` that lives for `lifetime` nanoseconds.
pub open spec fn projectile(scene: SceneHandle, lifetime: u64) -> Spawn {
    Spawn {
        transform: spawn_transform(),
        scene: Some(scene),
        tower: None,
        lifetime: Some(Lifetime { timer: Timer::fresh(lifetime, TimerMode::Once) }),
    }
}

/// The record with its tower's timer advanced by `delta`.
pub open spec fn tower_ticked(r: EntityRecord, delta: nat) -> EntityRecord {
    match r.tower {
        Some(t) => EntityRecord { tower: Some(Tower { shooting_timer: t.shooting_timer.ticked(delta) }), ..r },
        None => r,
    }
}

/// The record with its lifetime's timer advanced by `delta`.
pub open spec fn lifetime_ticked(r: EntityRecord, delta: nat) -> EntityRecord {
    match r.lifetime {
        Some(l) => EntityRecord { lifetime: Some(Lifetime { timer: l.timer.ticked(delta) }), ..r },
        None => r,
    }
}

/// The projectiles fired by the towers among `s` on a tick of `delta`; none
/// while the projectile scene is not loaded.
pub open spec fn fired(s: Seq<EntityRecord>, assets: GameAssets, tuning: Tuning, delta: nat) -> Seq<Spawn>
    decreases s.len(),
{
    if s.len() == 0 {
        Seq::empty()
    } else {
        let before = fired(s.drop_last(), assets, tuning, delta);
        match (s.last().tower, assets.bullet_scene) {
            (Some(t), Some(h)) => if t.shooting_timer.ticked(delta).just_completed {
                before.push(projectile(h, tuning.projectile_lifetime))
            } else {
                before
            },
            _ => before,
        }
    }
}

/// The entities among `s` whose lifetime ends on a tick of `delta`.
pub open spec fn expired(s: Seq<EntityRecord>, delta: nat) -> Seq<Entity>
    decreases s.len(),
{
    if s.len() == 0 {
        Seq::empty()
    } else {
        let before = expired(s.drop_last(), delta);
        match s.last().lifetime {
            Some(l) => if l.timer.ticked(delta).just_completed {
                before.push(s.last().entity)
            } else {
                before
            },
            None => before,
        }
    }
}

/// At most one projectile per record.
pub proof fn lemma_fired_len(s: Seq<EntityRecord>, assets: GameAssets, tuning: Tuning, delta: nat)
    requires
        tuning.wf(),
    ensures
        fired(s, assets, tuning, delta).len() <= s.len(),
        forall|i: int| 0 <= i < fired(s, assets, tuning, delta).len() ==> (#[trigger] fired(s, assets, tuning, delta)[i]).wf(),
    decreases s.len(),
{
    if s.len() > 0 {
        lemma_fired_len(s.drop_last(), assets, tuning, delta);
    }
}

fn new_projectile(scene: SceneHandle, lifetime: u64) -> (r: Spawn)
    requires
        lifetime > 0,
    ensures
        r == projectile(scene, lifetime),
        r.wf(),
{
    let timer = Timer { duration: lifetime, elapsed: 0, mode: TimerMode::Once, just_completed: false };
    Spawn {
        transform: Transform { x_mm: SPAWN_X_MM, y_mm: SPAWN_Y_MM, z_mm: SPAWN_Z_MM, yaw_millideg: SPAWN_YAW_MILLIDEG },
        scene: Some(scene),
        tower: None,
        lifetime: Some(Lifetime { timer }),
    }
}

/// Advances every tower's fire timer by `delta` and queues a projectile for
/// each tower whose timer completed, provided the projectile scene is loaded.
pub fn tower_shooting(world: &mut World, assets: &GameAssets, tuning: &Tuning, delta: u64, cmds: &mut Commands)
    requires
        old(world).wf(),
        tuning.wf(),
    ensures
        final(world).wf(),
        final(world).next_id == old(world).next_id,
        final(world).records@ == towers_ticked(old(world).records@, delta as nat),
        final(cmds).spawns@ == old(cmds).spawns@ + fired(old(world).records@, *assets, *tuning, delta as nat),
        final(cmds).despawns@ == old(cmds).despawns@,
{
    let ghost start = world.records@;
    let ghost start_spawns = cmds.spawns@;
    let mut i: usize = 0;
    while i < world.records.len()
        invariant
            world.next_id == old(world).next_id,
            start == old(world).records@,
            world.records@.len() == start.len(),
            i <= start.len(),
            tuning.wf(),
            forall|k: int| 0 <= k < i ==> world.records@[k] == tower_ticked(#[trigger] start[k], delta as nat),
            forall|k: int| i <= k < start.len() ==> world.records@[k] == #[trigger] start[k],
            records_wf(start, world.next_id),
            cmds.spawns@ == start_spawns + fired(start.take(i as int), *assets, *tuning, delta as nat),
            cmds.despawns@ == old(cmds).despawns@,
        decreases start.len() - i,
    {
        let mut rec = world.records[i];
        proof {
            assert(start.take(i + 1).drop_last() =~= start.take(i as int));
            assert(start.take(i + 1).last() == start[i as int]);
            assert(start[i as int].wf());
        }
        if let Some(mut tower) = rec.tower {
            tower.shooting_timer.tick(delta);
            rec.tower = Some(tower);
            if tower.shooting_timer.just_finished() {
                if let Some(h) = assets.bullet_scene {
                    let p = new_projectile(h, tuning.projectile_lifetime);
                    cmds.spawns.push(p);
                }
            }
        }
        world.records.set(i, rec);
        i = i + 1;
    }
    proof {
        assert(start.take(i as int) =~= start);
        assert(world.records@ =~= start.map_values(|r: EntityRecord| tower_ticked(r, delta as nat)));
        assert forall|a: int, b: int| 0 <= a < b < world.records@.len() implies
            #[trigger] world.records@[a].entity.id < #[trigger] world.records@[b].entity.id by {
            assert(world.records@[a].entity == start[a].entity);
            assert(world.records@[b].entity == start[b].entity);
        }
        assert forall|a: int| 0 <= a < world.records@.len() implies (#[trigger] world.records@[a]).wf()
            && world.records@[a].entity.id < world.next_id by {
            assert(start[a].wf());
        }
    }
}

/// Advances every lifetime timer by `delta` and queues each entity whose
/// lifetime ended for destruction.
pub fn bullet_despawn(world: &mut World, delta: u64, cmds: &mut Commands)
    requires
        old(world).wf(),
    ensures
        final(world).wf(),
        final(world).next_id == old(world).next_id,
        final(world).records@ == old(world).records@.map_values(|r: EntityRecord| lifetime_ticked(r, delta as nat)),
        final(cmds).despawns@ == old(cmds).despawns@ + expired(old(world).records@, delta as nat),
        final(cmds).spawns@ == old(cmds).spawns@,
{
    let ghost start = world.records@;
    let ghost start_despawns = cmds.despawns@;
    let mut i: usize = 0;
    while i < world.records.len()
        invariant
            world.next_id == old(world).next_id,
            start == old(world).records@,
            world.records@.len() == start.len(),
            i <= start.len(),
            forall|k: int| 0 <= k < i ==> world.records@[k] == lifetime_ticked(#[trigger] start[k], delta as nat),
            forall|k: int| i <= k < start.len() ==> world.records@[k] == #[trigger] start[k],
            records_wf(start, world.next_id),
            cmds.despawns@ == start_despawns + expired(start.take(i as int), delta as nat),
            cmds.spawns@ == old(cmds).spawns@,
        decreases start.len() - i,
    {
        let mut rec = world.records[i];
        proof {
            assert(start.take(i + 1).drop_last() =~= start.take(i as int));
            assert(start.take(i + 1).last() == start[i as int]);
            assert(start[i as int].wf());
        }
        if let Some(mut lifetime) = rec.lifetime {
            lifetime.timer.tick(delta);
            rec.lifetime = Some(lifetime);
            if lifetime.timer.just_finished() {
                cmds.despawns.push(rec.entity);
            }
        }
        world.records.set(i, rec);
        i = i + 1;
    }
    proof {
        assert(start.take(i as int) =~= start);
        assert(world.records@ =~= start.map_values(|r: EntityRecord| lifetime_ticked(r, delta as nat)));
        assert forall|a: int, b: int| 0 <= a < b < world.records@.len() implies
            #[trigger] world.records@[a].entity.id < #[trigger] world.records@[b].entity.id by {
            assert(world.records@[a].entity == start[a].entity);
            assert(world.records@[b].entity == start[b].entity);
        }
        assert forall|a: int| 0 <= a < world.records@.len() implies (#[trigger] world.records@[a]).wf()
            && world.records@[a].entity.id < world.next_id by {
            assert(start[a].wf());
        }
    }
}

/// Every tower's timer advanced by `delta`.
pub open spec fn towers_ticked(records: Seq<EntityRecord>, delta: nat) -> Seq<EntityRecord> {
    records.map_values(|r: EntityRecord| tower_ticked(r, delta))
}

/// The records that one update leaves, from `records` numbered up to
/// `next_id`: towers fire, lifetimes run down, then the new projectiles are
/// added and the expired entities removed with everything beneath them.
pub open spec fn updated(
    records: Seq<EntityRecord>,
    next_id: u64,
    assets: GameAssets,
    tuning: Tuning,
    delta: nat,
) -> Seq<EntityRecord> {
    let towers_done = towers_ticked(records, delta);
    let lifetimes_done = towers_done.map_values(|r: EntityRecord| lifetime_ticked(r, delta));
    let all = lifetimes_done + spawned(next_id as nat, fired(records, assets, tuning, delta));
    survivors(all, all, expired(towers_done, delta))
}

/// One simulation tick of `delta` nanoseconds: the tower system, then the
/// lifetime system, then the commit of their requests.
pub fn update(world: &mut World, assets: &GameAssets, tuning: &Tuning, delta: u64)
    requires
        old(world).wf(),
        tuning.wf(),
        old(world).next_id + old(world).records@.len() <= u64::MAX,
    ensures
        final(world).wf(),
        final(world).records@ == updated(old(world).records@, old(world).next_id, *assets, *tuning, delta as nat),
        final(world).next_id == old(world).next_id + fired(old(world).records@, *assets, *tuning, delta as nat).len(),
        forall|e: Entity| #[trigger] expired(towers_ticked(old(world).records@, delta as nat), delta as nat).contains(e)
            ==> !final(world).has(e),
{
    let mut cmds = Commands { spawns: Vec::new(), despawns: Vec::new() };
    tower_shooting(world, assets, tuning, delta, &mut cmds);
    bullet_despawn(world, delta, &mut cmds);
    proof {
        lemma_fired_len(old(world).records@, *assets, *tuning, delta as nat);
        assert(cmds.spawns@ =~= fired(old(world).records@, *assets, *tuning, delta as nat));
        assert(cmds.despawns@ =~= expired(towers_ticked(old(world).records@, delta as nat), delta as nat));
    }
    world.commit(cmds);
}

/// Every entity whose lifetime ends is one of the records ticked.
pub proof fn lemma_expired_from(s: Seq<EntityRecord>, delta: nat, e: Entity)
    requires
        expired(s, delta).contains(e),
    ensures
        exists|i: int| 0 <= i < s.len() && (#[trigger] s[i]).entity == e,
    decreases s.len(),
{
    let before = expired(s.drop_last(), delta);
    if before.contains(e) {
        lemma_expired_from(s.drop_last(), delta, e);
        let i = choose|i: int| 0 <= i < s.len() - 1 && (#[trigger] s.drop_last()[i]).entity == e;
        assert(s[i].entity == e);
    } else {
        assert(s[s.len() - 1].entity == e);
    }
}

/// Towers fire before lifetimes are checked: every projectile fired during
/// an update is still present when the update ends.
pub proof fn lemma_new_projectiles_survive(
    w: World,
    assets: GameAssets,
    tuning: Tuning,
    delta: nat,
    k: int,
)
    requires
        w.wf(),
        tuning.wf(),
        w.next_id + w.records@.len() <= u64::MAX,
        0 <= k < fired(w.records@, assets, tuning, delta).len(),
    ensures
        updated(w.records@, w.next_id, assets, tuning, delta).contains(
            spawned(w.next_id as nat, fired(w.records@, assets, tuning, delta))[k],
        ),
{
    let s = w.records@;
    let shots = fired(s, assets, tuning, delta);
    lemma_fired_len(s, assets, tuning, delta);
    let towers_done = towers_ticked(s, delta);
    let lifetimes_done = towers_done.map_values(|r: EntityRecord| lifetime_ticked(r, delta));
    let fresh = spawned(w.next_id as nat, shots);
    let all = lifetimes_done + fresh;
    let roots = expired(towers_done, delta);
    let x = fresh[k];
    assert(x.entity.id == w.next_id + k);
    if roots.contains(x.entity) {
        lemma_expired_from(towers_done, delta, x.entity);
        let i = choose|i: int| 0 <= i < towers_done.len() && (#[trigger] towers_done[i]).entity == x.entity;
        assert(towers_done[i].entity == s[i].entity);
        assert(s[i].entity.id < w.next_id);
    }
    assert forall|j: int| 0 <= j < all.len() && (#[trigger] all[j]).entity == x.entity implies all[j].parent
        == None::<Entity> by {
        if j < lifetimes_done.len() {
            assert(all[j].entity == s[j].entity);
            assert(s[j].entity.id < w.next_id);
        } else {
            assert(all[j] == fresh[j - lifetimes_done.len()]);
        }
    }
    assert(all[lifetimes_done.len() + k] == x);
    assert(parent_of(all, x.entity) == None::<Entity>);
    assert(!doomed(all, roots, x.entity));
    assert(all.contains(x));
    lemma_survivor_kept(all, all, roots, x);
}

} // verus!
