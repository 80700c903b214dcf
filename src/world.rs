use vstd::prelude::*;
use crate::components::{Lifetime, SceneHandle, Tower, Transform};

verus! {

/// Identifier of a simulation object.
#[derive(Clone, Copy, Debug, PartialEq, Eq, Structural)]
pub struct Entity {
    pub id: u64,
}

/// The components that a new entity starts with.
#[derive(Clone, Copy, Debug, PartialEq, Eq, Structural)]
pub struct Spawn {
    pub transform: Transform,
    pub scene: Option<SceneHandle>,
    pub tower: Option<Tower>,
    pub lifetime: Option<Lifetime>,
}

/// One live entity with its optional components and optional parent.
#[derive(Clone, Copy, Debug, PartialEq, Eq, Structural)]
pub struct EntityRecord {
    pub entity: Entity,
    pub parent: Option<Entity>,
    pub transform: Transform,
    pub scene: Option<SceneHandle>,
    pub tower: Option<Tower>,
    pub lifetime: Option<Lifetime>,
}

/// Creations and destructions requested during a tick, applied by `commit`.
#[derive(Debug)]
pub struct Commands {
    pub spawns: Vec<Spawn>,
    pub despawns: Vec<Entity>,
}

/// The entity store: live records in increasing id order.
#[derive(Debug)]
pub struct World {
    pub next_id: u64,
    pub records: Vec<EntityRecord>,
}

impl Spawn {
    pub open spec fn wf(self) -> bool {
        &&& (self.tower matches Some(t) ==> t.wf())
        &&& (self.lifetime matches Some(l) ==> l.wf())
    }

    pub open spec fn record(self, id: u64, parent: Option<Entity>) -> EntityRecord {
        EntityRecord {
            entity: Entity { id },
            parent,
            transform: self.transform,
            scene: self.scene,
            tower: self.tower,
            lifetime: self.lifetime,
        }
    }
}

impl EntityRecord {
    pub open spec fn wf(self) -> bool {
        &&& (self.parent matches Some(p) ==> p.id < self.entity.id)
        &&& (self.tower matches Some(t) ==> t.wf())
        &&& (self.lifetime matches Some(l) ==> l.wf())
    }
}

/// Records in strictly increasing id order, each well formed, each below `next_id`.
pub open spec fn records_wf(s: Seq<EntityRecord>, next_id: u64) -> bool {
    &&& forall|i: int, j: int|
        0 <= i < j < s.len() ==> #[trigger] s[i].entity.id < #[trigger] s[j].entity.id
    &&& forall|i: int| 0 <= i < s.len() ==> (#[trigger] s[i]).wf() && s[i].entity.id < next_id
}

/// The parent recorded for `e` in `s`, if `e` is there and has one.
pub open spec fn parent_of(s: Seq<EntityRecord>, e: Entity) -> Option<Entity> {
    if exists|j: int| 0 <= j < s.len() && (#[trigger] s[j]).entity == e {
        s[choose|j: int| 0 <= j < s.len() && (#[trigger] s[j]).entity == e].parent
    } else {
        None
    }
}

/// `e` is destroyed when `roots` are: it is one of them, or its parent is destroyed.
pub open spec fn doomed(s: Seq<EntityRecord>, roots: Seq<Entity>, e: Entity) -> bool
    decreases e.id,
{
    if roots.contains(e) {
        true
    } else {
        match parent_of(s, e) {
            Some(p) => if p.id < e.id {
                doomed(s, roots, p)
            } else {
                false
            },
            None => false,
        }
    }
}

/// The records of `part` that survive destroying `roots` in the store `all`, in order.
pub open spec fn survivors(part: Seq<EntityRecord>, all: Seq<EntityRecord>, roots: Seq<Entity>) -> Seq<EntityRecord>
    decreases part.len(),
{
    if part.len() == 0 {
        part
    } else {
        let kept = survivors(part.drop_last(), all, roots);
        if doomed(all, roots, part.last().entity) {
            kept
        } else {
            kept.push(part.last())
        }
    }
}

/// The records that spawning `spawns` creates, numbered from `next_id`.
pub open spec fn spawned(next_id: nat, spawns: Seq<Spawn>) -> Seq<EntityRecord> {
    Seq::new(spawns.len(), |i: int| spawns[i].record((next_id + i) as u64, None))
}

/// In a store with unique ids, the parent recorded at index `i` is the parent of its entity.
pub proof fn lemma_parent_of_index(s: Seq<EntityRecord>, next_id: u64, i: int)
    requires
        records_wf(s, next_id),
        0 <= i < s.len(),
    ensures
        parent_of(s, s[i].entity) == s[i].parent,
{
    let e = s[i].entity;
    assert(s[i].entity == e);
    let j = choose|j: int| 0 <= j < s.len() && (#[trigger] s[j]).entity == e;
    if j < i {
        assert(s[j].entity.id < s[i].entity.id);
    } else if j > i {
        assert(s[i].entity.id < s[j].entity.id);
    }
}

/// A well-formed store holds each entity at most once.
pub proof fn lemma_entity_unique(s: Seq<EntityRecord>, next_id: u64, i: int, j: int)
    requires
        records_wf(s, next_id),
        0 <= i < s.len(),
        0 <= j < s.len(),
        s[i].entity == s[j].entity,
    ensures
        i == j,
{
    if i < j {
        assert(s[i].entity.id < s[j].entity.id);
    } else if j < i {
        assert(s[j].entity.id < s[i].entity.id);
    }
}

/// A record of `part` whose entity is not destroyed is among the survivors.
pub proof fn lemma_survivor_kept(part: Seq<EntityRecord>, all: Seq<EntityRecord>, roots: Seq<Entity>, x: EntityRecord)
    requires
        part.contains(x),
        !doomed(all, roots, x.entity),
    ensures
        survivors(part, all, roots).contains(x),
    decreases part.len(),
{
    if part.last() == x {
        assert(survivors(part, all, roots).last() == x);
    } else {
        let k = choose|k: int| 0 <= k < part.len() && part[k] == x;
        assert(part.drop_last()[k] == x);
        lemma_survivor_kept(part.drop_last(), all, roots, x);
        let kept = survivors(part.drop_last(), all, roots);
        let g = choose|g: int| 0 <= g < kept.len() && kept[g] == x;
        if !doomed(all, roots, part.last().entity) {
            assert(kept.push(part.last())[g] == x);
        }
    }
}

/// Requesting the same destruction more than once changes nothing.
pub proof fn lemma_repeated_despawn(s: Seq<EntityRecord>, roots: Seq<Entity>, e: Entity, part: Seq<EntityRecord>)
    requires
        roots.contains(e),
    ensures
        survivors(part, s, roots.push(e)) == survivors(part, s, roots),
    decreases part.len(),
{
    assert forall|y: Entity| roots.push(e).contains(y) == roots.contains(y) by {
        if roots.push(e).contains(y) {
            let k = choose|k: int| 0 <= k < roots.len() + 1 && roots.push(e)[k] == y;
            if k < roots.len() {
                assert(roots[k] == y);
            }
        }
        if roots.contains(y) {
            let k = choose|k: int| 0 <= k < roots.len() && roots[k] == y;
            assert(roots.push(e)[k] == y);
        }
    }
    assert forall|x: Entity| doomed(s, roots.push(e), x) == doomed(s, roots, x) by {
        lemma_doomed_same_roots(s, roots.push(e), roots, x);
    }
    if part.len() > 0 {
        lemma_repeated_despawn(s, roots, e, part.drop_last());
    }
}

proof fn lemma_doomed_same_roots(s: Seq<EntityRecord>, r1: Seq<Entity>, r2: Seq<Entity>, x: Entity)
    requires
        forall|y: Entity| r1.contains(y) == r2.contains(y),
    ensures
        doomed(s, r1, x) == doomed(s, r2, x),
    decreases x.id,
{
    if let Some(p) = parent_of(s, x) {
        if p.id < x.id {
            lemma_doomed_same_roots(s, r1, r2, p);
        }
    }
}

fn contains_entity(v: &Vec<Entity>, e: Entity) -> (r: bool)
    ensures
        r == v@.contains(e),
{
    let mut i: usize = 0;
    while i < v.len()
        invariant
            i <= v.len(),
            forall|j: int| 0 <= j < i ==> v@[j] != e,
        decreases v.len() - i,
    {
        if v[i] == e {
            assert(v@[i as int] == e);
            return true;
        }
        i = i + 1;
    }
    false
}

impl World {
    pub open spec fn wf(self) -> bool {
        records_wf(self.records@, self.next_id)
    }

    pub open spec fn has(self, e: Entity) -> bool {
        exists|i: int| 0 <= i < self.records@.len() && (#[trigger] self.records@[i]).entity == e
    }

    /// An empty store.
    pub fn new() -> (w: World)
        ensures
            w.wf(),
            w.next_id == 0,
            w.records@.len() == 0,
    {
        World { next_id: 0, records: Vec::new() }
    }

    /// Creates an entity at once, optionally attached beneath an earlier one.
    pub fn spawn(&mut self, parts: Spawn, parent: Option<Entity>) -> (e: Entity)
        requires
            old(self).wf(),
            parts.wf(),
            old(self).next_id < u64::MAX,
            parent matches Some(p) ==> p.id < old(self).next_id,
        ensures
            final(self).wf(),
            e.id == old(self).next_id,
            final(self).next_id == old(self).next_id + 1,
            final(self).records@ == old(self).records@.push(parts.record(e.id, parent)),
    {
        let id = self.next_id;
        let rec = EntityRecord {
            entity: Entity { id },
            parent,
            transform: parts.transform,
            scene: parts.scene,
            tower: parts.tower,
            lifetime: parts.lifetime,
        };
        self.records.push(rec);
        self.next_id = id + 1;
        Entity { id }
    }

    /// Whether `e` is live.
    pub fn contains(&self, e: Entity) -> (r: bool)
        ensures
            r == self.has(e),
    {
        let mut i: usize = 0;
        while i < self.records.len()
            invariant
                i <= self.records@.len(),
                forall|j: int| 0 <= j < i ==> self.records@[j].entity != e,
            decreases self.records@.len() - i,
        {
            if self.records[i].entity == e {
                assert(self.records@[i as int].entity == e);
                return true;
            }
            i = i + 1;
        }
        false
    }

    /// Number of live entities.
    pub fn len(&self) -> (r: usize)
        ensures
            r == self.records@.len(),
    {
        self.records.len()
    }

    /// Applies a tick's requests: first every creation, numbered in order,
    /// then every destruction together with everything attached beneath it.
    /// Duplicate or stale destruction requests are harmless.
    pub fn commit(&mut self, cmds: Commands)
        requires
            old(self).wf(),
            old(self).next_id + cmds.spawns@.len() <= u64::MAX,
            forall|i: int| 0 <= i < cmds.spawns@.len() ==> (#[trigger] cmds.spawns@[i]).wf(),
        ensures
            final(self).wf(),
            final(self).next_id == old(self).next_id + cmds.spawns@.len(),
            ({
                let all = old(self).records@ + spawned(old(self).next_id as nat, cmds.spawns@);
                final(self).records@ == survivors(all, all, cmds.despawns@)
            }),
            forall|e: Entity| #[trigger] cmds.despawns@.contains(e) ==> !final(self).has(e),
    {
        let ghost start = self.next_id as nat;
        let mut i: usize = 0;
        while i < cmds.spawns.len()
            invariant
                i <= cmds.spawns@.len(),
                self.next_id == start + i,
                start + cmds.spawns@.len() <= u64::MAX,
                forall|k: int| 0 <= k < cmds.spawns@.len() ==> (#[trigger] cmds.spawns@[k]).wf(),
                self.wf(),
                self.records@ == old(self).records@ + spawned(start, cmds.spawns@.take(i as int)),
            decreases cmds.spawns@.len() - i,
        {
            let parts = cmds.spawns[i];
            self.spawn(parts, None);
            assert(spawned(start, cmds.spawns@.take(i + 1)) =~= spawned(start, cmds.spawns@.take(i as int)).push(
                parts.record((start + i) as u64, None),
            ));
            i = i + 1;
        }
        assert(cmds.spawns@.take(i as int) =~= cmds.spawns@);
        let ghost all = self.records@;
        let ghost roots = cmds.despawns@;
        let mut gone: Vec<Entity> = Vec::new();
        let mut j: usize = 0;
        while j < cmds.despawns.len()
            invariant
                j <= roots.len(),
                roots == cmds.despawns@,
                gone@ == roots.take(j as int),
            decreases roots.len() - j,
        {
            gone.push(cmds.despawns[j]);
            assert(roots.take(j + 1) =~= roots.take(j as int).push(roots[j as int]));
            j = j + 1;
        }
        assert(roots.take(j as int) =~= roots);
        let mut kept: Vec<EntityRecord> = Vec::new();
        let mut n: usize = 0;
        while n < self.records.len()
            invariant
                self.records@ == all,
                records_wf(all, self.next_id),
                n <= all.len(),
                kept@ == survivors(all.take(n as int), all, roots),
                forall|x: Entity| #[trigger] gone@.contains(x) <==> (roots.contains(x) || exists|k: int|
                    0 <= k < n && (#[trigger] all[k]).entity == x && doomed(all, roots, x)),
                forall|a: int| #![trigger kept@[a]] 0 <= a < kept@.len() ==> exists|k: int| 0 <= k < n && kept@[a] == #[trigger] all[k],
                forall|a: int| 0 <= a < kept@.len() ==> !doomed(all, roots, (#[trigger] kept@[a]).entity),
                records_wf(kept@, self.next_id),
            decreases all.len() - n,
        {
            let rec = self.records[n];
            proof {
                lemma_parent_of_index(all, self.next_id, n as int);
                assert(rec == all[n as int]);
                if let Some(p) = rec.parent {
                    if !exists|k: int| 0 <= k < n && (#[trigger] all[k]).entity == p {
                        assert forall|k: int| 0 <= k < all.len() implies (#[trigger] all[k]).entity != p by {
                            if k >= n && k != n {
                                assert(all[n as int].entity.id < all[k].entity.id);
                            }
                        }
                        assert(parent_of(all, p) == None::<Entity>);
                    }
                    assert(doomed(all, roots, p) == gone@.contains(p));
                }
            }
            let mut is_doomed = contains_entity(&gone, rec.entity);
            if !is_doomed {
                if let Some(p) = rec.parent {
                    is_doomed = contains_entity(&gone, p);
                }
            }
            proof {
                assert(all.take(n + 1).drop_last() =~= all.take(n as int));
                assert(all.take(n + 1).last() == rec);
                if gone@.contains(rec.entity) && !roots.contains(rec.entity) {
                    let k = choose|k: int| 0 <= k < n && (#[trigger] all[k]).entity == rec.entity && doomed(all, roots, rec.entity);
                    assert(all[k].entity.id < all[n as int].entity.id);
                }
                assert(is_doomed == doomed(all, roots, rec.entity));
            }
            if is_doomed {
                let ghost before = gone@;
                gone.push(rec.entity);
                proof {
                    assert forall|x: Entity| #[trigger] gone@.contains(x) <==> (roots.contains(x) || exists|k: int|
                        0 <= k < n + 1 && (#[trigger] all[k]).entity == x && doomed(all, roots, x)) by {
                        if gone@.contains(x) {
                            let g = choose|g: int| 0 <= g < gone@.len() && gone@[g] == x;
                            if g < before.len() {
                                assert(before[g] == x);
                                assert(before.contains(x));
                            } else {
                                assert(all[n as int].entity == x);
                            }
                        }
                        if roots.contains(x) || exists|k: int|
                            0 <= k < n && (#[trigger] all[k]).entity == x && doomed(all, roots, x) {
                            assert(before.contains(x));
                            let g = choose|g: int| 0 <= g < before.len() && before[g] == x;
                            assert(gone@[g] == x);
                        }
                        if exists|k: int| 0 <= k < n + 1 && (#[trigger] all[k]).entity == x && doomed(all, roots, x) {
                            let k = choose|k: int| 0 <= k < n + 1 && (#[trigger] all[k]).entity == x && doomed(all, roots, x);
                            if k == n {
                                assert(gone@[gone@.len() - 1] == x);
                            }
                        }
                    }
                }
            } else {
                kept.push(rec);
                proof {
                    assert forall|a: int| #![trigger kept@[a]] 0 <= a < kept@.len() implies exists|k: int| 0 <= k < n + 1 && kept@[a] == #[trigger] all[k] by {
                        if a == kept@.len() - 1 {
                            assert(kept@[a] == all[n as int]);
                        } else {
                            assert(kept@[a] == kept@.drop_last()[a]);
                        }
                    }
                    assert forall|a: int, b: int| 0 <= a < b < kept@.len() implies #[trigger] kept@[a].entity.id < #[trigger] kept@[b].entity.id by {
                        if b == kept@.len() - 1 {
                            assert(kept@.drop_last()[a] == kept@[a]);
                            let k = choose|k: int| 0 <= k < n && kept@.drop_last()[a] == #[trigger] all[k];
                            assert(all[k].entity.id < all[n as int].entity.id);
                        } else {
                            assert(kept@.drop_last()[a] == kept@[a]);
                            assert(kept@.drop_last()[b] == kept@[b]);
                        }
                    }
                }
            }
            n = n + 1;
        }
        assert(all.take(n as int) =~= all);
        self.records = kept;
        proof {
            assert forall|e: Entity| #[trigger] cmds.despawns@.contains(e) implies !self.has(e) by {
                if self.has(e) {
                    let a = choose|a: int| 0 <= a < self.records@.len() && (#[trigger] self.records@[a]).entity == e;
                    assert(!doomed(all, roots, self.records@[a].entity));
                }
            }
        }
    }
}

} // verus!
