//! Lightweight entity component system.
//!
//! Entities are plain `u32` ids handed out in order. Each component kind has
//! its own table of `(entity, component)` entries, kept in first-insertion
//! order with at most one entry per entity. Systems are plain functions that
//! borrow the world.

use vstd::prelude::*;
use crate::components::Collected;
use crate::components::Collider;
use crate::components::GridMotion;
use crate::components::ObjectKind;
use crate::components::Player;
use crate::components::Position;
use crate::components::Sprite;
use crate::components::Treat;

verus! {

/// Identifier for an entity.
#[derive(Clone, Copy, Debug, PartialEq, Eq, Hash, Structural)]
pub struct Entity(pub u32);

/// Whether a table holds an entry for `e`.
pub open spec fn has_key<T>(s: Seq<(Entity, T)>, e: Entity) -> bool {
    exists|i: int| 0 <= i < s.len() && #[trigger] s[i].0 == e
}

/// The position of `e`'s entry in a table that holds one.
pub open spec fn key_index<T>(s: Seq<(Entity, T)>, e: Entity) -> int {
    choose|i: int| 0 <= i < s.len() && #[trigger] s[i].0 == e
}

/// The component a table holds for `e`.
pub open spec fn lookup<T>(s: Seq<(Entity, T)>, e: Entity) -> Option<T> {
    if has_key(s, e) {
        Some(s[key_index(s, e)].1)
    } else {
        None
    }
}

/// The table after attaching `c` to `e`: an existing entry is replaced in
/// place, a new one goes to the end.
pub open spec fn upsert<T>(s: Seq<(Entity, T)>, e: Entity, c: T) -> Seq<(Entity, T)> {
    if has_key(s, e) {
        s.update(key_index(s, e), (e, c))
    } else {
        s.push((e, c))
    }
}

/// The table after detaching `e`'s component, if any.
pub open spec fn delete<T>(s: Seq<(Entity, T)>, e: Entity) -> Seq<(Entity, T)> {
    if has_key(s, e) {
        s.remove(key_index(s, e))
    } else {
        s
    }
}

/// The entities of a table, in table order.
pub open spec fn keys<T>(s: Seq<(Entity, T)>) -> Seq<Entity> {
    Seq::new(s.len(), |i: int| s[i].0)
}

/// No entity has two entries.
pub open spec fn unique_keys<T>(s: Seq<(Entity, T)>) -> bool {
    forall|i: int, j: int|
        0 <= i < s.len() && 0 <= j < s.len() && i != j ==> #[trigger] s[i].0 != #[trigger] s[j].0
}

/// In a table without duplicates, the entry found at `i` is `e`'s entry.
pub proof fn lemma_key_index<T>(s: Seq<(Entity, T)>, e: Entity, i: int)
    requires
        unique_keys(s),
        0 <= i < s.len(),
        s[i].0 == e,
    ensures
        has_key(s, e),
        key_index(s, e) == i,
        lookup(s, e) == Some(s[i].1),
{
    assert(has_key(s, e));
    let j = key_index(s, e);
    assert(s[j].0 == e);
}

/// Attaching or detaching keeps a table free of duplicates.
pub proof fn lemma_unique_preserved<T>(s: Seq<(Entity, T)>, e: Entity, c: T)
    requires
        unique_keys(s),
    ensures
        unique_keys(upsert(s, e, c)),
        unique_keys(delete(s, e)),
{
    if has_key(s, e) {
        let k = key_index(s, e);
        assert(s[k].0 == e);
        let u = upsert(s, e, c);
        assert forall|i: int, j: int|
            0 <= i < u.len() && 0 <= j < u.len() && i != j implies #[trigger] u[i].0 != #[trigger] u[j].0 by {
            assert(s[i].0 != s[j].0 || i == j);
            if i == k {
                assert(s[j].0 != s[k].0);
            } else if j == k {
                assert(s[i].0 != s[k].0);
            }
        }
        let d = delete(s, e);
        assert forall|i: int, j: int|
            0 <= i < d.len() && 0 <= j < d.len() && i != j implies #[trigger] d[i].0 != #[trigger] d[j].0 by {
            let si = if i < k { i } else { i + 1 };
            let sj = if j < k { j } else { j + 1 };
            assert(d[i] == s[si]);
            assert(d[j] == s[sj]);
            assert(s[si].0 != s[sj].0);
        }
    } else {
        let u = upsert(s, e, c);
        assert forall|i: int, j: int|
            0 <= i < u.len() && 0 <= j < u.len() && i != j implies #[trigger] u[i].0 != #[trigger] u[j].0 by {
            if i == s.len() {
                assert(s[j].0 != e);
            } else if j == s.len() {
                assert(s[i].0 != e);
            } else {
                assert(s[i].0 != s[j].0);
            }
        }
    }
}

/// Reading after a write: the entity written reads back the component
/// attached, every other entity reads what it read before.
pub proof fn lemma_lookup_upsert<T>(s: Seq<(Entity, T)>, e: Entity, c: T, e2: Entity)
    requires
        unique_keys(s),
    ensures
        lookup(upsert(s, e, c), e2) == if e2 == e {
            Some(c)
        } else {
            lookup(s, e2)
        },
{
    let u = upsert(s, e, c);
    lemma_unique_preserved(s, e, c);
    if has_key(s, e) {
        let k = key_index(s, e);
        assert(s[k].0 == e);
        assert(u[k] == (e, c));
        if e2 == e {
            lemma_key_index(u, e, k);
        } else if has_key(s, e2) {
            let i = key_index(s, e2);
            assert(s[i].0 == e2);
            lemma_key_index(s, e2, i);
            assert(u[i] == s[i]);
            lemma_key_index(u, e2, i);
        } else if has_key(u, e2) {
            let i = key_index(u, e2);
            assert(u[i].0 == e2);
            assert(s[i].0 == e2);
        }
    } else {
        let k = s.len() as int;
        assert(u[k] == (e, c));
        if e2 == e {
            lemma_key_index(u, e, k);
        } else if has_key(s, e2) {
            let i = key_index(s, e2);
            assert(s[i].0 == e2);
            lemma_key_index(s, e2, i);
            assert(u[i] == s[i]);
            lemma_key_index(u, e2, i);
        } else if has_key(u, e2) {
            let i = key_index(u, e2);
            assert(u[i].0 == e2);
            assert(s[i].0 == e2);
        }
    }
}

/// Reading after a detach: the entity detached reads nothing, every other
/// entity reads what it read before.
pub proof fn lemma_lookup_delete<T>(s: Seq<(Entity, T)>, e: Entity, e2: Entity)
    requires
        unique_keys(s),
    ensures
        lookup(delete(s, e), e2) == if e2 == e {
            None
        } else {
            lookup(s, e2)
        },
{
    let d = delete(s, e);
    if has_key(s, e) {
        let k = key_index(s, e);
        assert(s[k].0 == e);
        if has_key(d, e2) {
            let i = key_index(d, e2);
            assert(d[i].0 == e2);
            let si = if i < k { i } else { i + 1 };
            assert(d[i] == s[si]);
            assert(s[si].0 == e2);
            assert(e2 != e);
            lemma_key_index(s, e2, si);
            lemma_unique_preserved(s, e, s[0].1);
            lemma_key_index(d, e2, i);
        } else if has_key(s, e2) && e2 != e {
            let j = key_index(s, e2);
            assert(s[j].0 == e2);
            let di = if j < k { j } else { j - 1 };
            assert(d[di] == s[j]);
        }
    }
}

/// Abstract contents of a world: the next entity id and one table per
/// component kind.
#[verifier::ext_equal]
pub struct WorldView {
    pub next: u32,
    pub positions: Seq<(Entity, Position)>,
    pub colliders: Seq<(Entity, Collider)>,
    pub kinds: Seq<(Entity, ObjectKind)>,
    pub sprites: Seq<(Entity, Sprite)>,
    pub players: Seq<(Entity, Player)>,
    pub treats: Seq<(Entity, Treat)>,
    pub collected: Seq<(Entity, Collected)>,
    pub motions: Seq<(Entity, GridMotion)>,
}

impl WorldView {
    /// Every table is free of duplicate entities.
    pub open spec fn wf(self) -> bool {
        &&& unique_keys(self.positions)
        &&& unique_keys(self.colliders)
        &&& unique_keys(self.kinds)
        &&& unique_keys(self.sprites)
        &&& unique_keys(self.players)
        &&& unique_keys(self.treats)
        &&& unique_keys(self.collected)
        &&& unique_keys(self.motions)
    }

    /// The world with no entities and no components.
    pub open spec fn empty() -> WorldView {
        WorldView {
            next: 0,
            positions: Seq::empty(),
            colliders: Seq::empty(),
            kinds: Seq::empty(),
            sprites: Seq::empty(),
            players: Seq::empty(),
            treats: Seq::empty(),
            collected: Seq::empty(),
            motions: Seq::empty(),
        }
    }
}

/// Every entity of the table was handed out before `next`.
pub open spec fn below_next<T>(s: Seq<(Entity, T)>, next: u32) -> bool {
    forall|i: int| 0 <= i < s.len() ==> (#[trigger] s[i].0).0 < next
}

/// Attaching a component to an entity the table has never seen appends it.
pub proof fn lemma_fresh_upsert<T>(s: Seq<(Entity, T)>, e: Entity, c: T)
    requires
        below_next(s, e.0),
    ensures
        !has_key(s, e),
        upsert(s, e, c) == s.push((e, c)),
        unique_keys(s) ==> unique_keys(s.push((e, c))),
        e.0 < u32::MAX ==> below_next(s.push((e, c)), (e.0 + 1) as u32),
{
    if has_key(s, e) {
        let i = key_index(s, e);
        assert(s[i].0 == e);
    }
    let t = s.push((e, c));
    if unique_keys(s) {
        assert forall|i: int, j: int|
            0 <= i < t.len() && 0 <= j < t.len() && i != j implies #[trigger] t[i].0 != #[trigger] t[j].0 by {
            if i < s.len() && j < s.len() {
                assert(s[i].0 != s[j].0);
            } else if i < s.len() {
                assert(s[i].0.0 < e.0);
            } else {
                assert(s[j].0.0 < e.0);
            }
        }
    }
    assert forall|i: int| 0 <= i < t.len() implies (#[trigger] t[i].0).0 < e.0 + 1 by {
        if i < s.len() {
            assert(s[i].0.0 < e.0);
        }
    }
}

/// Attaching to a spawned entity keeps a table's entities spawned.
pub proof fn lemma_below_next_upsert<T>(s: Seq<(Entity, T)>, e: Entity, c: T, n: u32)
    requires
        below_next(s, n),
        e.0 < n,
    ensures
        below_next(upsert(s, e, c), n),
{
    if has_key(s, e) {
        let k = key_index(s, e);
        assert(s[k].0 == e);
        assert forall|i: int| 0 <= i < upsert(s, e, c).len() implies (#[trigger] upsert(s, e, c)[i].0).0 < n by {
            if i != k {
                assert(upsert(s, e, c)[i] == s[i]);
            }
        }
    } else {
        assert forall|i: int| 0 <= i < upsert(s, e, c).len() implies (#[trigger] upsert(s, e, c)[i].0).0 < n by {
            if i < s.len() {
                assert(upsert(s, e, c)[i] == s[i]);
            }
        }
    }
}

/// The components a freshly spawned entity receives.
pub struct Spawn {
    pub position: Option<Position>,
    pub collider: bool,
    pub kind: Option<ObjectKind>,
    pub sprite: Option<Sprite>,
    pub treat: Option<Treat>,
    pub collected: Option<Collected>,
    pub player: Option<Player>,
    pub motion: Option<GridMotion>,
}

pub open spec fn no_components() -> Spawn {
    Spawn {
        position: None,
        collider: false,
        kind: None,
        sprite: None,
        treat: None,
        collected: None,
        player: None,
        motion: None,
    }
}

pub open spec fn push_opt<T>(s: Seq<(Entity, T)>, e: Entity, c: Option<T>) -> Seq<(Entity, T)> {
    match c {
        Some(v) => s.push((e, v)),
        None => s,
    }
}

/// The world after spawning one entity with the given components.
pub open spec fn spawn_one(w: WorldView, r: Spawn) -> WorldView {
    let e = Entity(w.next);
    WorldView {
        next: (w.next + 1) as u32,
        positions: push_opt(w.positions, e, r.position),
        colliders: if r.collider {
            w.colliders.push((e, Collider))
        } else {
            w.colliders
        },
        kinds: push_opt(w.kinds, e, r.kind),
        sprites: push_opt(w.sprites, e, r.sprite),
        players: push_opt(w.players, e, r.player),
        treats: push_opt(w.treats, e, r.treat),
        collected: push_opt(w.collected, e, r.collected),
        motions: push_opt(w.motions, e, r.motion),
    }
}

/// The world after spawning one entity per record, in order.
pub open spec fn spawn_all(w: WorldView, rs: Seq<Spawn>) -> WorldView
    decreases rs.len(),
{
    if rs.len() == 0 {
        w
    } else {
        spawn_one(spawn_all(w, rs.drop_last()), rs.last())
    }
}

impl WorldView {
    /// Every component belongs to an entity that was already spawned.
    pub open spec fn spawned_only(self) -> bool {
        &&& below_next(self.positions, self.next)
        &&& below_next(self.colliders, self.next)
        &&& below_next(self.kinds, self.next)
        &&& below_next(self.sprites, self.next)
        &&& below_next(self.players, self.next)
        &&& below_next(self.treats, self.next)
        &&& below_next(self.collected, self.next)
        &&& below_next(self.motions, self.next)
    }

    /// A world built only through `spawn` and `insert` on spawned entities.
    pub open spec fn sound(self) -> bool {
        self.wf() && self.spawned_only()
    }
}

/// Spawning keeps a world sound.
pub proof fn lemma_spawn_one(w: WorldView, r: Spawn)
    requires
        w.sound(),
        w.next < u32::MAX,
    ensures
        spawn_one(w, r).sound(),
        spawn_one(w, r).next == w.next + 1,
{
    let e = Entity(w.next);
    lemma_fresh_upsert(w.positions, e, r.position->0);
    lemma_fresh_upsert(w.colliders, e, Collider);
    lemma_fresh_upsert(w.kinds, e, r.kind->0);
    lemma_fresh_upsert(w.sprites, e, r.sprite->0);
    lemma_fresh_upsert(w.players, e, r.player->0);
    lemma_fresh_upsert(w.treats, e, r.treat->0);
    lemma_fresh_upsert(w.collected, e, r.collected->0);
    lemma_fresh_upsert(w.motions, e, r.motion->0);
    lemma_below_next_grows(w.positions, w.next);
    lemma_below_next_grows(w.colliders, w.next);
    lemma_below_next_grows(w.kinds, w.next);
    lemma_below_next_grows(w.sprites, w.next);
    lemma_below_next_grows(w.players, w.next);
    lemma_below_next_grows(w.treats, w.next);
    lemma_below_next_grows(w.collected, w.next);
    lemma_below_next_grows(w.motions, w.next);
}

pub proof fn lemma_below_next_grows<T>(s: Seq<(Entity, T)>, n: u32)
    requires
        below_next(s, n),
        n < u32::MAX,
    ensures
        below_next(s, (n + 1) as u32),
{
}

/// Spawning a batch keeps a world sound and advances `next` by the batch
/// size.
pub proof fn lemma_spawn_all(w: WorldView, rs: Seq<Spawn>)
    requires
        w.sound(),
        w.next + rs.len() <= u32::MAX,
    ensures
        spawn_all(w, rs).sound(),
        spawn_all(w, rs).next == w.next + rs.len(),
    decreases rs.len(),
{
    if rs.len() > 0 {
        lemma_spawn_all(w, rs.drop_last());
        lemma_spawn_one(spawn_all(w, rs.drop_last()), rs.last());
    }
}

/// Spawning records one after another is spawning their concatenation.
pub proof fn lemma_spawn_all_concat(w: WorldView, r1: Seq<Spawn>, r2: Seq<Spawn>)
    ensures
        spawn_all(spawn_all(w, r1), r2) == spawn_all(w, r1 + r2),
    decreases r2.len(),
{
    if r2.len() == 0 {
        assert(r1 + r2 =~= r1);
    } else {
        lemma_spawn_all_concat(w, r1, r2.drop_last());
        assert((r1 + r2).drop_last() =~= r1 + r2.drop_last());
        assert((r1 + r2).last() == r2.last());
    }
}

/// Spawning one more record after a batch.
pub proof fn lemma_spawn_all_push(w: WorldView, rs: Seq<Spawn>, r: Spawn)
    ensures
        spawn_one(spawn_all(w, rs), r) == spawn_all(w, rs.push(r)),
{
    assert(rs.push(r).drop_last() =~= rs);
}

/// Sparse storage of one component kind.
pub struct ComponentStorage<T> {
    entries: Vec<(Entity, T)>,
}

impl<T> View for ComponentStorage<T> {
    type V = Seq<(Entity, T)>;

    closed spec fn view(&self) -> Seq<(Entity, T)> {
        self.entries@
    }
}

/// A kind of component that a [`World`] can store: it names the world's
/// table for the kind.
pub trait Component: Sized {
    /// The table of this kind in a world view.
    spec fn slot(w: WorldView) -> Seq<(Entity, Self)>;

    /// A world view with this kind's table replaced.
    spec fn with_slot(w: WorldView, s: Seq<(Entity, Self)>) -> WorldView;

    proof fn lemma_slot(w: WorldView, s: Seq<(Entity, Self)>)
        ensures
            w.wf() ==> unique_keys(Self::slot(w)),
            Self::slot(Self::with_slot(w, s)) == s,
            Self::with_slot(w, s).next == w.next,
            w.wf() && unique_keys(s) ==> Self::with_slot(w, s).wf(),
    ;

    fn storage(world: &World) -> (r: &ComponentStorage<Self>)
        ensures
            r@ == Self::slot(world@),
    ;

    fn storage_mut(world: &mut World) -> (r: &mut ComponentStorage<Self>)
        ensures
            r@ == Self::slot(old(world)@),
            final(world)@ == Self::with_slot(old(world)@, final(r)@),
    ;
}

impl<T> ComponentStorage<T> {
    fn new() -> (r: Self)
        ensures
            r@ == Seq::<(Entity, T)>::empty(),
    {
        ComponentStorage { entries: Vec::new() }
    }

    fn find(&self, entity: Entity) -> (r: Option<usize>)
        requires
            unique_keys(self@),
        ensures
            match r {
                Some(i) => i < self@.len() && self@[i as int].0 == entity && key_index(self@, entity) == i
                    && has_key(self@, entity),
                None => !has_key(self@, entity),
            },
    {
        let n = self.entries.len();
        let mut i: usize = 0;
        while i < n
            invariant
                n == self@.len(),
                self@ == self.entries@,
                unique_keys(self@),
                i <= n,
                forall|j: int| 0 <= j < i ==> self@[j].0 != entity,
            decreases n - i,
        {
            if self.entries[i].0 == entity {
                proof {
                    lemma_key_index(self@, entity, i as int);
                }
                return Some(i);
            }
            i = i + 1;
        }
        None
    }

    fn insert(&mut self, entity: Entity, component: T)
        requires
            unique_keys(old(self)@),
        ensures
            final(self)@ == upsert(old(self)@, entity, component),
            unique_keys(final(self)@),
    {
        proof {
            lemma_unique_preserved(self@, entity, component);
        }
        match self.find(entity) {
            Some(i) => {
                self.entries.set(i, (entity, component));
            },
            None => {
                self.entries.push((entity, component));
            },
        }
    }

    fn get(&self, entity: Entity) -> (r: Option<&T>)
        requires
            unique_keys(self@),
        ensures
            match r {
                Some(c) => lookup(self@, entity) == Some(*c),
                None => lookup(self@, entity) is None,
            },
    {
        match self.find(entity) {
            Some(i) => Some(&self.entries[i].1),
            None => None,
        }
    }

    fn get_mut(&mut self, entity: Entity) -> (r: Option<&mut T>)
        requires
            unique_keys(old(self)@),
        ensures
            match r {
                Some(c) => lookup(old(self)@, entity) == Some(*c)
                    && final(self)@ == upsert(old(self)@, entity, *final(c)),
                None => lookup(old(self)@, entity) is None && final(self)@ == old(self)@,
            },
    {
        match self.find(entity) {
            Some(i) => {
                let (_, c) = &mut self.entries[i];
                Some(c)
            },
            None => None,
        }
    }

    fn has(&self, entity: Entity) -> (r: bool)
        requires
            unique_keys(self@),
        ensures
            r == has_key(self@, entity),
    {
        self.find(entity).is_some()
    }

    fn remove(&mut self, entity: Entity)
        requires
            unique_keys(old(self)@),
        ensures
            final(self)@ == delete(old(self)@, entity),
            unique_keys(final(self)@),
    {
        proof {
            lemma_unique_preserved(self@, entity, self@[0].1);
        }
        if let Some(i) = self.find(entity) {
            self.entries.remove(i);
        }
    }

    fn entities(&self) -> (r: Vec<Entity>)
        ensures
            r@ == keys(self@),
    {
        let n = self.entries.len();
        let mut r: Vec<Entity> = Vec::new();
        let mut i: usize = 0;
        while i < n
            invariant
                n == self@.len(),
                self@ == self.entries@,
                i <= n,
                r@ == keys(self@).take(i as int),
            decreases n - i,
        {
            r.push(self.entries[i].0);
            assert(keys(self@).take(i + 1) == keys(self@).take(i as int).push(self@[i as int].0));
            i = i + 1;
        }
        assert(keys(self@).take(n as int) == keys(self@));
        r
    }

    fn len(&self) -> (r: usize)
        ensures
            r == self@.len(),
    {
        self.entries.len()
    }
}

/// The simulation root: entity ids and one component table per kind.
pub struct World {
    next_entity: u32,
    positions: ComponentStorage<Position>,
    colliders: ComponentStorage<Collider>,
    kinds: ComponentStorage<ObjectKind>,
    sprites: ComponentStorage<Sprite>,
    players: ComponentStorage<Player>,
    treats: ComponentStorage<Treat>,
    collected: ComponentStorage<Collected>,
    motions: ComponentStorage<GridMotion>,
}

impl View for World {
    type V = WorldView;

    closed spec fn view(&self) -> WorldView {
        WorldView {
            next: self.next_entity,
            positions: self.positions@,
            colliders: self.colliders@,
            kinds: self.kinds@,
            sprites: self.sprites@,
            players: self.players@,
            treats: self.treats@,
            collected: self.collected@,
            motions: self.motions@,
        }
    }
}

impl World {
    pub fn new() -> (r: World)
        ensures
            r@ == WorldView::empty(),
            r@.wf(),
    {
        let r = World {
            next_entity: 0,
            positions: ComponentStorage::new(),
            colliders: ComponentStorage::new(),
            kinds: ComponentStorage::new(),
            sprites: ComponentStorage::new(),
            players: ComponentStorage::new(),
            treats: ComponentStorage::new(),
            collected: ComponentStorage::new(),
            motions: ComponentStorage::new(),
        };
        assert(r@ =~= WorldView::empty());
        r
    }

    /// Spawn a new entity with no components attached.
    pub fn spawn(&mut self) -> (r: Entity)
        requires
            old(self)@.next < u32::MAX,
        ensures
            r == Entity(old(self)@.next),
            final(self)@ == (WorldView { next: (old(self)@.next + 1) as u32, ..old(self)@ }),
    {
        let entity = Entity(self.next_entity);
        self.next_entity = self.next_entity + 1;
        entity
    }

    /// Attach a component to an entity, replacing any prior one of the same kind.
    pub fn insert<T: Component>(&mut self, entity: Entity, component: T)
        requires
            old(self)@.wf(),
        ensures
            final(self)@ == T::with_slot(old(self)@, upsert(T::slot(old(self)@), entity, component)),
            final(self)@.wf(),
    {
        proof {
            T::lemma_slot(self@, upsert(T::slot(self@), entity, component));
        }
        let storage = T::storage_mut(self);
        storage.insert(entity, component);
    }

    pub fn component<T: Component>(&self, entity: Entity) -> (r: Option<&T>)
        requires
            self@.wf(),
        ensures
            match r {
                Some(c) => lookup(T::slot(self@), entity) == Some(*c),
                None => lookup(T::slot(self@), entity) is None,
            },
    {
        proof {
            T::lemma_slot(self@, T::slot(self@));
        }
        T::storage(self).get(entity)
    }

    pub fn component_mut<T: Component>(&mut self, entity: Entity) -> (r: Option<&mut T>)
        requires
            old(self)@.wf(),
        ensures
            match r {
                Some(c) => lookup(T::slot(old(self)@), entity) == Some(*c)
                    && final(self)@ == T::with_slot(
                        old(self)@,
                        upsert(T::slot(old(self)@), entity, *final(c)),
                    ),
                None => lookup(T::slot(old(self)@), entity) is None
                    && final(self)@ == T::with_slot(old(self)@, T::slot(old(self)@)),
            },
    {
        proof {
            T::lemma_slot(self@, T::slot(self@));
        }
        let storage = T::storage_mut(self);
        storage.get_mut(entity)
    }

    pub fn has<T: Component>(&self, entity: Entity) -> (r: bool)
        requires
            self@.wf(),
        ensures
            r == has_key(T::slot(self@), entity),
    {
        proof {
            T::lemma_slot(self@, T::slot(self@));
        }
        T::storage(self).has(entity)
    }

    pub fn remove_component<T: Component>(&mut self, entity: Entity)
        requires
            old(self)@.wf(),
        ensures
            final(self)@ == T::with_slot(old(self)@, delete(T::slot(old(self)@), entity)),
            final(self)@.wf(),
    {
        proof {
            T::lemma_slot(self@, T::slot(self@));
            lemma_unique_preserved(T::slot(self@), entity, T::slot(self@)[0].1);
            T::lemma_slot(self@, delete(T::slot(self@), entity));
        }
        let storage = T::storage_mut(self);
        storage.remove(entity);
    }

    /// Every entity that owns a component of kind `T`, in table order.
    pub fn entities_with<T: Component>(&self) -> (r: Vec<Entity>)
        ensures
            r@ == keys(T::slot(self@)),
    {
        T::storage(self).entities()
    }

    pub fn component_count<T: Component>(&self) -> (r: usize)
        ensures
            r == T::slot(self@).len(),
    {
        T::storage(self).len()
    }

    pub fn entity_count(&self) -> (r: u32)
        ensures
            r == self@.next,
    {
        self.next_entity
    }
}

/// Reading a kind back after attaching a component of it: the entity
/// written reads the component, every other entity what it read before.
pub proof fn lemma_insert_then_read<T: Component>(w: WorldView, e: Entity, c: T, e2: Entity)
    requires
        w.wf(),
    ensures
        lookup(T::slot(T::with_slot(w, upsert(T::slot(w), e, c))), e2) == if e2 == e {
            Some(c)
        } else {
            lookup(T::slot(w), e2)
        },
{
    T::lemma_slot(w, upsert(T::slot(w), e, c));
    lemma_lookup_upsert(T::slot(w), e, c, e2);
}

/// Reading a kind back after detaching it: the entity detached reads
/// nothing, every other entity what it read before.
pub proof fn lemma_remove_then_read<T: Component>(w: WorldView, e: Entity, e2: Entity)
    requires
        w.wf(),
    ensures
        lookup(T::slot(T::with_slot(w, delete(T::slot(w), e))), e2) == if e2 == e {
            None
        } else {
            lookup(T::slot(w), e2)
        },
{
    T::lemma_slot(w, delete(T::slot(w), e));
    lemma_lookup_delete(T::slot(w), e, e2);
}

/// A freshly spawned entity has no component of any kind.
pub proof fn lemma_spawned_entity_is_bare(w: WorldView)
    requires
        w.sound(),
    ensures
        !has_key(w.positions, Entity(w.next)),
        !has_key(w.colliders, Entity(w.next)),
        !has_key(w.kinds, Entity(w.next)),
        !has_key(w.sprites, Entity(w.next)),
        !has_key(w.players, Entity(w.next)),
        !has_key(w.treats, Entity(w.next)),
        !has_key(w.collected, Entity(w.next)),
        !has_key(w.motions, Entity(w.next)),
{
}

impl Default for World {
    fn default() -> (r: World)
        ensures
            r@ == WorldView::empty(),
            r@.wf(),
    {
        World::new()
    }
}

impl Component for Position {
    open spec fn slot(w: WorldView) -> Seq<(Entity, Self)> {
        w.positions
    }

    open spec fn with_slot(w: WorldView, s: Seq<(Entity, Self)>) -> WorldView {
        WorldView { positions: s, ..w }
    }

    proof fn lemma_slot(w: WorldView, s: Seq<(Entity, Self)>) {
    }

    fn storage(world: &World) -> (r: &ComponentStorage<Self>) {
        &world.positions
    }

    fn storage_mut(world: &mut World) -> (r: &mut ComponentStorage<Self>) {
        &mut world.positions
    }
}

impl Component for Collider {
    open spec fn slot(w: WorldView) -> Seq<(Entity, Self)> {
        w.colliders
    }

    open spec fn with_slot(w: WorldView, s: Seq<(Entity, Self)>) -> WorldView {
        WorldView { colliders: s, ..w }
    }

    proof fn lemma_slot(w: WorldView, s: Seq<(Entity, Self)>) {
    }

    fn storage(world: &World) -> (r: &ComponentStorage<Self>) {
        &world.colliders
    }

    fn storage_mut(world: &mut World) -> (r: &mut ComponentStorage<Self>) {
        &mut world.colliders
    }
}

impl Component for ObjectKind {
    open spec fn slot(w: WorldView) -> Seq<(Entity, Self)> {
        w.kinds
    }

    open spec fn with_slot(w: WorldView, s: Seq<(Entity, Self)>) -> WorldView {
        WorldView { kinds: s, ..w }
    }

    proof fn lemma_slot(w: WorldView, s: Seq<(Entity, Self)>) {
    }

    fn storage(world: &World) -> (r: &ComponentStorage<Self>) {
        &world.kinds
    }

    fn storage_mut(world: &mut World) -> (r: &mut ComponentStorage<Self>) {
        &mut world.kinds
    }
}

impl Component for Sprite {
    open spec fn slot(w: WorldView) -> Seq<(Entity, Self)> {
        w.sprites
    }

    open spec fn with_slot(w: WorldView, s: Seq<(Entity, Self)>) -> WorldView {
        WorldView { sprites: s, ..w }
    }

    proof fn lemma_slot(w: WorldView, s: Seq<(Entity, Self)>) {
    }

    fn storage(world: &World) -> (r: &ComponentStorage<Self>) {
        &world.sprites
    }

    fn storage_mut(world: &mut World) -> (r: &mut ComponentStorage<Self>) {
        &mut world.sprites
    }
}

impl Component for Player {
    open spec fn slot(w: WorldView) -> Seq<(Entity, Self)> {
        w.players
    }

    open spec fn with_slot(w: WorldView, s: Seq<(Entity, Self)>) -> WorldView {
        WorldView { players: s, ..w }
    }

    proof fn lemma_slot(w: WorldView, s: Seq<(Entity, Self)>) {
    }

    fn storage(world: &World) -> (r: &ComponentStorage<Self>) {
        &world.players
    }

    fn storage_mut(world: &mut World) -> (r: &mut ComponentStorage<Self>) {
        &mut world.players
    }
}

impl Component for Treat {
    open spec fn slot(w: WorldView) -> Seq<(Entity, Self)> {
        w.treats
    }

    open spec fn with_slot(w: WorldView, s: Seq<(Entity, Self)>) -> WorldView {
        WorldView { treats: s, ..w }
    }

    proof fn lemma_slot(w: WorldView, s: Seq<(Entity, Self)>) {
    }

    fn storage(world: &World) -> (r: &ComponentStorage<Self>) {
        &world.treats
    }

    fn storage_mut(world: &mut World) -> (r: &mut ComponentStorage<Self>) {
        &mut world.treats
    }
}

impl Component for Collected {
    open spec fn slot(w: WorldView) -> Seq<(Entity, Self)> {
        w.collected
    }

    open spec fn with_slot(w: WorldView, s: Seq<(Entity, Self)>) -> WorldView {
        WorldView { collected: s, ..w }
    }

    proof fn lemma_slot(w: WorldView, s: Seq<(Entity, Self)>) {
    }

    fn storage(world: &World) -> (r: &ComponentStorage<Self>) {
        &world.collected
    }

    fn storage_mut(world: &mut World) -> (r: &mut ComponentStorage<Self>) {
        &mut world.collected
    }
}

impl Component for GridMotion {
    open spec fn slot(w: WorldView) -> Seq<(Entity, Self)> {
        w.motions
    }

    open spec fn with_slot(w: WorldView, s: Seq<(Entity, Self)>) -> WorldView {
        WorldView { motions: s, ..w }
    }

    proof fn lemma_slot(w: WorldView, s: Seq<(Entity, Self)>) {
    }

    fn storage(world: &World) -> (r: &ComponentStorage<Self>) {
        &world.motions
    }

    fn storage_mut(world: &mut World) -> (r: &mut ComponentStorage<Self>) {
        &mut world.motions
    }
}

} // verus!
