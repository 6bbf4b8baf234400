//! The object store: one parent record per live entity, the parent/child
//! index, the scene membership index and the free list of identifiers.
use std::collections::BTreeSet;
use vstd::prelude::*;

use crate::table::{sorted_members, strictly_increasing, Table};
use crate::Entity;

verus! {

broadcast use {vstd::std_specs::btree::group_btree_axioms, vstd::laws_cmp::group_laws_cmp};

/// How many parent links a walk up the hierarchy follows at most: as many
/// as there are identifiers, so no chain of distinct live objects is cut
/// short, while a walk always ends.
pub const WALK_LIMIT: u64 = 4294967296;

/// The parent a new object gets: `0` when none is given.
pub open spec fn parent_or_root(parent: Option<Entity>) -> Entity {
    match parent {
        Some(p) => p,
        None => 0,
    }
}

/// The record every live entity owns.
#[derive(Clone, Copy, Debug, PartialEq, Eq, Structural, Default)]
pub struct Object {
    /// The parent of this object; `0` when it has none.
    pub parent: Entity,
}

/// The parent of an entity, as read and written through `CommonData::get`
/// and `CommonData::set`.
#[derive(Clone, Copy, Debug, PartialEq, Eq, Structural)]
pub struct Parent<T>(pub T);

/// An entity that owns a scene membership set.
#[derive(Clone, Copy, Debug, PartialEq, Eq, Structural)]
pub struct Scene(pub Entity);

impl Scene {
    /// The entity behind the scene.
    pub fn to_entity(self) -> (r: Entity)
        ensures
            r == self.0,
    {
        self.0
    }
}

/// Copies everything one entity owns in a system onto another entity.
pub trait Duplicate {
    fn duplicate(&mut self, src: Entity, dst: Entity);
}

/// Removes everything an entity owns in a system.
pub trait Delete {
    fn delete(&mut self, oid: Entity) -> bool;
}

/// The scene found by walking up from `x`: `x` itself if it owns a scene,
/// else the scene found from its parent. The walk ends without a scene at
/// `0`, at an entity with no record, or when `fuel` runs out.
pub open spec fn scene_walk(parents: Map<Entity, Entity>, scenes: Set<Entity>, x: Entity, fuel: nat)
    -> Option<Entity>
    decreases fuel,
{
    if x == 0 {
        None
    } else if scenes.contains(x) {
        Some(x)
    } else if fuel == 0 || !parents.contains_key(x) {
        None
    } else {
        scene_walk(parents, scenes, parents[x], (fuel - 1) as nat)
    }
}

/// Whether walking up from `x` meets `target` (`x` itself included)
/// within `fuel` parent links.
pub open spec fn walk_meets(parents: Map<Entity, Entity>, x: Entity, target: Entity, fuel: nat) -> bool
    decreases fuel,
{
    if x == target {
        true
    } else if x == 0 || fuel == 0 || !parents.contains_key(x) {
        false
    } else {
        walk_meets(parents, parents[x], target, (fuel - 1) as nat)
    }
}

/// A scene found by the walk owns a membership set.
pub proof fn lemma_scene_walk_is_scene(parents: Map<Entity, Entity>, scenes: Set<Entity>, x: Entity, fuel: nat)
    ensures
        scene_walk(parents, scenes, x, fuel) matches Some(s) ==> scenes.contains(s),
    decreases fuel,
{
    if x != 0 && !scenes.contains(x) && fuel > 0 && parents.contains_key(x) {
        lemma_scene_walk_is_scene(parents, scenes, parents[x], (fuel - 1) as nat);
    }
}

/// The abstract state of a `CommonData`.
pub struct StoreView {
    /// The next identifier the counter hands out.
    pub next: Entity,
    /// Each live entity and its parent.
    pub parents: Map<Entity, Entity>,
    /// The parent/child index.
    pub children: Map<Entity, Set<Entity>>,
    /// Each scene and the entities that belong to it.
    pub scenes: Map<Entity, Set<Entity>>,
    /// Identifiers free for reuse; the last one is handed out first.
    pub freelist: Seq<Entity>,
}

impl StoreView {
    /// Whether `e` has an object record.
    pub open spec fn live(self, e: Entity) -> bool {
        self.parents.contains_key(e)
    }

    /// The children recorded under `p`.
    pub open spec fn child_set(self, p: Entity) -> Set<Entity> {
        if self.children.contains_key(p) {
            self.children[p]
        } else {
            Set::empty()
        }
    }

    /// The nearest scene at or above `x`.
    pub open spec fn nearest_scene(self, x: Entity) -> Option<Entity> {
        scene_walk(self.parents, self.scenes.dom(), x, WALK_LIMIT as nat)
    }

    /// Whether `a` is `x` or one of its ancestors.
    pub open spec fn is_ancestor(self, a: Entity, x: Entity) -> bool {
        walk_meets(self.parents, x, a, WALK_LIMIT as nat)
    }

    /// Whether `e` belongs to the scene `s`.
    pub open spec fn in_scene(self, s: Entity, e: Entity) -> bool {
        self.scenes.contains_key(s) && self.scenes[s].contains(e)
    }

    /// Identifiers: the counter is past every live or free identifier,
    /// `0` is never used, and no free identifier is live.
    pub open spec fn ids_wf(self) -> bool {
        &&& self.next >= 1
        &&& forall|e: Entity| #[trigger] self.parents.contains_key(e) ==> 0 < e < self.next
        &&& forall|i: int|
            0 <= i < self.freelist.len() ==> 0 < #[trigger] self.freelist[i] < self.next
                && !self.live(self.freelist[i])
        &&& self.freelist.no_duplicates()
    }

    /// Parents: every parent is `0` or live, and no entity is its own parent.
    pub open spec fn parents_wf(self) -> bool {
        forall|c: Entity| #[trigger] self.parents.contains_key(c) ==> {
            let p = self.parents[c];
            &&& p != c
            &&& p == 0 || self.live(p)
        }
    }

    /// The parent/child index holds exactly the parent links.
    pub open spec fn children_wf(self) -> bool {
        &&& forall|p: Entity| #[trigger] self.children.contains_key(p) ==> p == 0 || self.live(p)
        &&& forall|p: Entity, c: Entity| #[trigger] self.child_set(p).contains(c)
            <==> self.live(c) && self.parents[c] == p
    }

    /// Scenes are live, their members are live, and no entity belongs to
    /// two scenes.
    pub open spec fn scenes_wf(self) -> bool {
        &&& forall|s: Entity| #[trigger] self.scenes.contains_key(s) ==> self.live(s)
        &&& forall|s: Entity, e: Entity| #[trigger] self.in_scene(s, e) ==> self.live(e)
        &&& forall|s1: Entity, s2: Entity, e: Entity|
            #[trigger] self.in_scene(s1, e) && #[trigger] self.in_scene(s2, e) ==> s1 == s2
    }

    pub open spec fn wf(self) -> bool {
        &&& self.ids_wf()
        &&& self.parents_wf()
        &&& self.children_wf()
        &&& self.scenes_wf()
    }

    /// The identifier the next allocation hands out.
    pub open spec fn next_key(self) -> Entity {
        if self.freelist.len() > 0 {
            self.freelist.last()
        } else {
            self.next
        }
    }

    /// The state after the next allocation took its identifier.
    pub open spec fn after_alloc(self) -> StoreView {
        if self.freelist.len() > 0 {
            StoreView { freelist: self.freelist.drop_last(), ..self }
        } else {
            StoreView { next: (self.next + 1) as Entity, ..self }
        }
    }

    /// The state with `child` recorded under `parent` in the parent/child index.
    pub open spec fn with_child(self, parent: Entity, child: Entity) -> StoreView {
        StoreView {
            children: self.children.insert(parent, self.child_set(parent).insert(child)),
            ..self
        }
    }

    /// The state with `e` added to the members of the scene `s`.
    pub open spec fn with_member(self, s: Entity, e: Entity) -> StoreView {
        StoreView { scenes: self.scenes.insert(s, self.scenes[s].insert(e)), ..self }
    }

    /// The state after creating `k` under the parent `p`: `k` is recorded
    /// under `p` and joins the nearest scene at or above `p`, if any.
    pub open spec fn created(self, p: Entity, k: Entity) -> StoreView {
        let a = self.after_alloc();
        StoreView {
            parents: self.parents.insert(k, p),
            children: self.with_child(p, k).children,
            scenes: match self.nearest_scene(p) {
                Some(s) => self.with_member(s, k).scenes,
                None => self.scenes,
            },
            ..a
        }
    }

    /// The state after creating the scene `k`: a parentless object that
    /// owns an empty membership set.
    pub open spec fn scene_created(self, k: Entity) -> StoreView {
        let c = self.created(0, k);
        StoreView { scenes: c.scenes.insert(k, Set::empty()), ..c }
    }

    /// Whether `p` may be the parent of a new object.
    pub open spec fn parent_ok(self, p: Entity) -> bool {
        p == 0 || self.live(p)
    }

    /// The state with `e` taken out of every scene's members.
    pub open spec fn without_member(self, e: Entity) -> StoreView {
        StoreView { scenes: self.scenes.map_values(|m: Set<Entity>| m.remove(e)), ..self }
    }

    /// The state with `child` taken out of the children recorded under `parent`.
    pub open spec fn without_child(self, parent: Entity, child: Entity) -> StoreView {
        if self.children.contains_key(parent) {
            StoreView {
                children: self.children.insert(parent, self.children[parent].remove(child)),
                ..self
            }
        } else {
            self
        }
    }

    /// The state after deleting the live entity `oid`: its record, its
    /// own child set and scene are gone, it leaves every scene and its
    /// parent's child set, its children become roots, and its identifier
    /// goes on the free list.
    pub open spec fn deleted(self, oid: Entity) -> StoreView {
        StoreView {
            parents: Map::new(
                |e: Entity| self.parents.contains_key(e) && e != oid,
                |e: Entity| if self.parents[e] == oid { 0 } else { self.parents[e] },
            ),
            scenes: self.scenes.remove(oid).map_values(|m: Set<Entity>| m.remove(oid)),
            freelist: self.freelist.push(oid),
            ..self
        }
    }

    /// Whether `self` and `other` agree on everything but the parent/child
    /// index, which well-formedness ties to the parents anyway.
    pub open spec fn agrees_but_children(self, other: StoreView) -> bool {
        &&& self.next == other.next
        &&& self.parents == other.parents
        &&& self.scenes == other.scenes
        &&& self.freelist == other.freelist
    }

    /// Whether `key` may be moved under `p`: both exist and `key` is not
    /// `p` or one of its ancestors, so no cycle forms.
    pub open spec fn reparent_ok(self, key: Entity, p: Entity) -> bool {
        &&& self.live(key)
        &&& self.parent_ok(p)
        &&& !self.is_ancestor(key, p)
    }

    /// The state with `key` moved under `p` in the records and the index.
    pub open spec fn reparented(self, key: Entity, p: Entity) -> StoreView {
        let w = self.without_child(self.parents[key], key).with_child(p, key);
        StoreView { parents: self.parents.insert(key, p), ..w }
    }

    /// The state after moving `key` under `p`: it leaves its scene and
    /// joins the nearest scene at or above `p`, if any.
    pub open spec fn moved(self, key: Entity, p: Entity) -> StoreView {
        let w = self.without_member(key);
        StoreView {
            parents: self.parents.insert(key, p),
            scenes: match self.nearest_scene(p) {
                Some(s) => w.with_member(s, key).scenes,
                None => w.scenes,
            },
            ..self
        }
    }

    /// The state with `e` added to every scene that `like` belongs to.
    pub open spec fn joined(self, e: Entity, like: Entity) -> StoreView {
        StoreView {
            scenes: self.scenes.map_values(
                |m: Set<Entity>| if m.contains(like) { m.insert(e) } else { m },
            ),
            ..self
        }
    }

    /// Whether duplicating `src` onto `dst` changes the store: both are
    /// live, distinct, and `dst` is not an ancestor of `src`'s parent.
    pub open spec fn duplicate_ok(self, src: Entity, dst: Entity) -> bool {
        &&& self.live(src)
        &&& self.live(dst)
        &&& src != dst
        &&& self.reparent_ok(dst, self.parents[src])
    }

    /// The state after duplicating `src` onto `dst`: `dst` gets `src`'s
    /// parent and belongs to exactly the scenes `src` belongs to.
    pub open spec fn duplicated(self, src: Entity, dst: Entity) -> StoreView {
        let w = self.without_member(dst).joined(dst, src);
        StoreView { parents: self.parents.insert(dst, self.parents[src]), ..w }
    }

    /// Whether an allocation can still be made.
    pub open spec fn can_allocate(self) -> bool {
        self.freelist.len() > 0 || self.next < u32::MAX
    }
}

proof fn lemma_created_wf(v: StoreView, p: Entity)
    requires
        v.wf(),
        v.can_allocate(),
        v.parent_ok(p),
    ensures
        v.created(p, v.next_key()).wf(),
{
    let k = v.next_key();
    let v1 = v.created(p, k);
    lemma_scene_walk_is_scene(v.parents, v.scenes.dom(), p, WALK_LIMIT as nat);
    if v.freelist.len() > 0 {
        assert(v.freelist[v.freelist.len() - 1] == k);
        assert forall|i: int| 0 <= i < v1.freelist.len() implies 0 < #[trigger] v1.freelist[i] < v1.next
            && !v1.live(v1.freelist[i]) by {
            assert(v1.freelist[i] == v.freelist[i]);
        }
    }
    assert(!v.live(k));
    assert forall|e: Entity| #[trigger] v1.live(e) implies 0 < e < v1.next by {
        if e != k {
            assert(v.live(e));
        }
    }
    if v.freelist.len() > 0 {
        assert(v1.freelist.no_duplicates());
    }
    assert(v1.ids_wf());
    assert forall|c: Entity| #[trigger] v1.live(c) implies v1.parents[c] != c && (v1.parents[c] == 0
        || v1.live(v1.parents[c])) by {
        if c != k {
            assert(v.live(c));
        }
    }
    assert(v1.parents_wf());
    assert forall|q: Entity, c: Entity| #[trigger] v1.child_set(q).contains(c)
        <==> v1.live(c) && v1.parents[c] == q by {
        assert(v.child_set(q).contains(c) <==> v.live(c) && v.parents[c] == q);
        if c == k {
            assert(!v.child_set(q).contains(c));
        }
    }
    assert(v1.children_wf());
    assert forall|s: Entity, e: Entity| #[trigger] v1.in_scene(s, e) implies v1.live(e) by {
        if e != k {
            assert(v.in_scene(s, e));
        }
    }
    assert forall|s1: Entity, s2: Entity, e: Entity|
        #[trigger] v1.in_scene(s1, e) && #[trigger] v1.in_scene(s2, e) implies s1 == s2 by {
        if e != k {
            assert(v.in_scene(s1, e) && v.in_scene(s2, e));
        } else {
            assert(!v.in_scene(s1, e));
            assert(!v.in_scene(s2, e));
        }
    }
    assert(v1.scenes_wf());
}

proof fn lemma_deleted_wf(v0: StoreView, oid: Entity, vf: StoreView)
    requires
        v0.wf(),
        v0.live(oid),
        vf.agrees_but_children(v0.deleted(oid)),
        forall|q: Entity| q != 0 && q != oid ==> #[trigger] vf.child_set(q) == v0.child_set(q).remove(oid),
        vf.child_set(oid) == Set::<Entity>::empty(),
        vf.child_set(0) == v0.child_set(0).remove(oid).union(v0.child_set(oid)),
        forall|q: Entity| #[trigger] vf.children.contains_key(q) ==> q == 0 || (v0.children.contains_key(q) && q != oid),
    ensures
        vf.wf(),
{
    let d = v0.deleted(oid);
    assert forall|e: Entity| #[trigger] vf.parents.contains_key(e) implies 0 < e < vf.next by {
        assert(v0.parents.contains_key(e));
    }
    assert forall|i: int| 0 <= i < vf.freelist.len() implies 0 < #[trigger] vf.freelist[i] < vf.next
        && !vf.live(vf.freelist[i]) by {
        if i < v0.freelist.len() {
            assert(vf.freelist[i] == v0.freelist[i]);
        }
    }
    assert forall|i: int, j: int| 0 <= i < j < vf.freelist.len() implies vf.freelist[i] != vf.freelist[j] by {
        if j == v0.freelist.len() {
            assert(vf.freelist[i] == v0.freelist[i]);
            assert(!v0.live(v0.freelist[i]));
        } else {
            assert(vf.freelist[i] == v0.freelist[i] && vf.freelist[j] == v0.freelist[j]);
        }
    }
    assert(vf.ids_wf());
    assert forall|c: Entity| #[trigger] vf.parents.contains_key(c) implies vf.parents[c] != c && (
    vf.parents[c] == 0 || vf.live(vf.parents[c])) by {
        assert(v0.parents.contains_key(c));
    }
    assert(vf.parents_wf());
    assert forall|q: Entity, c: Entity| #[trigger] vf.child_set(q).contains(c)
        <==> vf.live(c) && vf.parents[c] == q by {
        assert(v0.child_set(q).contains(c) <==> v0.live(c) && v0.parents[c] == q);
        assert(v0.child_set(oid).contains(c) <==> v0.live(c) && v0.parents[c] == oid);
        assert(v0.child_set(0).contains(c) <==> v0.live(c) && v0.parents[c] == 0);
    }
    assert(vf.children_wf());
    assert forall|s: Entity, e: Entity| #[trigger] vf.in_scene(s, e) implies vf.live(e) by {
        assert(v0.in_scene(s, e));
    }
    assert forall|s1: Entity, s2: Entity, e: Entity|
        #[trigger] vf.in_scene(s1, e) && #[trigger] vf.in_scene(s2, e) implies s1 == s2 by {
        assert(v0.in_scene(s1, e) && v0.in_scene(s2, e));
    }
    assert(vf.scenes_wf());
}

proof fn lemma_reparented_wf(v: StoreView, key: Entity, p: Entity)
    requires
        v.wf(),
        v.reparent_ok(key, p),
    ensures
        v.reparented(key, p).wf(),
{
    let v1 = v.reparented(key, p);
    assert(p != key);
    assert forall|e: Entity| #[trigger] v1.parents.contains_key(e) implies 0 < e < v1.next by {
        assert(v.parents.contains_key(e));
    }
    assert forall|i: int| 0 <= i < v1.freelist.len() implies 0 < #[trigger] v1.freelist[i] < v1.next
        && !v1.live(v1.freelist[i]) by {
    }
    assert(v1.ids_wf());
    assert forall|c: Entity| #[trigger] v1.parents.contains_key(c) implies v1.parents[c] != c && (
    v1.parents[c] == 0 || v1.live(v1.parents[c])) by {
        assert(v.parents.contains_key(c));
    }
    assert forall|q: Entity, c: Entity| #[trigger] v1.child_set(q).contains(c)
        <==> v1.live(c) && v1.parents[c] == q by {
        assert(v.child_set(q).contains(c) <==> v.live(c) && v.parents[c] == q);
        assert(v.child_set(v.parents[key]).contains(key));
    }
    assert(v1.children_wf());
    assert forall|s: Entity, e: Entity| #[trigger] v1.in_scene(s, e) implies v1.live(e) by {
        assert(v.in_scene(s, e));
    }
    assert forall|s1: Entity, s2: Entity, e: Entity|
        #[trigger] v1.in_scene(s1, e) && #[trigger] v1.in_scene(s2, e) implies s1 == s2 by {
        assert(v.in_scene(s1, e) && v.in_scene(s2, e));
    }
}

proof fn lemma_without_member_wf(v: StoreView, e: Entity)
    requires
        v.wf(),
    ensures
        v.without_member(e).wf(),
        forall|s: Entity, x: Entity| #[trigger] v.without_member(e).in_scene(s, x) <==> v.in_scene(s, x) && x != e,
{
    let v1 = v.without_member(e);
    assert forall|s: Entity, x: Entity| #[trigger] v1.in_scene(s, x) <==> v.in_scene(s, x) && x != e by {
    }
    assert forall|e2: Entity| #[trigger] v1.parents.contains_key(e2) implies 0 < e2 < v1.next by {
        assert(v.parents.contains_key(e2));
    }
    assert forall|c: Entity| #[trigger] v1.parents.contains_key(c) implies v1.parents[c] != c && (
    v1.parents[c] == 0 || v1.live(v1.parents[c])) by {
        assert(v.parents.contains_key(c));
    }
    assert forall|q: Entity, c: Entity| #[trigger] v1.child_set(q).contains(c)
        <==> v1.live(c) && v1.parents[c] == q by {
        assert(v.child_set(q).contains(c) <==> v.live(c) && v.parents[c] == q);
    }
    assert forall|s: Entity, x: Entity| #[trigger] v1.in_scene(s, x) implies v1.live(x) by {
        assert(v.in_scene(s, x));
    }
    assert forall|s1: Entity, s2: Entity, x: Entity|
        #[trigger] v1.in_scene(s1, x) && #[trigger] v1.in_scene(s2, x) implies s1 == s2 by {
        assert(v.in_scene(s1, x) && v.in_scene(s2, x));
    }
}

proof fn lemma_with_member_wf(v: StoreView, s: Entity, e: Entity)
    requires
        v.wf(),
        v.scenes.contains_key(s),
        v.live(e),
        forall|s2: Entity| !(#[trigger] v.in_scene(s2, e)),
    ensures
        v.with_member(s, e).wf(),
{
    let v1 = v.with_member(s, e);
    assert forall|e2: Entity| #[trigger] v1.parents.contains_key(e2) implies 0 < e2 < v1.next by {
        assert(v.parents.contains_key(e2));
    }
    assert forall|c: Entity| #[trigger] v1.parents.contains_key(c) implies v1.parents[c] != c && (
    v1.parents[c] == 0 || v1.live(v1.parents[c])) by {
        assert(v.parents.contains_key(c));
    }
    assert forall|q: Entity, c: Entity| #[trigger] v1.child_set(q).contains(c)
        <==> v1.live(c) && v1.parents[c] == q by {
        assert(v.child_set(q).contains(c) <==> v.live(c) && v.parents[c] == q);
    }
    assert forall|s2: Entity, x: Entity| #[trigger] v1.in_scene(s2, x) implies v1.live(x) by {
        if x != e {
            assert(v.in_scene(s2, x));
        }
    }
    assert forall|s1: Entity, s2: Entity, x: Entity|
        #[trigger] v1.in_scene(s1, x) && #[trigger] v1.in_scene(s2, x) implies s1 == s2 by {
        if x != e {
            assert(v.in_scene(s1, x) && v.in_scene(s2, x));
        } else {
            assert(!v.in_scene(s1, x) && !v.in_scene(s2, x));
        }
    }
}

proof fn lemma_joined_wf(v: StoreView, e: Entity, like: Entity)
    requires
        v.wf(),
        v.live(e),
        e != like,
        forall|s2: Entity| !(#[trigger] v.in_scene(s2, e)),
    ensures
        v.joined(e, like).wf(),
{
    let v1 = v.joined(e, like);
    assert forall|s: Entity, x: Entity| #[trigger] v1.in_scene(s, x) <==> v.in_scene(s, x) || (x == e
        && v.in_scene(s, like)) by {
    }
    assert forall|e2: Entity| #[trigger] v1.parents.contains_key(e2) implies 0 < e2 < v1.next by {
        assert(v.parents.contains_key(e2));
    }
    assert forall|c: Entity| #[trigger] v1.parents.contains_key(c) implies v1.parents[c] != c && (
    v1.parents[c] == 0 || v1.live(v1.parents[c])) by {
        assert(v.parents.contains_key(c));
    }
    assert forall|q: Entity, c: Entity| #[trigger] v1.child_set(q).contains(c)
        <==> v1.live(c) && v1.parents[c] == q by {
        assert(v.child_set(q).contains(c) <==> v.live(c) && v.parents[c] == q);
    }
    assert forall|s2: Entity, x: Entity| #[trigger] v1.in_scene(s2, x) implies v1.live(x) by {
        if x != e {
            assert(v.in_scene(s2, x));
        }
    }
    assert forall|s1: Entity, s2: Entity, x: Entity|
        #[trigger] v1.in_scene(s1, x) && #[trigger] v1.in_scene(s2, x) implies s1 == s2 by {
        if x != e {
            assert(v.in_scene(s1, x) && v.in_scene(s2, x));
        } else {
            assert(v.in_scene(s1, like) && v.in_scene(s2, like));
        }
    }
}

/// The entity/object store at the root of every other system.
pub struct CommonData {
    last_oid: Entity,
    objects: Table<Object>,
    parent_child: Table<BTreeSet<Entity>>,
    scene_children: Table<BTreeSet<Entity>>,
    freelist: Vec<Entity>,
}

impl Delete for CommonData {
    /// Deletes the object `oid`. Its children stay where they are in every
    /// scene but lose their parent; returns whether `oid` was live.
    fn delete(&mut self, oid: Entity) -> (r: bool)
        ensures
            r == old(self)@.live(oid),
            !r ==> final(self)@ == old(self)@,
            old(self)@.wf() ==> final(self)@.wf(),
            old(self)@.wf() && r ==> final(self)@.agrees_but_children(old(self)@.deleted(oid)),
    {
        let o = match self.objects.get(oid) {
            Some(o) => *o,
            None => {
                return false;
            },
        };
        let ghost v0 = self@;
        self.freelist.push(oid);
        self.objects.remove(oid);
        let kids = self.parent_child.take(oid);
        self.scene_children.remove(oid);
        self.detach(o.parent, oid);
        self.evict_member(oid);
        let ghost mid = self@;
        let kid_list = match kids {
            Some(set) => sorted_members(&set),
            None => Vec::new(),
        };
        proof {
            if v0.wf() {
                assert(kid_list@.to_set() =~= v0.child_set(oid));
                assert forall|j: int| 0 <= j < kid_list.len() implies mid.live(#[trigger] kid_list@[j]) by {
                    assert(kid_list@.to_set().contains(kid_list@[j]));
                    assert(v0.child_set(oid).contains(kid_list@[j]));
                }
                assert(mid.scenes =~= v0.deleted(oid).scenes);
                assert forall|q: Entity| q != oid implies #[trigger] mid.child_set(q)
                    =~= v0.child_set(q).remove(oid) by {
                    if q != o.parent {
                        assert(!v0.child_set(q).contains(oid));
                    }
                }
            }
        }
        let mut i: usize = 0;
        while i < kid_list.len()
            invariant
                i <= kid_list.len(),
                kid_list@.no_duplicates(),
                self@.next == mid.next,
                self@.freelist == mid.freelist,
                self@.scenes == mid.scenes,
                v0.wf() ==> self@.parents.dom() =~= mid.parents.dom(),
                v0.wf() ==> forall|j: int| 0 <= j < kid_list.len() ==> mid.live(#[trigger] kid_list@[j]),
                forall|e: Entity| #[trigger] mid.parents.contains_key(e) ==> self@.parents[e] == (if kid_list@.take(i as int).contains(e) {
                    0
                } else {
                    mid.parents[e]
                }),
                forall|q: Entity| q != 0 ==> #[trigger] self@.child_set(q) == mid.child_set(q),
                self@.child_set(0) == mid.child_set(0).union(kid_list@.take(i as int).to_set()),
                forall|q: Entity| #[trigger] self@.children.contains_key(q) ==> q == 0 || mid.children.contains_key(q),
            decreases kid_list.len() - i,
        {
            let c = kid_list[i];
            let ghost before = self@;
            let ghost prev = kid_list@.take(i as int);
            self.objects.insert(c, Object { parent: 0 });
            assert(self@.parents =~= before.parents.insert(c, 0));
            self.update_parent_child(0, c);
            assert forall|q: Entity| q != 0 implies #[trigger] self@.child_set(q) == before.child_set(q) by {
                assert(self@.children.contains_key(q) == before.children.contains_key(q));
            }
            i = i + 1;
            assert(kid_list@.take(i as int) =~= prev.push(c));
            proof {
                prev.lemma_push_to_set_commute(c);
            }
            assert forall|e: Entity| #[trigger] mid.parents.contains_key(e) implies self@.parents[e] == (
            if kid_list@.take(i as int).contains(e) {
                0
            } else {
                mid.parents[e]
            }) by {
                vstd::seq_lib::lemma_seq_contains_after_push(prev, c, e);
                assert(before.parents[e] == (if prev.contains(e) { 0 } else { mid.parents[e] }));
            }
            assert(self@.child_set(0) == before.child_set(0).insert(c));
            assert(self@.child_set(0) =~= mid.child_set(0).union(kid_list@.take(i as int).to_set()));
        }
        proof {
            if v0.wf() {
                assert(kid_list@.take(kid_list.len() as int) =~= kid_list@);
                let vf = self@;
                assert forall|e: Entity| mid.parents.contains_key(e) implies (kid_list@.contains(e)
                    <==> v0.parents[e] == oid) by {
                    if kid_list@.contains(e) {
                        assert(kid_list@.to_set().contains(e));
                    }
                    if v0.parents[e] == oid {
                        assert(v0.child_set(oid).contains(e));
                        assert(kid_list@.to_set().contains(e));
                    }
                }
                assert(vf.parents =~= v0.deleted(oid).parents);
                assert(vf.child_set(0) =~= v0.child_set(0).remove(oid).union(v0.child_set(oid)));
                lemma_deleted_wf(v0, oid, vf);
            }
        }
        true
    }
}

impl Duplicate for CommonData {
    /// Gives `dst` the parent of `src` and the scenes `src` belongs to.
    /// Nothing changes unless both are live and distinct and `dst` is not
    /// an ancestor of `src`'s parent.
    fn duplicate(&mut self, src: Entity, dst: Entity)
        ensures
            old(self)@.wf() ==> final(self)@.wf(),
            old(self)@.wf() && old(self)@.duplicate_ok(src, dst) ==> final(self)@.agrees_but_children(
                old(self)@.duplicated(src, dst),
            ),
            !old(self)@.duplicate_ok(src, dst) ==> final(self)@ == old(self)@,
    {
        if src == dst || !self.objects.contains(dst) {
            return;
        }
        let p = match self.objects.get(src) {
            Some(o) => o.parent,
            None => {
                return;
            },
        };
        if p != 0 && !self.objects.contains(p) {
            return;
        }
        if self.is_ancestor(dst, p) {
            return;
        }
        let ghost v0 = self@;
        self.reparent(dst, p);
        self.evict_member(dst);
        self.join_member(dst, src);
        proof {
            if v0.wf() {
                lemma_reparented_wf(v0, dst, p);
                let v1 = v0.reparented(dst, p);
                lemma_without_member_wf(v1, dst);
                let v2 = v1.without_member(dst);
                lemma_joined_wf(v2, dst, src);
                assert(v2.joined(dst, src).scenes == v0.duplicated(src, dst).scenes);
            }
        }
    }
}

impl Clone for CommonData {
    /// An independent store in the same state.
    fn clone(&self) -> (r: Self)
        ensures
            r@ == self@,
    {
        let r = CommonData {
            last_oid: self.last_oid,
            objects: self.objects.clone(),
            parent_child: self.parent_child.clone(),
            scene_children: self.scene_children.clone(),
            freelist: self.freelist.clone(),
        };
        assert(r.freelist@ =~= self.freelist@);
        r
    }
}

impl View for CommonData {
    type V = StoreView;

    closed spec fn view(&self) -> StoreView {
        StoreView {
            next: self.last_oid,
            parents: self.objects@.map_values(|o: Object| o.parent),
            children: self.parent_child@.map_values(|s: BTreeSet<Entity>| s@),
            scenes: self.scene_children@.map_values(|s: BTreeSet<Entity>| s@),
            freelist: self.freelist@,
        }
    }
}

impl CommonData {
    /// An empty store.
    pub fn new() -> (r: CommonData)
        ensures
            r@.wf(),
            r@.next == 1,
            r@.parents == Map::<Entity, Entity>::empty(),
            r@.children == Map::<Entity, Set<Entity>>::empty(),
            r@.scenes == Map::<Entity, Set<Entity>>::empty(),
            r@.freelist == Seq::<Entity>::empty(),
    {
        let r = CommonData {
            last_oid: 1,
            objects: Table::new(),
            parent_child: Table::new(),
            scene_children: Table::new(),
            freelist: Vec::new(),
        };
        assert(r@.parents =~= Map::empty());
        assert(r@.children =~= Map::empty());
        assert(r@.scenes =~= Map::empty());
        r
    }

    /// Hands out the most recently freed identifier, or else the counter.
    fn new_key(&mut self) -> (r: Entity)
        requires
            old(self)@.can_allocate(),
        ensures
            r == old(self)@.next_key(),
            final(self)@ == old(self)@.after_alloc(),
    {
        match self.freelist.pop() {
            Some(k) => k,
            None => {
                let k = self.last_oid;
                self.last_oid = self.last_oid + 1;
                k
            },
        }
    }

    /// Records `child` under `parent` in the parent/child index.
    fn update_parent_child(&mut self, parent: Entity, child: Entity)
        ensures
            final(self)@ == old(self)@.with_child(parent, child),
    {
        let mut set = match self.parent_child.take(parent) {
            Some(s) => s,
            None => BTreeSet::new(),
        };
        set.insert(child);
        self.parent_child.insert(parent, set);
        assert(self@.children =~= old(self)@.children.insert(parent, old(self)@.child_set(parent).insert(child)));
    }

    /// The nearest scene at or above `start`.
    fn find_scene(&self, start: Entity) -> (r: Option<Entity>)
        ensures
            r == self@.nearest_scene(start),
    {
        let mut x = start;
        let mut fuel: u64 = WALK_LIMIT;
        loop
            invariant
                scene_walk(self@.parents, self@.scenes.dom(), x, fuel as nat)
                    == self@.nearest_scene(start),
            decreases fuel,
        {
            if x == 0 {
                return None;
            }
            if self.scene_children.contains(x) {
                return Some(x);
            }
            if fuel == 0 {
                return None;
            }
            match self.objects.get(x) {
                None => {
                    return None;
                },
                Some(o) => {
                    x = o.parent;
                    fuel = fuel - 1;
                },
            }
        }
    }

    /// Creates an object. With a parent the object is owned by it, and it
    /// joins the nearest scene at or above that parent.
    pub fn new_object(&mut self, parent: Option<Entity>) -> (r: Entity)
        requires
            old(self)@.wf(),
            old(self)@.can_allocate(),
            old(self)@.parent_ok(parent_or_root(parent)),
        ensures
            final(self)@.wf(),
            r == old(self)@.next_key(),
            r != 0,
            !old(self)@.live(r),
            final(self)@ == old(self)@.created(parent_or_root(parent), r),
    {
        let ghost v0 = self@;
        let p = match parent {
            Some(key) => key,
            None => 0,
        };
        let scene_id = self.find_scene(p);
        proof {
            lemma_scene_walk_is_scene(v0.parents, v0.scenes.dom(), p, WALK_LIMIT as nat);
        }
        let new_key = self.new_key();
        self.objects.insert(new_key, Object { parent: p });
        self.update_parent_child(p, new_key);
        match scene_id {
            Some(id) => {
                self.add_member(id, new_key);
            },
            None => {},
        }
        proof {
            let v1 = v0.created(p, new_key);
            assert(self@.parents =~= v1.parents);
            assert(self@ == v1);
            lemma_created_wf(v0, p);
        }
        new_key
    }

    /// Creates a scene: a parentless object that owns an empty membership set.
    pub fn new_scene(&mut self) -> (r: Scene)
        requires
            old(self)@.wf(),
            old(self)@.can_allocate(),
        ensures
            final(self)@.wf(),
            r.0 == old(self)@.next_key(),
            r.0 != 0,
            !old(self)@.live(r.0),
            final(self)@ == old(self)@.scene_created(r.0),
    {
        let oid = self.new_object(None);
        self.scene_children.insert(oid, BTreeSet::new());
        proof {
            let c = old(self)@.created(0, oid);
            assert(self@.scenes =~= c.scenes.insert(oid, Set::empty()));
            let v = self@;
            assert(c.wf());
            assert(v.parents == c.parents && v.freelist == c.freelist && v.next == c.next);
            assert forall|s: Entity, e: Entity| #[trigger] v.in_scene(s, e) implies v.live(e) by {
                assert(c.in_scene(s, e));
            }
            assert forall|s1: Entity, s2: Entity, e: Entity|
                #[trigger] v.in_scene(s1, e) && #[trigger] v.in_scene(s2, e) implies s1 == s2 by {
                assert(c.in_scene(s1, e) && c.in_scene(s2, e));
            }
            assert forall|q: Entity, e: Entity| #[trigger] v.child_set(q).contains(e)
                <==> v.live(e) && v.parents[e] == q by {
                assert(c.child_set(q).contains(e) <==> c.live(e) && c.parents[e] == q);
            }
        }
        Scene(oid)
    }

    /// The members of `scene`, in increasing order.
    pub fn scene_iter(&self, scene: Scene) -> (r: Vec<Entity>)
        requires
            self@.scenes.contains_key(scene.0),
        ensures
            r@.to_set() == self@.scenes[scene.0],
            r@.no_duplicates(),
            strictly_increasing(r@),
    {
        match self.scene_children.get(scene.0) {
            Some(set) => sorted_members(set),
            None => Vec::new(),
        }
    }

    /// The parent of `key`, if it is live.
    pub fn get(&self, key: Entity) -> (r: Option<Parent<Entity>>)
        ensures
            r == (if self@.live(key) { Some(Parent(self@.parents[key])) } else { None }),
    {
        match self.objects.get(key) {
            Some(o) => Some(Parent(o.parent)),
            None => None,
        }
    }

    /// Takes `e` out of the members of every scene.
    fn evict_member(&mut self, e: Entity)
        ensures
            final(self)@ == old(self)@.without_member(e),
    {
        let keys = self.scene_children.keys();
        let ghost s0 = self.scene_children@;
        let mut i: usize = 0;
        while i < keys.len()
            invariant
                i <= keys.len(),
                keys@.to_set() == s0.dom(),
                keys@.no_duplicates(),
                s0 == old(self).scene_children@,
                self.last_oid == old(self).last_oid,
                self.objects@ == old(self).objects@,
                self.parent_child@ == old(self).parent_child@,
                self.freelist@ == old(self).freelist@,
                self.scene_children@.dom() == s0.dom(),
                forall|j: int| 0 <= j < i ==> #[trigger] self.scene_children@[keys@[j]]@
                    == s0[keys@[j]]@.remove(e),
                forall|j: int| i <= j < keys.len() ==> #[trigger] self.scene_children@[keys@[j]]
                    == s0[keys@[j]],
            decreases keys.len() - i,
        {
            let s = keys[i];
            assert(keys@.to_set().contains(s));
            let mut set = match self.scene_children.take(s) {
                Some(m) => m,
                None => BTreeSet::new(),
            };
            set.remove(&e);
            self.scene_children.insert(s, set);
            i = i + 1;
        }
        proof {
            let target = old(self)@.without_member(e).scenes;
            assert forall|s: Entity| #[trigger] s0.contains_key(s) implies self@.scenes[s]
                == target[s] by {
                assert(keys@.to_set().contains(s));
                let j = choose|j: int| 0 <= j < keys@.len() && keys@[j] == s;
                assert(self.scene_children@[keys@[j]]@ == s0[keys@[j]]@.remove(e));
            }
            assert(self@.scenes =~= target);
        }
    }

    /// Takes `child` out of the children recorded under `parent`.
    fn detach(&mut self, parent: Entity, child: Entity)
        ensures
            final(self)@ == old(self)@.without_child(parent, child),
    {
        match self.parent_child.take(parent) {
            Some(mut set) => {
                set.remove(&child);
                self.parent_child.insert(parent, set);
                assert(self@.children =~= old(self)@.children.insert(
                    parent,
                    old(self)@.children[parent].remove(child),
                ));
            },
            None => {
                assert(self.parent_child@ =~= old(self).parent_child@);
            },
        }
    }

    /// Whether `a` is `x` or one of its ancestors.
    fn is_ancestor(&self, a: Entity, x: Entity) -> (r: bool)
        ensures
            r == self@.is_ancestor(a, x),
    {
        let mut y = x;
        let mut fuel: u64 = WALK_LIMIT;
        loop
            invariant
                walk_meets(self@.parents, y, a, fuel as nat) == self@.is_ancestor(a, x),
            decreases fuel,
        {
            if y == a {
                return true;
            }
            if y == 0 || fuel == 0 {
                return false;
            }
            match self.objects.get(y) {
                None => {
                    return false;
                },
                Some(o) => {
                    y = o.parent;
                    fuel = fuel - 1;
                },
            }
        }
    }

    /// Moves `key` under `p` in the records and the parent/child index.
    fn reparent(&mut self, key: Entity, p: Entity)
        requires
            old(self)@.live(key),
        ensures
            final(self)@ == old(self)@.reparented(key, p),
    {
        let old_parent = match self.objects.get(key) {
            Some(o) => o.parent,
            None => 0,
        };
        self.objects.insert(key, Object { parent: p });
        self.detach(old_parent, key);
        self.update_parent_child(p, key);
        let ghost v0 = old(self)@;
        assert(self@.parents =~= v0.parents.insert(key, p));
    }

    /// Adds `e` to every scene that `like` belongs to.
    fn join_member(&mut self, e: Entity, like: Entity)
        ensures
            final(self)@ == old(self)@.joined(e, like),
    {
        let keys = self.scene_children.keys();
        let ghost s0 = self.scene_children@;
        let mut i: usize = 0;
        while i < keys.len()
            invariant
                i <= keys.len(),
                keys@.to_set() == s0.dom(),
                keys@.no_duplicates(),
                s0 == old(self).scene_children@,
                self.last_oid == old(self).last_oid,
                self.objects@ == old(self).objects@,
                self.parent_child@ == old(self).parent_child@,
                self.freelist@ == old(self).freelist@,
                self.scene_children@.dom() == s0.dom(),
                forall|j: int| 0 <= j < i ==> #[trigger] self.scene_children@[keys@[j]]@
                    == (if s0[keys@[j]]@.contains(like) { s0[keys@[j]]@.insert(e) } else { s0[keys@[j]]@ }),
                forall|j: int| i <= j < keys.len() ==> #[trigger] self.scene_children@[keys@[j]]
                    == s0[keys@[j]],
            decreases keys.len() - i,
        {
            let s = keys[i];
            assert(keys@.to_set().contains(s));
            let mut set = match self.scene_children.take(s) {
                Some(m) => m,
                None => BTreeSet::new(),
            };
            if set.contains(&like) {
                set.insert(e);
            }
            self.scene_children.insert(s, set);
            i = i + 1;
        }
        proof {
            let target = old(self)@.joined(e, like).scenes;
            assert forall|s: Entity| #[trigger] s0.contains_key(s) implies self@.scenes[s]
                == target[s] by {
                assert(keys@.to_set().contains(s));
                let j = choose|j: int| 0 <= j < keys@.len() && keys@[j] == s;
                assert(self.scene_children@[keys@[j]]@ == (if s0[keys@[j]]@.contains(like) {
                    s0[keys@[j]]@.insert(e)
                } else {
                    s0[keys@[j]]@
                }));
            }
            assert(self@.scenes =~= target);
        }
    }

    /// Sets the parent of `key` to `p`, keeping the indices in step: `key`
    /// leaves its scene and joins the nearest scene at or above `p`. Nothing
    /// changes unless `key` is live, `p` is `0` or live, and `key` is not
    /// `p` or one of its ancestors.
    pub fn set(&mut self, key: Entity, value: Parent<Entity>)
        requires
            old(self)@.wf(),
        ensures
            final(self)@.wf(),
            old(self)@.reparent_ok(key, value.0) ==> final(self)@.agrees_but_children(
                old(self)@.moved(key, value.0),
            ),
            !old(self)@.reparent_ok(key, value.0) ==> final(self)@ == old(self)@,
    {
        let p = value.0;
        if !self.objects.contains(key) {
            return;
        }
        if p != 0 && !self.objects.contains(p) {
            return;
        }
        if self.is_ancestor(key, p) {
            return;
        }
        let ghost v0 = self@;
        let scene_id = self.find_scene(p);
        proof {
            lemma_scene_walk_is_scene(v0.parents, v0.scenes.dom(), p, WALK_LIMIT as nat);
        }
        self.reparent(key, p);
        self.evict_member(key);
        match scene_id {
            Some(id) => {
                self.add_member(id, key);
            },
            None => {},
        }
        proof {
            lemma_reparented_wf(v0, key, p);
            let v1 = v0.reparented(key, p);
            let v2 = v1.without_member(key);
            lemma_without_member_wf(v1, key);
            assert(v2.scenes == v0.without_member(key).scenes);
            if let Some(s) = v0.nearest_scene(p) {
                lemma_with_member_wf(v2, s, key);
            }
        }
    }

    /// Adds `e` to the members of the scene `s`.
    fn add_member(&mut self, s: Entity, e: Entity)
        requires
            old(self)@.scenes.contains_key(s),
        ensures
            final(self)@ == old(self)@.with_member(s, e),
    {
        let mut set = match self.scene_children.take(s) {
            Some(m) => m,
            None => BTreeSet::new(),
        };
        set.insert(e);
        self.scene_children.insert(s, set);
        assert(self@.scenes =~= old(self)@.scenes.insert(s, old(self)@.scenes[s].insert(e)));
    }
}

} // verus!

verus! {

/// Whether scene membership is exactly what walking up the hierarchy gives:
/// an entity belongs to a scene iff that scene is the nearest one at or
/// above its parent.
pub open spec fn membership_exact(v: StoreView) -> bool {
    forall|s: Entity, e: Entity| #[trigger] v.in_scene(s, e)
        <==> v.live(e) && v.nearest_scene(v.parents[e]) == Some(s)
}

/// In a well-formed store the next identifier is nonzero and held by no
/// live entity, so every allocation is unique among the live entities.
pub proof fn lemma_allocation_is_fresh(v: StoreView)
    requires
        v.wf(),
        v.can_allocate(),
    ensures
        v.next_key() != 0,
        !v.live(v.next_key()),
        v.created(0, v.next_key()).live(v.next_key()),
{
    if v.freelist.len() > 0 {
        assert(v.freelist[v.freelist.len() - 1] == v.next_key());
    }
}

/// After `oid` is deleted it is the next identifier handed out, and the
/// object created under it starts clean: it has the parent it was given,
/// no children, and belongs to no scene but the one found from its parent.
pub proof fn lemma_reuse_starts_clean(v: StoreView, oid: Entity, d: StoreView, p: Entity)
    requires
        v.wf(),
        v.live(oid),
        d.wf(),
        d.agrees_but_children(v.deleted(oid)),
        d.parent_ok(p),
    ensures
        d.next_key() == oid,
        d.created(p, oid).parents[oid] == p,
        d.created(p, oid).child_set(oid) == Set::<Entity>::empty(),
        forall|s: Entity| #[trigger] d.created(p, oid).in_scene(s, oid) <==> d.nearest_scene(p) == Some(s),
{
    let c = d.created(p, oid);
    assert(d.freelist.last() == oid);
    assert(!d.live(oid));
    lemma_created_wf(d, p);
    assert forall|x: Entity| !c.child_set(oid).contains(x) by {
        if c.child_set(oid).contains(x) {
            assert(c.parents[x] == oid);
            assert(x != oid);
            assert(d.live(x));
        }
    }
    assert(c.child_set(oid) =~= Set::<Entity>::empty());
    assert forall|s: Entity| #[trigger] c.in_scene(s, oid) <==> d.nearest_scene(p) == Some(s) by {
        assert(!d.in_scene(s, oid));
        lemma_scene_walk_is_scene(d.parents, d.scenes.dom(), p, WALK_LIMIT as nat);
    }
}

/// Walks that never reach `k` are the same in two states that differ only at `k`.
proof fn lemma_walk_frame(
    before: Map<Entity, Entity>,
    scenes_before: Set<Entity>,
    after: Map<Entity, Entity>,
    scenes_after: Set<Entity>,
    k: Entity,
    x: Entity,
    fuel: nat,
)
    requires
        x != k,
        forall|y: Entity| y != k ==> before.contains_key(y) == #[trigger] after.contains_key(y),
        forall|y: Entity| y != k && #[trigger] before.contains_key(y) ==> before[y] == after[y] && before[y] != k,
        forall|y: Entity| y != k ==> scenes_before.contains(y) == #[trigger] scenes_after.contains(y),
    ensures
        scene_walk(before, scenes_before, x, fuel) == scene_walk(after, scenes_after, x, fuel),
    decreases fuel,
{
    if x != 0 && !scenes_before.contains(x) && fuel > 0 && before.contains_key(x) {
        lemma_walk_frame(before, scenes_before, after, scenes_after, k, before[x], (fuel - 1) as nat);
    }
}

/// An empty store's membership is exact.
pub proof fn lemma_membership_exact_at_start(v: StoreView)
    requires
        v.parents == Map::<Entity, Entity>::empty(),
        v.scenes == Map::<Entity, Set<Entity>>::empty(),
    ensures
        membership_exact(v),
{
}

/// Creating an object keeps membership exact: an entity is in a scene's
/// members iff walking up from it reaches that scene first.
pub proof fn lemma_create_keeps_membership_exact(v: StoreView, p: Entity)
    requires
        v.wf(),
        v.can_allocate(),
        v.parent_ok(p),
        membership_exact(v),
    ensures
        membership_exact(v.created(p, v.next_key())),
{
    let k = v.next_key();
    let c = v.created(p, k);
    lemma_allocation_is_fresh(v);
    lemma_scene_walk_is_scene(v.parents, v.scenes.dom(), p, WALK_LIMIT as nat);
    assert(c.scenes.dom() =~= v.scenes.dom());
    assert forall|s: Entity, e: Entity| #[trigger] c.in_scene(s, e)
        <==> c.live(e) && c.nearest_scene(c.parents[e]) == Some(s) by {
        if e != k {
            assert(v.in_scene(s, e) <==> v.live(e) && v.nearest_scene(v.parents[e]) == Some(s));
            if v.live(e) {
                lemma_walk_frame(v.parents, v.scenes.dom(), c.parents, c.scenes.dom(), k, v.parents[e], WALK_LIMIT as nat);
            }
        } else {
            assert(!v.in_scene(s, e));
            lemma_walk_frame(v.parents, v.scenes.dom(), c.parents, c.scenes.dom(), k, p, WALK_LIMIT as nat);
        }
    }
}

/// Creating a scene keeps membership exact.
pub proof fn lemma_new_scene_keeps_membership_exact(v: StoreView)
    requires
        v.wf(),
        v.can_allocate(),
        membership_exact(v),
    ensures
        membership_exact(v.scene_created(v.next_key())),
{
    let k = v.next_key();
    let c = v.created(0, k);
    let n = v.scene_created(k);
    lemma_create_keeps_membership_exact(v, 0);
    lemma_created_wf(v, 0);
    lemma_allocation_is_fresh(v);
    assert forall|s: Entity, e: Entity| #[trigger] n.in_scene(s, e)
        <==> n.live(e) && n.nearest_scene(n.parents[e]) == Some(s) by {
        assert(c.in_scene(s, e) <==> c.live(e) && c.nearest_scene(c.parents[e]) == Some(s));
        if e != k && c.live(e) {
            assert(c.parents[e] != k);
            lemma_walk_frame(c.parents, c.scenes.dom(), n.parents, n.scenes.dom(), k, c.parents[e], WALK_LIMIT as nat);
        }
    }
}

/// A deleted entity is no longer live, so deleting it again finds nothing
/// and leaves the store as it is.
pub proof fn lemma_delete_is_idempotent(v: StoreView, oid: Entity, d: StoreView)
    requires
        d.agrees_but_children(v.deleted(oid)),
    ensures
        !d.live(oid),
{
}

} // verus!
