use vstd::prelude::*;

use crate::archetype::ComponentValue;
use crate::entities::Entity;
use crate::world::World;

verus! {

/// Links an entity to its parent, its last child and its siblings.
#[derive(Clone, Copy, Debug, PartialEq, Eq, Structural)]
pub struct HierarchyNode {
    pub parent: Option<Entity>,
    pub last_child: Option<Entity>,
    pub next_sibling: Option<Entity>,
    pub previous_sibling: Option<Entity>,
}

impl HierarchyNode {
    pub fn parent(&self) -> (r: &Option<Entity>)
        ensures
            *r == self.parent,
    {
        &self.parent
    }

    pub fn last_child(&self) -> (r: &Option<Entity>)
        ensures
            *r == self.last_child,
    {
        &self.last_child
    }

    pub fn next_sibling(&self) -> (r: &Option<Entity>)
        ensures
            *r == self.next_sibling,
    {
        &self.next_sibling
    }

    pub fn previous_sibling(&self) -> (r: &Option<Entity>)
        ensures
            *r == self.previous_sibling,
    {
        &self.previous_sibling
    }
}


/// The component type id under which an entity's `HierarchyNode` is stored. Other
/// components use other ids.
pub const HIERARCHY_TYPE_ID: u64 = 0xffff_ffff_ffff_ffffu64;

/// The live entities of a world, each with its components (`None` while unplaced).
pub type WorldMap<V> = Map<Entity, Option<Map<u64, ComponentValue<V>>>>;

/// The hierarchy node of `e`, if it is live and has one.
pub open spec fn node_of<V>(m: WorldMap<V>, e: Entity) -> Option<HierarchyNode> {
    if m.contains_key(e) && m[e] is Some && m[e]->0.contains_key(HIERARCHY_TYPE_ID) {
        match m[e]->0[HIERARCHY_TYPE_ID] {
            ComponentValue::Hierarchy(n) => Some(n),
            ComponentValue::Value(_) => None,
        }
    } else {
        None
    }
}

/// Every component stored under the hierarchy id is a hierarchy node.
pub open spec fn hierarchy_typed<V>(m: WorldMap<V>) -> bool {
    forall|e: Entity|
        #[trigger] m.contains_key(e) && m[e] is Some && m[e]->0.contains_key(HIERARCHY_TYPE_ID)
            ==> m[e]->0[HIERARCHY_TYPE_ID] is Hierarchy
}

/// `m` with the hierarchy node of the live entity `e` set to `n`.
pub open spec fn with_node<V>(m: WorldMap<V>, e: Entity, n: HierarchyNode) -> WorldMap<V> {
    let comps = match m[e] {
        Some(c) => c,
        None => Map::empty(),
    };
    m.insert(e, Some(comps.insert(HIERARCHY_TYPE_ID, ComponentValue::Hierarchy(n))))
}

/// Every placed entity of `a` is placed in `b` with the same components besides its
/// hierarchy node.
pub open spec fn others_kept<V>(a: WorldMap<V>, b: WorldMap<V>) -> bool {
    forall|x: Entity| #[trigger] a.contains_key(x) && a[x] is Some ==> {
        &&& b.contains_key(x)
        &&& b[x] is Some
        &&& b[x]->0.remove(HIERARCHY_TYPE_ID) == a[x]->0.remove(HIERARCHY_TYPE_ID)
    }
}

proof fn lemma_with_node_keeps_others<V>(m: WorldMap<V>, e: Entity, n: HierarchyNode)
    ensures
        others_kept(m, with_node(m, e, n)),
{
    let w = with_node(m, e, n);
    assert forall|x: Entity| #[trigger] m.contains_key(x) && m[x] is Some implies {
        &&& w.contains_key(x)
        &&& w[x] is Some
        &&& w[x]->0.remove(HIERARCHY_TYPE_ID) == m[x]->0.remove(HIERARCHY_TYPE_ID)
    } by {
        if x == e {
            assert(w[x]->0.remove(HIERARCHY_TYPE_ID) =~= m[x]->0.remove(HIERARCHY_TYPE_ID));
        }
    }
}

proof fn lemma_others_kept_trans<V>(a: WorldMap<V>, b: WorldMap<V>, c: WorldMap<V>)
    requires
        others_kept(a, b),
        others_kept(b, c),
    ensures
        others_kept(a, c),
{
    assert forall|x: Entity| #[trigger] a.contains_key(x) && a[x] is Some implies {
        &&& c.contains_key(x)
        &&& c[x] is Some
        &&& c[x]->0.remove(HIERARCHY_TYPE_ID) == a[x]->0.remove(HIERARCHY_TYPE_ID)
    } by {
        assert(b.contains_key(x) && b[x] is Some);
    }
}

/// The hierarchy node of `e`, if it has one.
fn get_node<V>(world: &World<V>, e: Entity) -> (r: Option<HierarchyNode>)
    requires
        world.wf(),
    ensures
        r == node_of(world@, e),
{
    match world.get_component(e, HIERARCHY_TYPE_ID) {
        Some(ComponentValue::Hierarchy(n)) => Some(*n),
        _ => None,
    }
}

/// Sets the hierarchy node of the live entity `e` to `n`.
fn put_node<V>(world: &mut World<V>, e: Entity, n: HierarchyNode)
    requires
        old(world).wf(),
        old(world)@.contains_key(e),
    ensures
        final(world).wf(),
        final(world).cloners_spec() == old(world).cloners_spec(),
        final(world)@ == with_node(old(world)@, e, n),
        final(world).archetype_seq().len() <= old(world).archetype_seq().len() + 1,
{
    world.add_component_value(e, HIERARCHY_TYPE_ID, ComponentValue::Hierarchy(n));
}

proof fn lemma_with_node<V>(m: WorldMap<V>, e: Entity, n: HierarchyNode)
    requires
        m.contains_key(e),
        hierarchy_typed(m),
    ensures
        hierarchy_typed(with_node(m, e, n)),
        with_node(m, e, n).dom() == m.dom(),
        forall|x: Entity| #[trigger] node_of(with_node(m, e, n), x) == if x == e { Some(n) } else { node_of(m, x) },
{
    let w = with_node(m, e, n);
    assert(w.dom() =~= m.dom());
    assert forall|x: Entity| #[trigger] w.contains_key(x) && w[x] is Some && w[x]->0.contains_key(HIERARCHY_TYPE_ID)
        implies w[x]->0[HIERARCHY_TYPE_ID] is Hierarchy by {
        if x != e {
            assert(m.contains_key(x));
        }
    }
}

/// What `remove_child` does to the world: the child leaves its parent's list of children.
pub open spec fn spec_remove_child<V>(m: WorldMap<V>, parent: Entity, child: Entity) -> WorldMap<V> {
    let c = node_of(m, child)->0;
    let m1 = with_node(m, child, HierarchyNode { parent: None, next_sibling: None, previous_sibling: None, ..c });
    let m2 = match c.previous_sibling {
        Some(pv) => with_node(m1, pv, HierarchyNode { next_sibling: c.next_sibling, ..node_of(m1, pv)->0 }),
        None => m1,
    };
    match c.next_sibling {
        Some(nx) => with_node(m2, nx, HierarchyNode { previous_sibling: c.previous_sibling, ..node_of(m2, nx)->0 }),
        None => with_node(m2, parent, HierarchyNode { last_child: c.previous_sibling, ..node_of(m2, parent)->0 }),
    }
}

/// `remove_child` can run: the entities it links again have hierarchy nodes.
pub open spec fn remove_child_ok<V>(m: WorldMap<V>, parent: Entity, child: Entity) -> bool {
    let c = node_of(m, child)->0;
    node_of(m, child) is Some && c.parent == Some(parent) ==> {
        &&& c.previous_sibling is Some ==> node_of(m, c.previous_sibling->0) is Some
        &&& c.next_sibling is Some ==> node_of(m, c.next_sibling->0) is Some
        &&& c.next_sibling is None ==> node_of(m, parent) is Some
    }
}

/// Removes `child` from the children of `parent`: `Err` if the child has no hierarchy node
/// or its parent is not `parent`.
pub fn remove_child<V>(world: &mut World<V>, parent: Entity, child: Entity) -> (r: Result<(), ()>)
    requires
        old(world).wf(),
        hierarchy_typed(old(world)@),
        remove_child_ok(old(world)@, parent, child),
    ensures
        final(world).wf(),
        final(world).cloners_spec() == old(world).cloners_spec(),
        hierarchy_typed(final(world)@),
        r is Ok <==> (node_of(old(world)@, child) matches Some(c) && c.parent == Some(parent)),
        r is Err ==> final(world)@ == old(world)@,
        r is Ok ==> final(world)@ == spec_remove_child(old(world)@, parent, child),
        final(world).archetype_seq().len() <= old(world).archetype_seq().len() + 4,
{
    let ghost m = world@;
    let c = match get_node(world, child) {
        Some(c) => c,
        None => {
            return Err(());
        },
    };
    if c.parent != Some(parent) {
        return Err(());
    }
    put_node(world, child, HierarchyNode { parent: None, next_sibling: None, previous_sibling: None, ..c });
    let ghost m1 = world@;
    proof {
        lemma_with_node(m, child, HierarchyNode { parent: None, next_sibling: None, previous_sibling: None, ..c });
    }
    if let Some(pv) = c.previous_sibling {
        let n = get_node(world, pv).unwrap();
        put_node(world, pv, HierarchyNode { next_sibling: c.next_sibling, ..n });
        proof {
            lemma_with_node(m1, pv, HierarchyNode { next_sibling: c.next_sibling, ..n });
        }
    }
    let ghost m2 = world@;
    if let Some(nx) = c.next_sibling {
        let n = get_node(world, nx).unwrap();
        put_node(world, nx, HierarchyNode { previous_sibling: c.previous_sibling, ..n });
        proof {
            lemma_with_node(m2, nx, HierarchyNode { previous_sibling: c.previous_sibling, ..n });
        }
    } else {
        let n = get_node(world, parent).unwrap();
        put_node(world, parent, HierarchyNode { last_child: c.previous_sibling, ..n });
        proof {
            lemma_with_node(m2, parent, HierarchyNode { last_child: c.previous_sibling, ..n });
        }
    }
    Ok(())
}


/// The node that `set_parent` gives the parent when it had none.
pub open spec fn new_parent_node(child: Entity) -> HierarchyNode {
    HierarchyNode { parent: None, last_child: Some(child), next_sibling: None, previous_sibling: None }
}

/// What `set_parent` does to the world: `child` becomes the last child of `parent` (or of
/// nothing), after the previous last child; if it had a parent before, it is then removed
/// from that parent's children.
pub open spec fn spec_set_parent<V>(m: WorldMap<V>, parent: Option<Entity>, child: Entity) -> WorldMap<V> {
    let p = parent->0;
    let np = node_of(m, p);
    let prev_last = if parent is Some && np is Some { np->0.last_child } else { None };
    let m1 = if parent is Some && np is Some { with_node(m, p, HierarchyNode { last_child: Some(child), ..np->0 }) } else { m };
    let m2 = match prev_last {
        Some(pl) => with_node(m1, pl, HierarchyNode { next_sibling: Some(child), ..node_of(m1, pl)->0 }),
        None => m1,
    };
    let nc = node_of(m2, child);
    let m3 = match nc {
        Some(c) => with_node(m2, child, HierarchyNode { parent, previous_sibling: prev_last, next_sibling: None, ..c }),
        None => m2,
    };
    let m4 = if parent is Some && np is None { with_node(m3, p, new_parent_node(child)) } else { m3 };
    let m5 = if nc is None && m4.contains_key(child) {
        with_node(m4, child, HierarchyNode { parent, previous_sibling: prev_last, next_sibling: None, last_child: None })
    } else {
        m4
    };
    match nc {
        Some(c) => match c.parent {
            Some(op) => spec_remove_child(m5, op, child),
            None => m5,
        },
        None => m5,
    }
}

/// `set_parent` can run: a parent without a node exists, the previous last child of the
/// parent has a node, and a child that already has a parent is given the same one.
pub open spec fn set_parent_ok<V>(m: WorldMap<V>, parent: Option<Entity>, child: Entity) -> bool {
    let p = parent->0;
    &&& parent is Some && node_of(m, p) is None ==> m.contains_key(p)
    &&& parent is Some && node_of(m, p) is Some && node_of(m, p)->0.last_child is Some
        ==> node_of(m, node_of(m, p)->0.last_child->0) is Some
    &&& node_of(m, child) is Some && node_of(m, child)->0.parent is Some ==> parent == node_of(m, child)->0.parent
}

/// Makes `child` the last child of `parent` (`None`: of nothing), creating the hierarchy
/// nodes that are missing.
pub fn set_parent<V>(world: &mut World<V>, parent: Option<Entity>, child: Entity) -> (r: Result<(), ()>)
    requires
        old(world).wf(),
        hierarchy_typed(old(world)@),
        set_parent_ok(old(world)@, parent, child),
    ensures
        final(world).wf(),
        final(world).cloners_spec() == old(world).cloners_spec(),
        hierarchy_typed(final(world)@),
        r is Ok,
        final(world)@ == spec_set_parent(old(world)@, parent, child),
        final(world).archetype_seq().len() <= old(world).archetype_seq().len() + 7,
{
    let ghost m = world@;
    let mut add_hierarchy_to_parent = false;
    let mut add_hierarchy_to_child = false;
    let previous_last_child = match parent {
        Some(p) => match get_node(world, p) {
            Some(np) => {
                put_node(world, p, HierarchyNode { last_child: Some(child), ..np });
                proof {
                    lemma_with_node(m, p, HierarchyNode { last_child: Some(child), ..np });
                }
                np.last_child
            },
            None => {
                add_hierarchy_to_parent = true;
                None
            },
        },
        None => None,
    };
    let ghost m1 = world@;
    if let Some(pl) = previous_last_child {
        let n = get_node(world, pl).unwrap();
        put_node(world, pl, HierarchyNode { next_sibling: Some(child), ..n });
        proof {
            lemma_with_node(m1, pl, HierarchyNode { next_sibling: Some(child), ..n });
        }
    }
    let ghost m2 = world@;
    let mut old_parent: Option<Entity> = None;
    match get_node(world, child) {
        Some(c) => {
            old_parent = c.parent;
            put_node(world, child, HierarchyNode { parent, previous_sibling: previous_last_child, next_sibling: None, ..c });
            proof {
                lemma_with_node(m2, child, HierarchyNode { parent, previous_sibling: previous_last_child, next_sibling: None, ..c });
            }
        },
        None => {
            add_hierarchy_to_child = true;
        },
    }
    let ghost m3 = world@;
    if add_hierarchy_to_parent {
        let p = parent.unwrap();
        put_node(world, p, HierarchyNode { parent: None, last_child: Some(child), next_sibling: None, previous_sibling: None });
        proof {
            lemma_with_node(m3, p, new_parent_node(child));
        }
    }
    let ghost m4 = world@;
    if add_hierarchy_to_child {
        let _ = world.add_component_value(
            child,
            HIERARCHY_TYPE_ID,
            ComponentValue::Hierarchy(HierarchyNode { parent, previous_sibling: previous_last_child, next_sibling: None, last_child: None }),
        );
        proof {
            if m4.contains_key(child) {
                lemma_with_node(m4, child, HierarchyNode { parent, previous_sibling: previous_last_child, next_sibling: None, last_child: None });
            }
        }
    }
    if let Some(op) = old_parent {
        let _ = remove_child(world, op, child);
    }
    Ok(())
}


/// `rank` decreases from an entity to its last child and to its previous sibling: walking
/// the hierarchy down and back along siblings ends.
pub open spec fn ranked<V>(m: WorldMap<V>, rank: spec_fn(Entity) -> nat) -> bool {
    forall|e: Entity| #[trigger] node_of(m, e) is Some ==> {
        &&& node_of(m, e)->0.last_child is Some ==> rank(node_of(m, e)->0.last_child->0) < rank(e)
        &&& node_of(m, e)->0.previous_sibling is Some ==> rank(node_of(m, e)->0.previous_sibling->0) < rank(e)
    }
}

/// The hierarchy has no cycle along last-child and previous-sibling links.
pub open spec fn acyclic<V>(m: WorldMap<V>) -> bool {
    exists|rank: spec_fn(Entity) -> nat| ranked(m, rank)
}

/// `e`, then the descendants of its last child's line, then those of its previous siblings.
pub open spec fn descendants_ranked<V>(m: WorldMap<V>, e: Entity, rank: spec_fn(Entity) -> nat) -> Seq<Entity>
    decreases rank(e),
{
    match node_of(m, e) {
        Some(n) => {
            let below = match n.last_child {
                Some(c) => if rank(c) < rank(e) {
                    descendants_ranked(m, c, rank)
                } else {
                    Seq::empty()
                },
                None => Seq::empty(),
            };
            let beside = match n.previous_sibling {
                Some(s) => if rank(s) < rank(e) {
                    descendants_ranked(m, s, rank)
                } else {
                    Seq::empty()
                },
                None => Seq::empty(),
            };
            seq![e] + below + beside
        },
        None => seq![e],
    }
}

/// The entities that `iterate_descendents` visits from `e`, in order.
pub open spec fn descendants<V>(m: WorldMap<V>, e: Entity) -> Seq<Entity> {
    descendants_ranked(m, e, choose|rank: spec_fn(Entity) -> nat| ranked(m, rank))
}

fn collect_descendents<V>(world: &World<V>, entity: Entity, out: &mut Vec<Entity>, Ghost(rank): Ghost<spec_fn(Entity) -> nat>)
    requires
        world.wf(),
        ranked(world@, rank),
    ensures
        final(out)@ == old(out)@ + descendants_ranked(world@, entity, rank),
    decreases rank(entity),
{
    let ghost start = out@;
    out.push(entity);
    match get_node(world, entity) {
        Some(n) => {
            let ghost a = out@;
            if let Some(c) = n.last_child {
                collect_descendents(world, c, out, Ghost(rank));
            }
            let ghost b = out@;
            if let Some(s) = n.previous_sibling {
                collect_descendents(world, s, out, Ghost(rank));
            }
            proof {
                let below = match n.last_child {
                    Some(c) => descendants_ranked(world@, c, rank),
                    None => Seq::empty(),
                };
                let beside = match n.previous_sibling {
                    Some(s) => descendants_ranked(world@, s, rank),
                    None => Seq::empty(),
                };
                assert(b == a + below);
                assert(out@ == b + beside);
                assert(out@ =~= start + (seq![entity] + below + beside));
            }
        },
        None => {
            assert(out@ =~= start + seq![entity]);
        },
    }
}

/// Visits `entity` and, depth first, every entity below it in the hierarchy: its last
/// child's line first, then its previous siblings' lines. The walk also follows the
/// `previous_sibling` link of `entity` itself, so its earlier siblings and their lines are
/// visited too. Returns them in that order.
pub fn iterate_descendents<V>(world: &World<V>, entity: Entity) -> (r: Vec<Entity>)
    requires
        world.wf(),
        acyclic(world@),
    ensures
        r@ == descendants(world@, entity),
{
    let ghost rank = choose|rank: spec_fn(Entity) -> nat| ranked(world@, rank);
    let mut out: Vec<Entity> = Vec::new();
    collect_descendents(world, entity, &mut out, Ghost(rank));
    assert(out@ =~= descendants(world@, entity));
    out
}

/// `despawn_hierachy` can run: the entities it despawns are each live once.
pub open spec fn despawn_hierachy_ok<V>(m: WorldMap<V>, entity: Entity) -> bool {
    node_of(m, entity) is Some ==> {
        let d = descendants(m, entity);
        &&& d.no_duplicates()
        &&& forall|i: int| 0 <= i < d.len() ==> m.contains_key(#[trigger] d[i])
    }
}

/// Despawns `entity` and the entities that `iterate_descendents` visits from it: those below
/// it, and also its earlier siblings (reached through its `previous_sibling` link) with
/// everything below them. `Err` if the entity has no hierarchy node.
pub fn despawn_hierachy<V>(world: &mut World<V>, entity: Entity) -> (r: Result<(), ()>)
    requires
        old(world).wf(),
        acyclic(old(world)@),
        despawn_hierachy_ok(old(world)@, entity),
    ensures
        final(world).wf(),
        final(world).cloners_spec() == old(world).cloners_spec(),
        r is Ok <==> node_of(old(world)@, entity) is Some,
        r is Err ==> final(world)@ == old(world)@,
        r is Ok ==> final(world)@ == old(world)@.remove_keys(descendants(old(world)@, entity).to_set()),
        final(world).archetype_seq().len() == old(world).archetype_seq().len(),
{
    if get_node(world, entity).is_none() {
        return Err(());
    }
    let ghost m = world@;
    let to_despawn = iterate_descendents(world, entity);
    let mut i: usize = 0;
    while i < to_despawn.len()
        invariant
            world.wf(),
            world.cloners_spec() == old(world).cloners_spec(),
            world.archetype_seq().len() == old(world).archetype_seq().len(),
            m == old(world)@,
            node_of(m, entity) is Some,
            despawn_hierachy_ok(m, entity),
            to_despawn@ == descendants(m, entity),
            i <= to_despawn@.len(),
            world@ == m.remove_keys(to_despawn@.subrange(0, i as int).to_set()),
        decreases to_despawn@.len() - i,
    {
        let e = to_despawn[i];
        proof {
            assert(m.contains_key(to_despawn@[i as int]));
            assert(!to_despawn@.subrange(0, i as int).contains(e)) by {
                if to_despawn@.subrange(0, i as int).contains(e) {
                    let j = choose|j: int| 0 <= j < i && to_despawn@.subrange(0, i as int)[j] == e;
                    assert(to_despawn@[j] == to_despawn@[i as int]);
                }
            }
            assert(world@.contains_key(e));
        }
        let _ = world.despawn(e);
        proof {
            let next = to_despawn@.subrange(0, i + 1);
            let prev = to_despawn@.subrange(0, i as int);
            assert(next.to_set() =~= prev.to_set().insert(e)) by {
                assert forall|x: Entity| next.contains(x) <==> prev.to_set().insert(e).contains(x) by {
                    if next.contains(x) {
                        let j = choose|j: int| 0 <= j < next.len() && next[j] == x;
                        if j < i {
                            assert(prev[j] == x);
                        }
                    }
                    if prev.contains(x) {
                        let j = choose|j: int| 0 <= j < prev.len() && prev[j] == x;
                        assert(next[j] == x);
                    }
                    if x == e {
                        assert(next[i as int] == x);
                    }
                }
            }
            assert(world@ =~= m.remove_keys(to_despawn@.subrange(0, i + 1).to_set()));
        }
        i = i + 1;
    }
    assert(to_despawn@.subrange(0, i as int) =~= to_despawn@);
    Ok(())
}


/// Law: after `set_parent(Some(parent), child)` on a live child that had no parent, the
/// child's parent is `parent`, the parent's last child is the child, and the child comes
/// right after the parent's previous last child, whose next sibling it now is: the parent's
/// children are the child followed by its earlier children. The child keeps its own
/// children, every other node is unchanged, and no component besides the hierarchy nodes
/// changes.
pub proof fn law_set_parent_links<V>(m: WorldMap<V>, parent: Entity, child: Entity)
    requires
        hierarchy_typed(m),
        set_parent_ok(m, Some(parent), child),
        m.contains_key(child),
        m.contains_key(parent),
        parent != child,
        node_of(m, child) matches Some(c) ==> c.parent is None,
        node_of(m, parent) matches Some(n) ==> n.last_child != Some(child),
    ensures
        node_of(spec_set_parent(m, Some(parent), child), child) matches Some(c) && c.parent == Some(parent)
            && c.previous_sibling == (match node_of(m, parent) {
                Some(n) => n.last_child,
                None => None,
            }) && c.next_sibling is None,
        node_of(spec_set_parent(m, Some(parent), child), parent) matches Some(n) && n.last_child == Some(child),
        forall|x: Entity| #[trigger] spec_set_parent(m, Some(parent), child).contains_key(x) <==> m.contains_key(x),
        node_of(m, child) matches Some(c) ==> node_of(spec_set_parent(m, Some(parent), child), child)->0.last_child == c.last_child,
        node_of(m, parent) matches Some(n) ==> n.last_child != Some(parent) ==> node_of(spec_set_parent(m, Some(parent), child), parent)
            == Some(HierarchyNode { last_child: Some(child), ..n }),
        node_of(m, parent) matches Some(n) ==> (n.last_child matches Some(pl) ==> pl != parent ==> node_of(
            spec_set_parent(m, Some(parent), child),
            pl,
        ) == Some(HierarchyNode { next_sibling: Some(child), ..node_of(m, pl)->0 })),
        forall|x: Entity|
            x != parent && x != child && (node_of(m, parent) matches Some(n) ==> n.last_child != Some(x))
                ==> #[trigger] node_of(spec_set_parent(m, Some(parent), child), x) == node_of(m, x),
        others_kept(m, spec_set_parent(m, Some(parent), child)),
{
    let p = parent;
    let np = node_of(m, p);
    let prev_last = if np is Some { np->0.last_child } else { None };
    let m1 = if np is Some { with_node(m, p, HierarchyNode { last_child: Some(child), ..np->0 }) } else { m };
    if np is Some {
        lemma_with_node(m, p, HierarchyNode { last_child: Some(child), ..np->0 });
        lemma_with_node_keeps_others(m, p, HierarchyNode { last_child: Some(child), ..np->0 });
    }
    let m2 = match prev_last {
        Some(pl) => with_node(m1, pl, HierarchyNode { next_sibling: Some(child), ..node_of(m1, pl)->0 }),
        None => m1,
    };
    if let Some(pl) = prev_last {
        assert(node_of(m, pl) is Some);
        assert(m1.contains_key(pl));
        lemma_with_node(m1, pl, HierarchyNode { next_sibling: Some(child), ..node_of(m1, pl)->0 });
        lemma_with_node_keeps_others(m1, pl, HierarchyNode { next_sibling: Some(child), ..node_of(m1, pl)->0 });
        lemma_others_kept_trans(m, m1, m2);
    }
    let nc = node_of(m2, child);
    assert(nc == node_of(m, child) || (nc is Some && node_of(m, child) is Some && nc->0.parent == node_of(m, child)->0.parent));
    let m3 = match nc {
        Some(c) => with_node(m2, child, HierarchyNode { parent: Some(p), previous_sibling: prev_last, next_sibling: None, ..c }),
        None => m2,
    };
    if let Some(c) = nc {
        lemma_with_node(m2, child, HierarchyNode { parent: Some(p), previous_sibling: prev_last, next_sibling: None, ..c });
        lemma_with_node_keeps_others(m2, child, HierarchyNode { parent: Some(p), previous_sibling: prev_last, next_sibling: None, ..c });
        lemma_others_kept_trans(m, m2, m3);
    }
    let m4 = if np is None { with_node(m3, p, new_parent_node(child)) } else { m3 };
    if np is None {
        lemma_with_node(m3, p, new_parent_node(child));
        lemma_with_node_keeps_others(m3, p, new_parent_node(child));
        lemma_others_kept_trans(m, m3, m4);
    }
    let m5 = if nc is None && m4.contains_key(child) {
        with_node(m4, child, HierarchyNode { parent: Some(p), previous_sibling: prev_last, next_sibling: None, last_child: None })
    } else {
        m4
    };
    if nc is None {
        lemma_with_node(m4, child, HierarchyNode { parent: Some(p), previous_sibling: prev_last, next_sibling: None, last_child: None });
        if m4.contains_key(child) {
            lemma_with_node_keeps_others(m4, child, HierarchyNode { parent: Some(p), previous_sibling: prev_last, next_sibling: None, last_child: None });
            lemma_others_kept_trans(m, m4, m5);
        }
    }
    assert(spec_set_parent(m, Some(parent), child) == m5);
}

/// Every entity of `s` that has a hierarchy node has its last child and its previous
/// sibling in `s` too.
pub open spec fn closed_under_links<V>(m: WorldMap<V>, s: Seq<Entity>) -> bool {
    forall|x: Entity| #[trigger] s.contains(x) && node_of(m, x) is Some ==> {
        &&& (node_of(m, x)->0.last_child matches Some(c) ==> s.contains(c))
        &&& (node_of(m, x)->0.previous_sibling matches Some(p) ==> s.contains(p))
    }
}

proof fn lemma_descendants_first<V>(m: WorldMap<V>, e: Entity, rank: spec_fn(Entity) -> nat)
    ensures
        descendants_ranked(m, e, rank).len() > 0,
        descendants_ranked(m, e, rank)[0] == e,
        descendants_ranked(m, e, rank).contains(e),
{
    assert(descendants_ranked(m, e, rank)[0] == e);
}

proof fn lemma_descendants_ranked_closed<V>(m: WorldMap<V>, e: Entity, rank: spec_fn(Entity) -> nat)
    requires
        ranked(m, rank),
    ensures
        closed_under_links(m, descendants_ranked(m, e, rank)),
    decreases rank(e),
{
    let d = descendants_ranked(m, e, rank);
    if let Some(n) = node_of(m, e) {
        let below = match n.last_child {
            Some(c) => descendants_ranked(m, c, rank),
            None => Seq::<Entity>::empty(),
        };
        let beside = match n.previous_sibling {
            Some(s) => descendants_ranked(m, s, rank),
            None => Seq::<Entity>::empty(),
        };
        assert(node_of(m, e) is Some);
        assert(d == seq![e] + below + beside);
        assert forall|x: Entity| below.contains(x) implies d.contains(x) by {
            let i = choose|i: int| 0 <= i < below.len() && below[i] == x;
            assert(d[1 + i] == x);
        }
        assert forall|x: Entity| beside.contains(x) implies d.contains(x) by {
            let i = choose|i: int| 0 <= i < beside.len() && beside[i] == x;
            assert(d[1 + below.len() + i] == x);
        }
        if let Some(c) = n.last_child {
            lemma_descendants_first(m, c, rank);
            lemma_descendants_ranked_closed(m, c, rank);
        }
        if let Some(s) = n.previous_sibling {
            lemma_descendants_first(m, s, rank);
            lemma_descendants_ranked_closed(m, s, rank);
        }
        assert forall|x: Entity| #[trigger] d.contains(x) && node_of(m, x) is Some implies {
            &&& (node_of(m, x)->0.last_child matches Some(c) ==> d.contains(c))
            &&& (node_of(m, x)->0.previous_sibling matches Some(p) ==> d.contains(p))
        } by {
            let i = choose|i: int| 0 <= i < d.len() && d[i] == x;
            if i == 0 {
            } else if i < 1 + below.len() {
                assert(below[i - 1] == x);
                assert(below.contains(x));
            } else {
                assert(beside[i - 1 - below.len()] == x);
                assert(beside.contains(x));
            }
        }
    } else {
        assert(d == seq![e]);
        assert forall|x: Entity| #[trigger] d.contains(x) && node_of(m, x) is Some implies {
            &&& (node_of(m, x)->0.last_child matches Some(c) ==> d.contains(c))
            &&& (node_of(m, x)->0.previous_sibling matches Some(p) ==> d.contains(p))
        } by {
            assert(d[0] == e);
        }
    }
}

/// Law: the entities that `iterate_descendents` visits from `e`, and that `despawn_hierachy`
/// despawns, are `e` and everything reachable from it along last-child and previous-sibling
/// links: with each of them, its last child and its previous sibling are there too, so every
/// child of each visited entity is visited.
pub proof fn law_descendants_closed<V>(m: WorldMap<V>, e: Entity)
    requires
        acyclic(m),
    ensures
        descendants(m, e).contains(e),
        closed_under_links(m, descendants(m, e)),
{
    let rank = choose|rank: spec_fn(Entity) -> nat| ranked(m, rank);
    lemma_descendants_first(m, e, rank);
    lemma_descendants_ranked_closed(m, e, rank);
}

/// Law: removing `child` from `parent` unlinks it (no parent, no siblings, its own children
/// kept) and joins its neighbours: its previous sibling's next sibling becomes its next
/// sibling, its next sibling's previous sibling becomes its previous sibling, and when it was
/// the last child, the parent's last child becomes its previous sibling, so the parent keeps
/// its other children. No other node changes.
pub proof fn law_remove_child_links<V>(m: WorldMap<V>, parent: Entity, child: Entity)
    requires
        hierarchy_typed(m),
        remove_child_ok(m, parent, child),
        node_of(m, child) is Some,
        node_of(m, child)->0.parent == Some(parent),
        parent != child,
        node_of(m, child)->0.previous_sibling != Some(child),
        node_of(m, child)->0.previous_sibling != Some(parent),
        node_of(m, child)->0.next_sibling != Some(child),
        node_of(m, child)->0.next_sibling != Some(parent),
        node_of(m, child)->0.previous_sibling is None || node_of(m, child)->0.previous_sibling != node_of(m, child)->0.next_sibling,
    ensures
        node_of(spec_remove_child(m, parent, child), child) == Some(
            HierarchyNode { parent: None, next_sibling: None, previous_sibling: None, ..node_of(m, child)->0 },
        ),
        node_of(m, child)->0.previous_sibling matches Some(pv) ==> node_of(spec_remove_child(m, parent, child), pv)
            == Some(HierarchyNode { next_sibling: node_of(m, child)->0.next_sibling, ..node_of(m, pv)->0 }),
        node_of(m, child)->0.next_sibling matches Some(nx) ==> node_of(spec_remove_child(m, parent, child), nx)
            == Some(HierarchyNode { previous_sibling: node_of(m, child)->0.previous_sibling, ..node_of(m, nx)->0 }),
        node_of(m, child)->0.next_sibling is Some ==> node_of(spec_remove_child(m, parent, child), parent) == node_of(m, parent),
        node_of(m, child)->0.next_sibling is None ==> node_of(spec_remove_child(m, parent, child), parent)
            == Some(HierarchyNode { last_child: node_of(m, child)->0.previous_sibling, ..node_of(m, parent)->0 }),
        forall|x: Entity|
            x != parent && x != child && Some(x) != node_of(m, child)->0.previous_sibling && Some(x) != node_of(m, child)->0.next_sibling
                ==> #[trigger] node_of(spec_remove_child(m, parent, child), x) == node_of(m, x),
{
    let c = node_of(m, child)->0;
    let m1 = with_node(m, child, HierarchyNode { parent: None, next_sibling: None, previous_sibling: None, ..c });
    lemma_with_node(m, child, HierarchyNode { parent: None, next_sibling: None, previous_sibling: None, ..c });
    let m2 = match c.previous_sibling {
        Some(pv) => with_node(m1, pv, HierarchyNode { next_sibling: c.next_sibling, ..node_of(m1, pv)->0 }),
        None => m1,
    };
    if let Some(pv) = c.previous_sibling {
        assert(node_of(m, pv) is Some);
        lemma_with_node(m1, pv, HierarchyNode { next_sibling: c.next_sibling, ..node_of(m1, pv)->0 });
    }
    match c.next_sibling {
        Some(nx) => {
            assert(node_of(m, nx) is Some);
            lemma_with_node(m2, nx, HierarchyNode { previous_sibling: c.previous_sibling, ..node_of(m2, nx)->0 });
        },
        None => {
            assert(node_of(m, parent) is Some);
            lemma_with_node(m2, parent, HierarchyNode { last_child: c.previous_sibling, ..node_of(m2, parent)->0 });
        },
    }
}

} // verus!
