//! The configuration tree.
//!
//! The tree keeps one slot for each of its nodes, under the node's full path,
//! and keeps the slots in the order of their paths. The map that the slots
//! describe is a tree in the sense of [`is_tree`].

use crate::error::MigrationError;
use crate::model::{
    add_prefix_model, get_model, is_tree, is_value_at, lemma_remove_value_is_tree,
    lemma_set_is_tree, lemma_with_heads_is_tree, lemma_without_subtree_is_tree,
    remove_prefix_model, remove_value_model, set_model, value_on_way, with_heads,
    without_subtree, Kind, TreeModel,
};
use crate::order::{lemma_path_order, path_before, Side};
use crate::path::Path;
use vstd::prelude::*;

verus! {

/// What stands at a path of a tree.
#[derive(Debug)]
pub enum Node {
    /// An internal node: a namespace for the paths below it.
    Prefix,
    /// A leaf with its scalar value.
    Value(String),
}

impl View for Node {
    type V = Kind;

    open spec fn view(&self) -> Kind {
        match self {
            Node::Prefix => Kind::Prefix,
            Node::Value(v) => Kind::Value(v@),
        }
    }
}

impl Clone for Node {
    fn clone(&self) -> (n: Node)
        ensures
            n@ == self@,
    {
        match self {
            Node::Prefix => Node::Prefix,
            Node::Value(v) => Node::Value(v.clone()),
        }
    }
}

impl PartialEq for Node {
    fn eq(&self, other: &Node) -> (b: bool) {
        match (self, other) {
            (Node::Prefix, Node::Prefix) => true,
            (Node::Value(v), Node::Value(w)) => *v == *w,
            _ => false,
        }
    }
}

impl vstd::std_specs::cmp::PartialEqSpecImpl for Node {
    open spec fn obeys_eq_spec() -> bool {
        true
    }

    open spec fn eq_spec(&self, other: &Node) -> bool {
        self@ == other@
    }
}

/// A node under its path.
#[derive(Debug)]
struct Slot {
    path: Path,
    node: Node,
}

/// Whether the slot at position `i` is the slot of the path `q`.
spec fn slot_with(slots: Seq<Slot>, q: Seq<Seq<char>>, i: int) -> bool {
    0 <= i < slots.len() && slots[i].path@ == q
}

/// Whether the path `q` has a slot.
spec fn holds(slots: Seq<Slot>, q: Seq<Seq<char>>) -> bool {
    exists|i: int| slot_with(slots, q, i)
}

/// The map that the slots describe.
spec fn model_of(slots: Seq<Slot>) -> TreeModel {
    Map::new(
        |q: Seq<Seq<char>>| holds(slots, q),
        |q: Seq<Seq<char>>| slots[choose|i: int| slot_with(slots, q, i)].node@,
    )
}

/// Whether no path has two slots.
spec fn distinct(slots: Seq<Slot>) -> bool {
    forall|i: int, j: int|
        #![trigger slots[i], slots[j]]
        0 <= i < j < slots.len() ==> slots[i].path@ != slots[j].path@
}

/// Whether the slots stand in the order of their paths.
spec fn sorted(slots: Seq<Slot>) -> bool {
    forall|i: int, j: int|
        #![trigger slots[i], slots[j]]
        0 <= i < j < slots.len() ==> path_before(slots[i].path@, slots[j].path@)
}

/// Whether `q` may stand at position `i` among the slots: the slots before
/// that position come before `q`, and `q` comes before the others.
spec fn fits_at(slots: Seq<Slot>, q: Seq<Seq<char>>, i: int) -> bool {
    &&& 0 <= i <= slots.len()
    &&& forall|j: int| 0 <= j < i ==> path_before((#[trigger] slots[j]).path@, q)
    &&& forall|j: int| i <= j < slots.len() ==> path_before(q, (#[trigger] slots[j]).path@)
}

/// Slots in the order of their paths hold no path twice.
proof fn lemma_sorted_distinct(slots: Seq<Slot>)
    requires
        sorted(slots),
    ensures
        distinct(slots),
{
    assert forall|i: int, j: int| 0 <= i < j < slots.len() implies slots[i].path@
        != slots[j].path@ by {
        lemma_path_order(slots[i].path@, slots[j].path@, slots[i].path@);
    }
}

/// A path that fits among the slots has no slot.
proof fn lemma_fits_absent(slots: Seq<Slot>, q: Seq<Seq<char>>, i: int)
    requires
        fits_at(slots, q, i),
    ensures
        !holds(slots, q),
{
    lemma_path_order(q, q, q);
    assert forall|j: int| !slot_with(slots, q, j) by {
        if 0 <= j < slots.len() && slots[j].path@ == q {
            if j < i {
                assert(path_before(slots[j].path@, q));
            } else {
                assert(path_before(q, slots[j].path@));
            }
        }
    }
}

/// The slots describe the map `m` where `m` holds exactly their paths, each
/// with its node.
proof fn lemma_model_is(slots: Seq<Slot>, m: TreeModel)
    requires
        distinct(slots),
        forall|i: int|
            0 <= i < slots.len() ==> m.contains_key(#[trigger] slots[i].path@) && m[slots[i].path@]
                == slots[i].node@,
        forall|q: Seq<Seq<char>>| #[trigger] m.contains_key(q) ==> holds(slots, q),
    ensures
        model_of(slots) == m,
{
    let d = model_of(slots);
    assert forall|q: Seq<Seq<char>>| d.contains_key(q) implies m.contains_key(q) && d[q] == m[q] by {
        let c = choose|i: int| slot_with(slots, q, i);
        assert(slot_with(slots, q, c));
        assert(m.contains_key(slots[c].path@));
    }
    assert(d =~= m);
}

/// The map holds the node of each slot at the path of the slot.
proof fn lemma_model_at(slots: Seq<Slot>, i: int)
    requires
        distinct(slots),
        0 <= i < slots.len(),
    ensures
        model_of(slots).contains_key(slots[i].path@),
        model_of(slots)[slots[i].path@] == slots[i].node@,
{
    let q = slots[i].path@;
    assert(slot_with(slots, q, i));
    let c = choose|c: int| slot_with(slots, q, c);
    assert(slots[c].path@ == slots[i].path@);
    assert(c == i);
}

/// A new slot where its path fits adds the path with its node to the map, and
/// keeps the order.
proof fn lemma_model_insert(slots: Seq<Slot>, i: int, s: Slot)
    requires
        sorted(slots),
        fits_at(slots, s.path@, i),
    ensures
        sorted(slots.insert(i, s)),
        model_of(slots.insert(i, s)) == model_of(slots).insert(s.path@, s.node@),
{
    let grown = slots.insert(i, s);
    assert forall|a: int, b: int| 0 <= a < b < grown.len() implies path_before(
        grown[a].path@,
        grown[b].path@,
    ) by {
        if a == i {
            assert(grown[b] == slots[b - 1]);
        } else if b == i {
            assert(grown[a] == slots[a]);
        } else {
            let a0 = if a < i { a } else { a - 1 };
            let b0 = if b < i { b } else { b - 1 };
            assert(path_before(slots[a0].path@, slots[b0].path@));
        }
    }
    lemma_sorted_distinct(slots);
    lemma_sorted_distinct(grown);
    lemma_fits_absent(slots, s.path@, i);
    let m = model_of(slots).insert(s.path@, s.node@);
    assert forall|j: int| 0 <= j < grown.len() implies m.contains_key(#[trigger] grown[j].path@)
        && m[grown[j].path@] == grown[j].node@ by {
        if j != i {
            let j0 = if j < i { j } else { j - 1 };
            lemma_model_at(slots, j0);
            assert(!slot_with(slots, s.path@, j0));
        }
    }
    assert forall|q: Seq<Seq<char>>| #[trigger] m.contains_key(q) implies holds(grown, q) by {
        if q == s.path@ {
            assert(slot_with(grown, q, i));
        } else {
            let c = choose|c: int| slot_with(slots, q, c);
            assert(slot_with(slots, q, c));
            if c < i {
                assert(slot_with(grown, q, c));
            } else {
                assert(slot_with(grown, q, c + 1));
            }
        }
    }
    lemma_model_is(grown, m);
}

/// Without a slot the map is without the path of the slot, and the order is
/// kept.
proof fn lemma_model_remove(slots: Seq<Slot>, i: int)
    requires
        sorted(slots),
        0 <= i < slots.len(),
    ensures
        sorted(slots.remove(i)),
        model_of(slots.remove(i)) == model_of(slots).remove(slots[i].path@),
{
    let rest = slots.remove(i);
    assert forall|a: int, b: int| 0 <= a < b < rest.len() implies path_before(
        rest[a].path@,
        rest[b].path@,
    ) by {
        let a0 = if a < i { a } else { a + 1 };
        let b0 = if b < i { b } else { b + 1 };
        assert(path_before(slots[a0].path@, slots[b0].path@));
    }
    lemma_sorted_distinct(slots);
    lemma_sorted_distinct(rest);
    let m = model_of(slots).remove(slots[i].path@);
    assert forall|j: int| 0 <= j < rest.len() implies m.contains_key(#[trigger] rest[j].path@)
        && m[rest[j].path@] == rest[j].node@ by {
        let j0 = if j < i { j } else { j + 1 };
        lemma_model_at(slots, j0);
        if j0 < i {
            assert(slots[j0].path@ != slots[i].path@);
        } else {
            assert(slots[i].path@ != slots[j0].path@);
        }
    }
    assert forall|q: Seq<Seq<char>>| #[trigger] m.contains_key(q) implies holds(rest, q) by {
        let c = choose|c: int| slot_with(slots, q, c);
        assert(slot_with(slots, q, c));
        if c < i {
            assert(slot_with(rest, q, c));
        } else {
            assert(slot_with(rest, q, c - 1));
        }
    }
    lemma_model_is(rest, m);
}

/// Another slot for the same path puts its node in the map, and keeps the
/// order.
proof fn lemma_model_update(slots: Seq<Slot>, i: int, s: Slot)
    requires
        sorted(slots),
        0 <= i < slots.len(),
        s.path@ == slots[i].path@,
    ensures
        sorted(slots.update(i, s)),
        model_of(slots.update(i, s)) == model_of(slots).insert(s.path@, s.node@),
{
    let changed = slots.update(i, s);
    assert forall|a: int, b: int| 0 <= a < b < changed.len() implies path_before(
        changed[a].path@,
        changed[b].path@,
    ) by {
        assert(path_before(slots[a].path@, slots[b].path@));
    }
    lemma_sorted_distinct(slots);
    lemma_sorted_distinct(changed);
    let m = model_of(slots).insert(s.path@, s.node@);
    assert forall|j: int| 0 <= j < changed.len() implies m.contains_key(
        #[trigger] changed[j].path@,
    ) && m[changed[j].path@] == changed[j].node@ by {
        lemma_model_at(slots, j);
        if j < i {
            assert(slots[j].path@ != slots[i].path@);
        } else if i < j {
            assert(slots[i].path@ != slots[j].path@);
        }
    }
    assert forall|q: Seq<Seq<char>>| #[trigger] m.contains_key(q) implies holds(changed, q) by {
        if q == s.path@ {
            assert(slot_with(changed, q, i));
        } else {
            let c = choose|c: int| slot_with(slots, q, c);
            assert(slot_with(slots, q, c));
            assert(slot_with(changed, q, c));
        }
    }
    lemma_model_is(changed, m);
}

/// A tree has as many nodes as it has slots.
proof fn lemma_model_len(slots: Seq<Slot>)
    requires
        sorted(slots),
    ensures
        model_of(slots).dom().finite(),
        model_of(slots).len() == slots.len(),
    decreases slots.len(),
{
    if slots.len() == 0 {
        assert(model_of(slots).dom() =~= Set::empty());
    } else {
        let front = slots.drop_last();
        let last = slots.last();
        assert forall|a: int, b: int| 0 <= a < b < front.len() implies path_before(
            front[a].path@,
            front[b].path@,
        ) by {
            assert(path_before(slots[a].path@, slots[b].path@));
        }
        assert(fits_at(front, last.path@, front.len() as int)) by {
            assert forall|j: int| 0 <= j < front.len() implies path_before(
                (#[trigger] front[j]).path@,
                last.path@,
            ) by {
                assert(path_before(slots[j].path@, slots[slots.len() - 1].path@));
            }
        }
        lemma_model_len(front);
        lemma_model_insert(front, front.len() as int, last);
        lemma_fits_absent(front, last.path@, front.len() as int);
        assert(front.insert(front.len() as int, last) =~= slots);
        assert(model_of(slots).dom() =~= model_of(front).dom().insert(last.path@));
        assert(!model_of(front).dom().contains(last.path@));
    }
}

/// Slots in the order of their paths are determined by the map that they
/// describe: two such lists for one map hold the same paths and nodes at the
/// same positions.
proof fn lemma_model_fixes_slots(a: Seq<Slot>, b: Seq<Slot>, i: int)
    requires
        sorted(a),
        sorted(b),
        model_of(a) == model_of(b),
        0 <= i < a.len(),
    ensures
        a.len() == b.len(),
        a[i].path@ == b[i].path@,
        a[i].node@ == b[i].node@,
    decreases a.len(),
{
    lemma_model_len(a);
    lemma_model_len(b);
    lemma_sorted_distinct(a);
    lemma_sorted_distinct(b);
    lemma_model_at(a, 0);
    lemma_model_at(b, 0);
    let x = a[0].path@;
    let y = b[0].path@;
    if x != y {
        let j = choose|j: int| slot_with(b, x, j);
        assert(slot_with(b, x, j));
        assert(path_before(b[0].path@, b[j].path@));
        let k = choose|k: int| slot_with(a, y, k);
        assert(slot_with(a, y, k));
        assert(path_before(a[0].path@, a[k].path@));
        lemma_path_order(x, y, x);
        assert(false);
    }
    if i > 0 {
        lemma_model_remove(a, 0);
        lemma_model_remove(b, 0);
        lemma_model_fixes_slots(a.remove(0), b.remove(0), i - 1);
    }
}

/// Whether every node of `a` is a node of `b`, of the same kind.
spec fn within(a: TreeModel, b: TreeModel) -> bool {
    forall|q: Seq<Seq<char>>| #[trigger] a.contains_key(q) ==> b.contains_key(q) && a[q] == b[q]
}

/// Looks for the slot of the first `k` segments of `path`: its position, or
/// else the position at which that path fits.
fn locate(slots: &Vec<Slot>, path: &Path, k: usize) -> (r: Result<usize, usize>)
    requires
        sorted(slots@),
        k <= path@.len(),
    ensures
        match r {
            Ok(i) => slot_with(slots@, path@.take(k as int), i as int),
            Err(i) => fits_at(slots@, path@.take(k as int), i as int) && !holds(
                slots@,
                path@.take(k as int),
            ),
        },
{
    let ghost head = path@.take(k as int);
    let mut i: usize = 0;
    while i < slots.len()
        invariant
            i <= slots.len(),
            k <= path@.len(),
            sorted(slots@),
            head == path@.take(k as int),
            forall|j: int| 0 <= j < i ==> path_before((#[trigger] slots[j]).path@, head),
        decreases slots.len() - i,
    {
        match slots[i].path.side_of_head(path, k) {
            Side::Same => {
                return Ok(i);
            },
            Side::After => {
                proof {
                    assert forall|j: int| i <= j < slots.len() implies path_before(
                        head,
                        (#[trigger] slots[j]).path@,
                    ) by {
                        if i < j {
                            assert(path_before(slots[i as int].path@, slots[j].path@));
                            lemma_path_order(head, slots[i as int].path@, slots[j].path@);
                        }
                    }
                    lemma_fits_absent(slots@, head, i as int);
                }
                return Err(i);
            },
            Side::Before => {},
        }
        i = i + 1;
    }
    proof {
        lemma_fits_absent(slots@, head, i as int);
    }
    Err(i)
}

/// Whether a value stands in one of the slots for the first `n` heads of `path`.
fn blocked(slots: &Vec<Slot>, path: &Path, n: usize) -> (b: bool)
    requires
        sorted(slots@),
        n <= path@.len(),
    ensures
        b == value_on_way(model_of(slots@), path@, n as int),
{
    proof {
        lemma_sorted_distinct(slots@);
    }
    let mut k: usize = 0;
    while k < n
        invariant
            k <= n <= path@.len(),
            sorted(slots@),
            distinct(slots@),
            !value_on_way(model_of(slots@), path@, k as int),
        decreases n - k,
    {
        match locate(slots, path, k + 1) {
            Ok(i) => {
                proof {
                    lemma_model_at(slots@, i as int);
                }
                match slots[i].node {
                    Node::Value(_) => {
                        assert(is_value_at(model_of(slots@), path@.take(k + 1)));
                        return true;
                    },
                    Node::Prefix => {},
                }
            },
            Err(_) => {},
        }
        assert forall|j: int| 1 <= j <= k + 1 implies !is_value_at(
            model_of(slots@),
            #[trigger] path@.take(j),
        ) by {
            if j <= k {
                assert(!value_on_way(model_of(slots@), path@, k as int));
            }
        }
        k = k + 1;
    }
    false
}

/// Gives each of the first `n` heads of `path` that has no slot a slot with a
/// prefix.
fn add_heads(slots: &mut Vec<Slot>, path: &Path, n: usize)
    requires
        sorted(old(slots)@),
        n <= path@.len(),
    ensures
        sorted(final(slots)@),
        model_of(final(slots)@) == with_heads(model_of(old(slots)@), path@, n as int),
{
    let ghost before = model_of(slots@);
    let mut k: usize = 0;
    assert(model_of(slots@) =~= with_heads(before, path@, 0));
    while k < n
        invariant
            k <= n <= path@.len(),
            sorted(slots@),
            model_of(slots@) == with_heads(before, path@, k as int),
        decreases n - k,
    {
        let ghost head = path@.take(k + 1);
        let ghost now = model_of(slots@);
        let ghost next = with_heads(before, path@, k + 1);
        proof {
            lemma_sorted_distinct(slots@);
            assert(head.is_prefix_of(path@));
            assert forall|q: Seq<Seq<char>>| q.len() == k + 1 && q.is_prefix_of(path@) implies q
                == head by {}
        }
        match locate(slots, path, k + 1) {
            Ok(i) => {
                proof {
                    lemma_model_at(slots@, i as int);
                    assert(now.contains_key(head));
                    assert(now =~= next);
                }
            },
            Err(i) => {
                let slot = Slot { path: path.head(k + 1), node: Node::Prefix };
                proof {
                    lemma_model_insert(slots@, i as int, slot);
                    assert(!now.contains_key(head));
                    assert(now.insert(head, Kind::Prefix) =~= next);
                }
                slots.insert(i, slot);
            },
        }
        k = k + 1;
    }
}

/// A configuration tree: a map from paths to prefixes and values in which
/// only prefixes stand above a node. The nodes are kept in the order of
/// their paths.
#[derive(Debug)]
pub struct ConfigTree {
    slots: Vec<Slot>,
}

impl View for ConfigTree {
    type V = TreeModel;

    closed spec fn view(&self) -> TreeModel {
        model_of(self.slots@)
    }
}

impl ConfigTree {
    #[verifier::type_invariant]
    spec fn well_formed(self) -> bool {
        sorted(self.slots@) && is_tree(model_of(self.slots@))
    }

    /// The empty tree.
    pub fn new() -> (tree: ConfigTree)
        ensures
            tree@ == TreeModel::empty(),
            is_tree(tree@),
    {
        let tree = ConfigTree { slots: Vec::new() };
        assert(tree@ =~= TreeModel::empty());
        tree
    }

    /// What stands at `path`, if anything.
    pub fn node(&self, path: &Path) -> (r: Option<Node>)
        ensures
            r matches Some(n) ==> self@.contains_key(path@) && self@[path@] == n@,
            r is None ==> !self@.contains_key(path@),
    {
        proof {
            use_type_invariant(self);
            lemma_sorted_distinct(self.slots@);
        }
        assert(path@.take(path@.len() as int) == path@);
        match locate(&self.slots, path, path.len()) {
            Ok(i) => {
                proof {
                    lemma_model_at(self.slots@, i as int);
                }
                Some(self.slots[i].node.clone())
            },
            Err(_) => None,
        }
    }

    /// Reads the value at `path`. The result is as [`get_model`] says.
    pub fn get(&self, path: &Path) -> (r: Result<Option<String>, MigrationError>)
        ensures
            match r {
                Ok(Some(v)) => get_model(self@, path@) == Ok::<_, MigrationError>(Some(v@)),
                Ok(None) => get_model(self@, path@) == Ok::<Option<Seq<char>>, MigrationError>(None),
                Err(e) => get_model(self@, path@) == Err::<Option<Seq<char>>, _>(e),
            },
    {
        match self.node(path) {
            None => Ok(None),
            Some(Node::Prefix) => Err(MigrationError::PathKindMismatch),
            Some(Node::Value(v)) => Ok(Some(v)),
        }
    }

    /// Adds the prefix `path`, and a prefix at every path above it. Where a
    /// value stands at `path` or above it, the tree stays as it is and the
    /// call fails. The result is as [`add_prefix_model`] says.
    pub fn add_prefix(&mut self, path: &Path) -> (r: Result<(), MigrationError>)
        ensures
            match r {
                Ok(()) => add_prefix_model(old(self)@, path@) == Ok::<_, MigrationError>(
                    final(self)@,
                ),
                Err(e) => add_prefix_model(old(self)@, path@) == Err::<TreeModel, _>(e)
                    && final(self)@ == old(self)@,
            },
            is_tree(final(self)@),
    {
        proof {
            use_type_invariant(&*self);
        }
        if blocked(&self.slots, path, path.len()) {
            return Err(MigrationError::PathKindMismatch);
        }
        let mut slots: Vec<Slot> = Vec::new();
        std::mem::swap(&mut slots, &mut self.slots);
        add_heads(&mut slots, path, path.len());
        proof {
            lemma_with_heads_is_tree(old(self)@, path@, path@.len() as int);
        }
        self.slots = slots;
        Ok(())
    }

    /// Sets the value at `path`, and adds a prefix at every path above it.
    /// Where `path` is a prefix or a value stands above it, the tree stays as
    /// it is and the call fails. The result is as [`set_model`] says.
    pub fn set(&mut self, path: &Path, value: String) -> (r: Result<(), MigrationError>)
        ensures
            match r {
                Ok(()) => set_model(old(self)@, path@, value@) == Ok::<_, MigrationError>(
                    final(self)@,
                ),
                Err(e) => set_model(old(self)@, path@, value@) == Err::<TreeModel, _>(e)
                    && final(self)@ == old(self)@,
            },
            is_tree(final(self)@),
    {
        proof {
            use_type_invariant(&*self);
            lemma_sorted_distinct(self.slots@);
        }
        let n = path.len();
        let ghost before = self@;
        assert(path@.take(n as int) == path@);
        match locate(&self.slots, path, n) {
            Ok(i) => {
                proof {
                    lemma_model_at(self.slots@, i as int);
                }
                match self.slots[i].node {
                    Node::Prefix => {
                        return Err(MigrationError::PathKindMismatch);
                    },
                    Node::Value(_) => {},
                }
            },
            Err(_) => {},
        }
        if blocked(&self.slots, path, n - 1) {
            return Err(MigrationError::PathKindMismatch);
        }
        let slot = Slot { path: path.clone(), node: Node::Value(value) };
        let mut slots: Vec<Slot> = Vec::new();
        std::mem::swap(&mut slots, &mut self.slots);
        add_heads(&mut slots, path, n - 1);
        match locate(&slots, path, n) {
            Ok(i) => {
                proof {
                    lemma_model_update(slots@, i as int, slot);
                }
                slots.set(i, slot);
            },
            Err(i) => {
                proof {
                    lemma_model_insert(slots@, i as int, slot);
                }
                slots.insert(i, slot);
            },
        }
        proof {
            lemma_set_is_tree(before, path@, value@);
        }
        self.slots = slots;
        Ok(())
    }

    /// Removes the value at `path`, if there is one. Where `path` is a prefix,
    /// the tree stays as it is and the call fails. The result is as
    /// [`remove_value_model`] says.
    pub fn remove_value(&mut self, path: &Path) -> (r: Result<(), MigrationError>)
        ensures
            match r {
                Ok(()) => remove_value_model(old(self)@, path@) == Ok::<_, MigrationError>(
                    final(self)@,
                ),
                Err(e) => remove_value_model(old(self)@, path@) == Err::<TreeModel, _>(e)
                    && final(self)@ == old(self)@,
            },
            is_tree(final(self)@),
    {
        proof {
            use_type_invariant(&*self);
            lemma_sorted_distinct(self.slots@);
        }
        let ghost before = self@;
        assert(path@.take(path@.len() as int) == path@);
        match locate(&self.slots, path, path.len()) {
            Err(_) => {
                assert(before.remove(path@) =~= before);
                Ok(())
            },
            Ok(i) => {
                proof {
                    lemma_model_at(self.slots@, i as int);
                }
                match self.slots[i].node {
                    Node::Prefix => Err(MigrationError::PathKindMismatch),
                    Node::Value(_) => {
                        let mut slots: Vec<Slot> = Vec::new();
                        std::mem::swap(&mut slots, &mut self.slots);
                        proof {
                            lemma_model_remove(slots@, i as int);
                            lemma_remove_value_is_tree(before, path@);
                        }
                        slots.remove(i);
                        self.slots = slots;
                        Ok(())
                    },
                }
            },
        }
    }

    /// Removes the prefix `path` with everything below it, if the tree holds
    /// it. Where `path` is a value, the tree stays as it is and the call
    /// fails. The result is as [`remove_prefix_model`] says.
    pub fn remove_prefix(&mut self, path: &Path) -> (r: Result<(), MigrationError>)
        ensures
            match r {
                Ok(()) => remove_prefix_model(old(self)@, path@) == Ok::<_, MigrationError>(
                    final(self)@,
                ),
                Err(e) => remove_prefix_model(old(self)@, path@) == Err::<TreeModel, _>(e)
                    && final(self)@ == old(self)@,
            },
            is_tree(final(self)@),
    {
        proof {
            use_type_invariant(&*self);
            lemma_sorted_distinct(self.slots@);
        }
        let ghost before = self@;
        let ghost goal = without_subtree(before, path@);
        assert(path@.take(path@.len() as int) == path@);
        match locate(&self.slots, path, path.len()) {
            Ok(i) => {
                proof {
                    lemma_model_at(self.slots@, i as int);
                }
                match self.slots[i].node {
                    Node::Value(_) => {
                        return Err(MigrationError::PathKindMismatch);
                    },
                    Node::Prefix => {},
                }
            },
            Err(_) => {},
        }
        let mut slots: Vec<Slot> = Vec::new();
        std::mem::swap(&mut slots, &mut self.slots);
        let mut i: usize = 0;
        while i < slots.len()
            invariant
                i <= slots.len(),
                sorted(slots@),
                within(goal, model_of(slots@)),
                within(model_of(slots@), before),
                goal == without_subtree(before, path@),
                forall|j: int| 0 <= j < i ==> !path@.is_prefix_of(#[trigger] slots[j].path@),
            decreases slots.len() - i,
        {
            if slots[i].path.starts_with(path) {
                proof {
                    lemma_model_remove(slots@, i as int);
                }
                slots.remove(i);
            } else {
                i = i + 1;
            }
        }
        proof {
            let after = model_of(slots@);
            assert forall|q: Seq<Seq<char>>| after.contains_key(q) implies goal.contains_key(
                q,
            ) by {
                let c = choose|c: int| slot_with(slots@, q, c);
                assert(slot_with(slots@, q, c));
                assert(!path@.is_prefix_of(slots[c].path@));
            }
            assert(after =~= goal);
            lemma_without_subtree_is_tree(before, path@);
        }
        self.slots = slots;
        Ok(())
    }

    /// The number of nodes.
    pub fn len(&self) -> (n: usize)
        ensures
            self@.dom().finite(),
            n == self@.len(),
            is_tree(self@),
    {
        proof {
            use_type_invariant(self);
            lemma_model_len(self.slots@);
        }
        self.slots.len()
    }

    /// The nodes with their paths, in the order of the paths. Each node of
    /// the tree is listed once.
    pub fn entries(&self) -> (list: Vec<(Path, Node)>)
        ensures
            list.len() == self@.len(),
            forall|i: int|
                0 <= i < list.len() ==> self@.contains_key(#[trigger] list[i].0@) && self@[list[i].0@]
                    == list[i].1@,
            forall|i: int, j: int|
                0 <= i < j < list.len() ==> path_before(
                    (#[trigger] list[i]).0@,
                    (#[trigger] list[j]).0@,
                ),
            forall|q: Seq<Seq<char>>|
                self@.contains_key(q) ==> exists|i: int| 0 <= i < list.len() && list[i].0@ == q,
    {
        proof {
            use_type_invariant(self);
            lemma_sorted_distinct(self.slots@);
            lemma_model_len(self.slots@);
        }
        let mut list: Vec<(Path, Node)> = Vec::new();
        let mut i: usize = 0;
        while i < self.slots.len()
            invariant
                i <= self.slots.len(),
                list.len() == i,
                forall|j: int|
                    0 <= j < i ==> (#[trigger] list[j]).0@ == self.slots[j].path@ && list[j].1@
                        == self.slots[j].node@,
            decreases self.slots.len() - i,
        {
            list.push((self.slots[i].path.clone(), self.slots[i].node.clone()));
            i = i + 1;
        }
        proof {
            assert forall|j: int| 0 <= j < list.len() implies self@.contains_key(
                #[trigger] list[j].0@,
            ) && self@[list[j].0@] == list[j].1@ by {
                lemma_model_at(self.slots@, j);
            }
            assert forall|a: int, b: int| 0 <= a < b < list.len() implies path_before(
                (#[trigger] list[a]).0@,
                (#[trigger] list[b]).0@,
            ) by {
                assert(path_before(self.slots[a].path@, self.slots[b].path@));
            }
            assert forall|q: Seq<Seq<char>>| self@.contains_key(q) implies exists|j: int|
                0 <= j < list.len() && list[j].0@ == q by {
                let c = choose|c: int| slot_with(self.slots@, q, c);
                assert(slot_with(self.slots@, q, c));
                assert(list[c].0@ == q);
            }
        }
        list
    }
}

impl Clone for ConfigTree {
    fn clone(&self) -> (tree: ConfigTree)
        ensures
            tree@ == self@,
            is_tree(tree@),
    {
        proof {
            use_type_invariant(self);
            lemma_sorted_distinct(self.slots@);
        }
        let mut slots: Vec<Slot> = Vec::new();
        let mut i: usize = 0;
        while i < self.slots.len()
            invariant
                i <= self.slots.len(),
                slots.len() == i,
                forall|j: int|
                    0 <= j < i ==> (#[trigger] slots[j]).path@ == self.slots[j].path@
                        && slots[j].node@ == self.slots[j].node@,
            decreases self.slots.len() - i,
        {
            slots.push(Slot { path: self.slots[i].path.clone(), node: self.slots[i].node.clone() });
            i = i + 1;
        }
        proof {
            let mine = self.slots@;
            assert forall|a: int, b: int| 0 <= a < b < slots.len() implies path_before(
                slots[a].path@,
                slots[b].path@,
            ) by {
                assert(path_before(mine[a].path@, mine[b].path@));
            }
            lemma_sorted_distinct(slots@);
            assert forall|j: int| 0 <= j < slots.len() implies self@.contains_key(
                #[trigger] slots[j].path@,
            ) && self@[slots[j].path@] == slots[j].node@ by {
                lemma_model_at(mine, j);
            }
            assert forall|q: Seq<Seq<char>>| #[trigger] self@.contains_key(q) implies holds(
                slots@,
                q,
            ) by {
                let c = choose|c: int| slot_with(mine, q, c);
                assert(slot_with(mine, q, c));
                assert(slot_with(slots@, q, c));
            }
            lemma_model_is(slots@, self@);
        }
        ConfigTree { slots }
    }
}

impl PartialEq for ConfigTree {
    fn eq(&self, other: &ConfigTree) -> (b: bool) {
        proof {
            use_type_invariant(self);
            use_type_invariant(other);
            lemma_model_len(self.slots@);
            lemma_model_len(other.slots@);
        }
        if self.slots.len() != other.slots.len() {
            return false;
        }
        let mut i: usize = 0;
        while i < self.slots.len()
            invariant
                i <= self.slots.len(),
                self.slots.len() == other.slots.len(),
                sorted(self.slots@),
                sorted(other.slots@),
                forall|j: int|
                    0 <= j < i ==> (#[trigger] self.slots[j]).path@ == other.slots[j].path@
                        && self.slots[j].node@ == other.slots[j].node@,
            decreases self.slots.len() - i,
        {
            if !(self.slots[i].path == other.slots[i].path && self.slots[i].node
                == other.slots[i].node) {
                proof {
                    if self@ == other@ {
                        lemma_model_fixes_slots(self.slots@, other.slots@, i as int);
                    }
                }
                return false;
            }
            i = i + 1;
        }
        proof {
            let mine = self.slots@;
            let theirs = other.slots@;
            lemma_sorted_distinct(mine);
            lemma_sorted_distinct(theirs);
            assert forall|j: int| 0 <= j < theirs.len() implies self@.contains_key(
                #[trigger] theirs[j].path@,
            ) && self@[theirs[j].path@] == theirs[j].node@ by {
                lemma_model_at(mine, j);
                assert(mine[j].path@ == theirs[j].path@);
            }
            assert forall|q: Seq<Seq<char>>| #[trigger] self@.contains_key(q) implies holds(
                theirs,
                q,
            ) by {
                let c = choose|c: int| slot_with(mine, q, c);
                assert(slot_with(mine, q, c));
                assert(mine[c].path@ == theirs[c].path@);
                assert(slot_with(theirs, q, c));
            }
            lemma_model_is(theirs, self@);
        }
        true
    }
}

impl vstd::std_specs::cmp::PartialEqSpecImpl for ConfigTree {
    open spec fn obeys_eq_spec() -> bool {
        true
    }

    open spec fn eq_spec(&self, other: &ConfigTree) -> bool {
        self@ == other@
    }
}

} // verus!
