//! The mathematical model of a configuration tree.
//!
//! A tree is a map from paths to what stands there: a prefix, under which
//! further keys may be nested, or a value. The functions of this module say
//! what each operation on a tree does to that map; the executable operations
//! are verified against them.

use crate::error::MigrationError;
use vstd::prelude::*;

verus! {

/// What stands at a path of a tree.
pub enum Kind {
    /// An internal node: a namespace for the paths below it.
    Prefix,
    /// A leaf with its scalar value.
    Value(Seq<char>),
}

/// A tree as a map from the paths of its nodes to their kinds.
pub type TreeModel = Map<Seq<Seq<char>>, Kind>;

/// What makes a map of paths a tree: the root is not a node of its own, and
/// above every node there are only prefixes.
pub open spec fn is_tree(m: TreeModel) -> bool {
    &&& forall|q: Seq<Seq<char>>| #[trigger] m.contains_key(q) ==> q.len() >= 1
    &&& forall|q: Seq<Seq<char>>, k: int|
        m.contains_key(q) && 1 <= k < q.len() ==> is_prefix_at(m, #[trigger] q.take(k))
}

/// Whether the tree holds a prefix at `q`.
pub open spec fn is_prefix_at(m: TreeModel, q: Seq<Seq<char>>) -> bool {
    m.contains_key(q) && m[q] is Prefix
}

/// Whether the tree holds a value at `q`.
pub open spec fn is_value_at(m: TreeModel, q: Seq<Seq<char>>) -> bool {
    m.contains_key(q) && m[q] is Value
}

/// Whether a value stands at one of the first `n` heads of `p`, that is at
/// `p.take(k)` for some `k` from 1 to `n`.
pub open spec fn value_on_way(m: TreeModel, p: Seq<Seq<char>>, n: int) -> bool {
    exists|k: int| 1 <= k <= n && is_value_at(m, #[trigger] p.take(k))
}

/// The tree with a prefix at each of the first `n` heads of `p` at which it
/// held nothing.
pub open spec fn with_heads(m: TreeModel, p: Seq<Seq<char>>, n: int) -> TreeModel {
    Map::new(
        |q: Seq<Seq<char>>| m.contains_key(q) || (1 <= q.len() <= n && q.is_prefix_of(p)),
        |q: Seq<Seq<char>>|
            if m.contains_key(q) {
                m[q]
            } else {
                Kind::Prefix
            },
    )
}

/// The tree without the node at `p` and all nodes below it.
pub open spec fn without_subtree(m: TreeModel, p: Seq<Seq<char>>) -> TreeModel {
    Map::new(|q: Seq<Seq<char>>| m.contains_key(q) && !p.is_prefix_of(q), |q: Seq<Seq<char>>| m[q])
}

/// Adding the prefix `p`: refused where a value stands at `p` or above it,
/// else `p` and every path above it become prefixes, and what the tree held
/// stays.
pub open spec fn add_prefix_model(m: TreeModel, p: Seq<Seq<char>>) -> Result<
    TreeModel,
    MigrationError,
> {
    if value_on_way(m, p, p.len() as int) {
        Err(MigrationError::PathKindMismatch)
    } else {
        Ok(with_heads(m, p, p.len() as int))
    }
}

/// Removing the prefix `p`: refused where `p` is a value, else the node at `p`
/// and everything below it leave the tree.
pub open spec fn remove_prefix_model(m: TreeModel, p: Seq<Seq<char>>) -> Result<
    TreeModel,
    MigrationError,
> {
    if is_value_at(m, p) {
        Err(MigrationError::PathKindMismatch)
    } else {
        Ok(without_subtree(m, p))
    }
}

/// Reading the value at `p`: refused where `p` is a prefix, nothing where the
/// tree holds nothing at `p`.
pub open spec fn get_model(m: TreeModel, p: Seq<Seq<char>>) -> Result<
    Option<Seq<char>>,
    MigrationError,
> {
    if !m.contains_key(p) {
        Ok(None)
    } else {
        match m[p] {
            Kind::Prefix => Err(MigrationError::PathKindMismatch),
            Kind::Value(v) => Ok(Some(v)),
        }
    }
}

/// Setting the value at `p`: refused where `p` is a prefix or a value stands
/// above `p`, else every path above `p` becomes a prefix and `p` holds `v`.
pub open spec fn set_model(m: TreeModel, p: Seq<Seq<char>>, v: Seq<char>) -> Result<
    TreeModel,
    MigrationError,
> {
    if is_prefix_at(m, p) || value_on_way(m, p, p.len() - 1) {
        Err(MigrationError::PathKindMismatch)
    } else {
        Ok(with_heads(m, p, p.len() - 1).insert(p, Kind::Value(v)))
    }
}

/// Removing the value at `p`: refused where `p` is a prefix, else the tree no
/// longer holds anything at `p`.
pub open spec fn remove_value_model(m: TreeModel, p: Seq<Seq<char>>) -> Result<
    TreeModel,
    MigrationError,
> {
    if is_prefix_at(m, p) {
        Err(MigrationError::PathKindMismatch)
    } else {
        Ok(m.remove(p))
    }
}

/// Adding heads to a tree on whose way no value stands gives a tree.
pub proof fn lemma_with_heads_is_tree(m: TreeModel, p: Seq<Seq<char>>, n: int)
    requires
        is_tree(m),
        n <= p.len(),
        !value_on_way(m, p, n),
    ensures
        is_tree(with_heads(m, p, n)),
{
    let w = with_heads(m, p, n);
    assert forall|q: Seq<Seq<char>>, k: int| w.contains_key(q) && 1 <= k < q.len() implies is_prefix_at(
        w,
        #[trigger] q.take(k),
    ) by {
        if m.contains_key(q) {
            assert(is_prefix_at(m, q.take(k)));
        } else {
            assert(q.take(k) == p.take(k));
            assert(q.take(k).is_prefix_of(p));
            if m.contains_key(q.take(k)) {
                assert(!is_value_at(m, p.take(k)));
            }
        }
    }
}

/// Removing a subtree from a tree gives a tree.
pub proof fn lemma_without_subtree_is_tree(m: TreeModel, p: Seq<Seq<char>>)
    requires
        is_tree(m),
    ensures
        is_tree(without_subtree(m, p)),
{
    let w = without_subtree(m, p);
    assert forall|q: Seq<Seq<char>>, k: int| w.contains_key(q) && 1 <= k < q.len() implies is_prefix_at(
        w,
        #[trigger] q.take(k),
    ) by {
        assert(is_prefix_at(m, q.take(k)));
        if p.is_prefix_of(q.take(k)) {
            assert(p == q.take(p.len() as int));
        }
    }
}

/// Setting a value in a tree, where it is not refused, gives a tree.
pub proof fn lemma_set_is_tree(m: TreeModel, p: Seq<Seq<char>>, v: Seq<char>)
    requires
        is_tree(m),
        p.len() >= 1,
        set_model(m, p, v) is Ok,
    ensures
        is_tree(set_model(m, p, v)->Ok_0),
{
    let h = with_heads(m, p, p.len() - 1);
    lemma_with_heads_is_tree(m, p, p.len() - 1);
    let w = h.insert(p, Kind::Value(v));
    assert forall|q: Seq<Seq<char>>, k: int| w.contains_key(q) && 1 <= k < q.len() implies is_prefix_at(
        w,
        #[trigger] q.take(k),
    ) by {
        if q == p {
            assert(p.take(k).is_prefix_of(p));
            assert(h.contains_key(p.take(k)));
            if m.contains_key(p.take(k)) {
                assert(!is_value_at(m, p.take(k)));
            }
        } else {
            assert(is_prefix_at(h, q.take(k)));
            if q.take(k) == p {
                if m.contains_key(q) {
                    assert(is_prefix_at(m, q.take(k)));
                } else {
                    assert(q.is_prefix_of(p));
                }
                assert(false);
            }
        }
    }
}

/// Removing a value from a tree gives a tree.
pub proof fn lemma_remove_value_is_tree(m: TreeModel, p: Seq<Seq<char>>)
    requires
        is_tree(m),
        !is_prefix_at(m, p),
    ensures
        is_tree(m.remove(p)),
{
    let w = m.remove(p);
    assert forall|q: Seq<Seq<char>>, k: int| w.contains_key(q) && 1 <= k < q.len() implies is_prefix_at(
        w,
        #[trigger] q.take(k),
    ) by {
        assert(is_prefix_at(m, q.take(k)));
    }
}

/// A prefix that was added stands in the tree, and so does a prefix at every
/// path above it.
pub proof fn lemma_add_prefix_creates_heads(m: TreeModel, p: Seq<Seq<char>>, k: int)
    requires
        add_prefix_model(m, p) is Ok,
        1 <= k <= p.len(),
    ensures
        is_prefix_at(add_prefix_model(m, p)->Ok_0, p.take(k)),
{
    assert(p.take(k).is_prefix_of(p));
    if m.contains_key(p.take(k)) {
        assert(!is_value_at(m, p.take(k)));
    }
}

/// A prefix cannot be added where a value stands: the attempt is refused
/// with `PathKindMismatch`.
pub proof fn lemma_add_prefix_on_value(m: TreeModel, p: Seq<Seq<char>>)
    requires
        p.len() >= 1,
        is_value_at(m, p),
    ensures
        add_prefix_model(m, p) == Err::<TreeModel, _>(MigrationError::PathKindMismatch),
{
    assert(p.take(p.len() as int) == p);
}

/// Adding a prefix changes nothing of what the tree held.
pub proof fn lemma_add_prefix_keeps(m: TreeModel, p: Seq<Seq<char>>, q: Seq<Seq<char>>)
    requires
        add_prefix_model(m, p) is Ok,
        m.contains_key(q),
    ensures
        add_prefix_model(m, p)->Ok_0.contains_key(q),
        add_prefix_model(m, p)->Ok_0[q] == m[q],
{
}

/// A value that was set is the value that is read.
pub proof fn lemma_set_then_get(m: TreeModel, p: Seq<Seq<char>>, v: Seq<char>)
    requires
        set_model(m, p, v) is Ok,
    ensures
        get_model(set_model(m, p, v)->Ok_0, p) == Ok::<_, MigrationError>(Some(v)),
{
}

/// After the removal of a prefix the tree holds nothing at it or below it,
/// and all that it held elsewhere.
pub proof fn lemma_remove_prefix_removes(m: TreeModel, p: Seq<Seq<char>>, q: Seq<Seq<char>>)
    requires
        remove_prefix_model(m, p) is Ok,
    ensures
        p.is_prefix_of(q) ==> !remove_prefix_model(m, p)->Ok_0.contains_key(q),
        !p.is_prefix_of(q) && m.contains_key(q) ==> remove_prefix_model(m, p)->Ok_0.contains_key(q)
            && remove_prefix_model(m, p)->Ok_0[q] == m[q],
{
}

/// The operations on a tree give a tree, where they are not refused.
pub proof fn lemma_operations_give_trees(m: TreeModel, p: Seq<Seq<char>>, v: Seq<char>)
    requires
        is_tree(m),
        p.len() >= 1,
    ensures
        add_prefix_model(m, p) matches Ok(t) ==> is_tree(t),
        remove_prefix_model(m, p) matches Ok(t) ==> is_tree(t),
        set_model(m, p, v) matches Ok(t) ==> is_tree(t),
        remove_value_model(m, p) matches Ok(t) ==> is_tree(t),
{
    if add_prefix_model(m, p) is Ok {
        lemma_with_heads_is_tree(m, p, p.len() as int);
    }
    lemma_without_subtree_is_tree(m, p);
    if set_model(m, p, v) is Ok {
        lemma_set_is_tree(m, p, v);
    }
    if remove_value_model(m, p) is Ok {
        lemma_remove_value_is_tree(m, p);
    }
}

} // verus!
