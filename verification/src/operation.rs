//! Migration operations: the units of change that a migration applies to a
//! tree.

use crate::error::MigrationError;
use crate::model::{
    add_prefix_model, is_tree, is_value_at, remove_prefix_model, set_model, value_on_way,
    with_heads, without_subtree, Kind, TreeModel,
};
use crate::path::{split_dots, Path};
use crate::tree::ConfigTree;
use vstd::prelude::*;

verus! {

/// One change to the shape of a tree.
#[derive(Debug, PartialEq)]
pub enum MigrationOperation {
    /// Adds each of the prefixes, in the order given.
    AddPrefixes(Vec<Path>),
    /// Removes each of the prefixes with all below it, in the order given.
    RemovePrefixes(Vec<Path>),
    /// Moves the value at the first path to the second path.
    Replace(Path, Path),
    /// Sets the value at the path.
    SetValue(Path, String),
}

/// An operation over paths and values as sequences.
pub enum OperationModel {
    AddPrefixes(Seq<Seq<Seq<char>>>),
    RemovePrefixes(Seq<Seq<Seq<char>>>),
    Replace(Seq<Seq<char>>, Seq<Seq<char>>),
    SetValue(Seq<Seq<char>>, Seq<char>),
}

/// The segment sequences of a list of paths.
pub open spec fn path_views(paths: Seq<Path>) -> Seq<Seq<Seq<char>>> {
    Seq::new(paths.len(), |i: int| paths[i]@)
}

impl View for MigrationOperation {
    type V = OperationModel;

    open spec fn view(&self) -> OperationModel {
        match self {
            MigrationOperation::AddPrefixes(paths) => OperationModel::AddPrefixes(
                path_views(paths@),
            ),
            MigrationOperation::RemovePrefixes(paths) => OperationModel::RemovePrefixes(
                path_views(paths@),
            ),
            MigrationOperation::Replace(from, to) => OperationModel::Replace(from@, to@),
            MigrationOperation::SetValue(path, value) => OperationModel::SetValue(path@, value@),
        }
    }
}

/// Adding the prefixes one after the other; the first refusal ends it.
pub open spec fn add_prefixes_model(m: TreeModel, paths: Seq<Seq<Seq<char>>>) -> Result<
    TreeModel,
    MigrationError,
>
    decreases paths.len(),
{
    if paths.len() == 0 {
        Ok(m)
    } else {
        match add_prefix_model(m, paths[0]) {
            Ok(next) => add_prefixes_model(next, paths.drop_first()),
            Err(e) => Err(e),
        }
    }
}

/// Removing the prefixes one after the other; the first refusal ends it.
pub open spec fn remove_prefixes_model(m: TreeModel, paths: Seq<Seq<Seq<char>>>) -> Result<
    TreeModel,
    MigrationError,
>
    decreases paths.len(),
{
    if paths.len() == 0 {
        Ok(m)
    } else {
        match remove_prefix_model(m, paths[0]) {
            Ok(next) => remove_prefixes_model(next, paths.drop_first()),
            Err(e) => Err(e),
        }
    }
}

/// Moving the value at `from` to `to`. Where the tree holds nothing at
/// `from`, or the two paths are the same, nothing changes. Where `from` is a
/// prefix the move is refused, and so it is where the value cannot be set at
/// `to`. Else `to` holds the value, and `from` holds nothing.
pub open spec fn replace_model(m: TreeModel, from: Seq<Seq<char>>, to: Seq<Seq<char>>) -> Result<
    TreeModel,
    MigrationError,
> {
    if !m.contains_key(from) {
        Ok(m)
    } else {
        match m[from] {
            Kind::Prefix => Err(MigrationError::PathKindMismatch),
            Kind::Value(v) => if from == to {
                Ok(m)
            } else {
                match set_model(m, to, v) {
                    Ok(next) => Ok(next.remove(from)),
                    Err(e) => Err(e),
                }
            },
        }
    }
}

/// What an operation makes of a tree.
pub open spec fn apply_model(op: OperationModel, m: TreeModel) -> Result<
    TreeModel,
    MigrationError,
> {
    match op {
        OperationModel::AddPrefixes(paths) => add_prefixes_model(m, paths),
        OperationModel::RemovePrefixes(paths) => remove_prefixes_model(m, paths),
        OperationModel::Replace(from, to) => replace_model(m, from, to),
        OperationModel::SetValue(path, value) => set_model(m, path, value),
    }
}

/// The operation that undoes the shape of a change, where there is one:
/// added prefixes are removed and removed ones added, last first, and a moved
/// value is moved back. A value that was set cannot be unset: what stood
/// there before is not known.
pub open spec fn inverse_model(op: OperationModel) -> Option<OperationModel> {
    match op {
        OperationModel::AddPrefixes(paths) => Some(OperationModel::RemovePrefixes(paths.reverse())),
        OperationModel::RemovePrefixes(paths) => Some(OperationModel::AddPrefixes(paths.reverse())),
        OperationModel::Replace(from, to) => Some(OperationModel::Replace(to, from)),
        OperationModel::SetValue(_, _) => None,
    }
}

/// Whether `q` is a head of one of the paths: the path itself or a path above
/// it.
pub open spec fn head_of_any(paths: Seq<Seq<Seq<char>>>, q: Seq<Seq<char>>) -> bool {
    q.len() >= 1 && exists|i: int| 0 <= i < paths.len() && q.is_prefix_of(#[trigger] paths[i])
}

/// Whether `q` is one of the paths or lies below one of them.
pub open spec fn below_any(paths: Seq<Seq<Seq<char>>>, q: Seq<Seq<char>>) -> bool {
    exists|i: int| 0 <= i < paths.len() && (#[trigger] paths[i]).is_prefix_of(q)
}

/// Whether a value stands at one of the paths or above it.
pub open spec fn value_on_any_way(m: TreeModel, paths: Seq<Seq<Seq<char>>>) -> bool {
    exists|i: int|
        0 <= i < paths.len() && value_on_way(m, #[trigger] paths[i], paths[i].len() as int)
}

/// The tree with a prefix at every head of the paths at which it held nothing.
pub open spec fn with_all_heads(m: TreeModel, paths: Seq<Seq<Seq<char>>>) -> TreeModel {
    Map::new(
        |q: Seq<Seq<char>>| m.contains_key(q) || head_of_any(paths, q),
        |q: Seq<Seq<char>>|
            if m.contains_key(q) {
                m[q]
            } else {
                Kind::Prefix
            },
    )
}

/// The tree without the nodes at the paths and below them.
pub open spec fn without_subtrees(m: TreeModel, paths: Seq<Seq<Seq<char>>>) -> TreeModel {
    Map::new(
        |q: Seq<Seq<char>>| m.contains_key(q) && !below_any(paths, q),
        |q: Seq<Seq<char>>| m[q],
    )
}

/// Adding a list of prefixes is refused exactly where a value stands at one of
/// them or above it. Else it adds a prefix wherever a head of one of them was
/// missing, and changes nothing else: the order of the list plays no part.
pub proof fn lemma_add_prefixes_result(m: TreeModel, paths: Seq<Seq<Seq<char>>>)
    ensures
        add_prefixes_model(m, paths) == (if value_on_any_way(m, paths) {
            Err::<TreeModel, _>(MigrationError::PathKindMismatch)
        } else {
            Ok(with_all_heads(m, paths))
        }),
    decreases paths.len(),
{
    if paths.len() == 0 {
        assert(with_all_heads(m, paths) =~= m);
    } else {
        let first = paths[0];
        let rest = paths.drop_first();
        if value_on_way(m, first, first.len() as int) {
            assert(value_on_any_way(m, paths));
        } else {
            let next = with_heads(m, first, first.len() as int);
            lemma_add_prefixes_result(next, rest);
            lemma_heads_keep_values(m, first, first.len() as int);
            assert(value_on_any_way(next, rest) == value_on_any_way(m, paths)) by {
                if value_on_any_way(next, rest) {
                    let i = choose|i: int|
                        0 <= i < rest.len() && value_on_way(
                            next,
                            #[trigger] rest[i],
                            rest[i].len() as int,
                        );
                    assert(rest[i] == paths[i + 1]);
                    assert(value_on_way(m, paths[i + 1], paths[i + 1].len() as int));
                }
                if value_on_any_way(m, paths) {
                    let i = choose|i: int|
                        0 <= i < paths.len() && value_on_way(
                            m,
                            #[trigger] paths[i],
                            paths[i].len() as int,
                        );
                    assert(rest[i - 1] == paths[i]);
                    assert(value_on_way(next, rest[i - 1], rest[i - 1].len() as int));
                }
            }
            assert forall|q: Seq<Seq<char>>| head_of_any(paths, q) == ((q.len() >= 1
                && q.is_prefix_of(first)) || head_of_any(rest, q)) by {
                if head_of_any(paths, q) {
                    let i = choose|i: int|
                        0 <= i < paths.len() && q.is_prefix_of(#[trigger] paths[i]);
                    if i > 0 {
                        assert(rest[i - 1] == paths[i]);
                    }
                }
                if head_of_any(rest, q) {
                    let i = choose|i: int| 0 <= i < rest.len() && q.is_prefix_of(#[trigger] rest[i]);
                    assert(rest[i] == paths[i + 1]);
                }
                if q.len() >= 1 && q.is_prefix_of(first) {
                    assert(q.is_prefix_of(paths[0]));
                }
            }
            assert(with_all_heads(next, rest) =~= with_all_heads(m, paths));
        }
    }
}

/// Adding heads to a tree changes no value and adds none.
pub proof fn lemma_heads_keep_values(m: TreeModel, p: Seq<Seq<char>>, n: int)
    ensures
        forall|q: Seq<Seq<char>>|
            #[trigger] is_value_at(with_heads(m, p, n), q) == is_value_at(m, q),
        forall|q: Seq<Seq<char>>, k: int|
            #[trigger] value_on_way(with_heads(m, p, n), q, k) == value_on_way(m, q, k),
{
    let w = with_heads(m, p, n);
    assert forall|q: Seq<Seq<char>>, k: int| #[trigger]
        value_on_way(w, q, k) == value_on_way(m, q, k) by {
        if value_on_way(w, q, k) {
            let j = choose|j: int| 1 <= j <= k && is_value_at(w, #[trigger] q.take(j));
            assert(is_value_at(m, q.take(j)));
        }
        if value_on_way(m, q, k) {
            let j = choose|j: int| 1 <= j <= k && is_value_at(m, #[trigger] q.take(j));
            assert(is_value_at(w, q.take(j)));
        }
    }
}

/// Adding a list of prefixes a second time changes nothing.
pub proof fn lemma_add_prefixes_idempotent(m: TreeModel, paths: Seq<Seq<Seq<char>>>)
    requires
        add_prefixes_model(m, paths) is Ok,
    ensures
        add_prefixes_model(add_prefixes_model(m, paths)->Ok_0, paths) == add_prefixes_model(
            m,
            paths,
        ),
{
    lemma_add_prefixes_result(m, paths);
    let once = with_all_heads(m, paths);
    lemma_add_prefixes_result(once, paths);
    if value_on_any_way(once, paths) {
        let i = choose|i: int|
            0 <= i < paths.len() && value_on_way(once, #[trigger] paths[i], paths[i].len() as int);
        let k = choose|k: int|
            1 <= k <= paths[i].len() && is_value_at(once, #[trigger] paths[i].take(k));
        assert(is_value_at(m, paths[i].take(k)));
        assert(value_on_way(m, paths[i], paths[i].len() as int));
        assert(false);
    }
    assert(with_all_heads(once, paths) =~= once);
}

/// Two lists that name the same prefixes, in whatever order and however
/// often, add the same: their results are equal, and so are their refusals.
pub proof fn lemma_add_prefixes_any_order(
    m: TreeModel,
    paths: Seq<Seq<Seq<char>>>,
    others: Seq<Seq<Seq<char>>>,
)
    requires
        forall|i: int| 0 <= i < paths.len() ==> others.contains(#[trigger] paths[i]),
        forall|i: int| 0 <= i < others.len() ==> paths.contains(#[trigger] others[i]),
    ensures
        add_prefixes_model(m, paths) == add_prefixes_model(m, others),
{
    lemma_add_prefixes_result(m, paths);
    lemma_add_prefixes_result(m, others);
    lemma_same_paths(m, paths, others);
    lemma_same_paths(m, others, paths);
    assert(with_all_heads(m, paths) =~= with_all_heads(m, others));
}

proof fn lemma_same_paths(m: TreeModel, paths: Seq<Seq<Seq<char>>>, others: Seq<Seq<Seq<char>>>)
    requires
        forall|i: int| 0 <= i < paths.len() ==> others.contains(#[trigger] paths[i]),
    ensures
        value_on_any_way(m, paths) ==> value_on_any_way(m, others),
        forall|q: Seq<Seq<char>>| head_of_any(paths, q) ==> head_of_any(others, q),
{
    if value_on_any_way(m, paths) {
        let i = choose|i: int|
            0 <= i < paths.len() && value_on_way(m, #[trigger] paths[i], paths[i].len() as int);
        assert(others.contains(paths[i]));
        let j = choose|j: int| 0 <= j < others.len() && others[j] == paths[i];
        assert(value_on_way(m, others[j], others[j].len() as int));
    }
    assert forall|q: Seq<Seq<char>>| head_of_any(paths, q) implies head_of_any(others, q) by {
        let i = choose|i: int| 0 <= i < paths.len() && q.is_prefix_of(#[trigger] paths[i]);
        assert(others.contains(paths[i]));
        let j = choose|j: int| 0 <= j < others.len() && others[j] == paths[i];
        assert(q.is_prefix_of(others[j]));
    }
}

/// Adding two prefixes gives the same whichever comes first.
pub proof fn lemma_add_two_prefixes_commute(m: TreeModel, a: Seq<Seq<char>>, b: Seq<Seq<char>>)
    ensures
        add_prefixes_model(m, seq![a, b]) == add_prefixes_model(m, seq![b, a]),
{
    let ab = seq![a, b];
    let ba = seq![b, a];
    assert(ab[0] == a && ab[1] == b && ba[0] == b && ba[1] == a);
    lemma_add_prefixes_any_order(m, ab, ba);
}

/// Removing a list of prefixes, where it is not refused, leaves the tree
/// without the nodes at those prefixes and below them.
pub proof fn lemma_remove_prefixes_result(m: TreeModel, paths: Seq<Seq<Seq<char>>>)
    requires
        remove_prefixes_model(m, paths) is Ok,
    ensures
        remove_prefixes_model(m, paths) == Ok::<_, MigrationError>(without_subtrees(m, paths)),
    decreases paths.len(),
{
    if paths.len() == 0 {
        assert(without_subtrees(m, paths) =~= m);
    } else {
        let first = paths[0];
        let rest = paths.drop_first();
        let next = without_subtree(m, first);
        lemma_remove_prefixes_result(next, rest);
        assert forall|q: Seq<Seq<char>>| below_any(paths, q) == (first.is_prefix_of(q)
            || below_any(rest, q)) by {
            if below_any(paths, q) {
                let i = choose|i: int|
                    0 <= i < paths.len() && (#[trigger] paths[i]).is_prefix_of(q);
                if i > 0 {
                    assert(rest[i - 1] == paths[i]);
                }
            }
            if below_any(rest, q) {
                let i = choose|i: int| 0 <= i < rest.len() && (#[trigger] rest[i]).is_prefix_of(q);
                assert(rest[i] == paths[i + 1]);
            }
            if first.is_prefix_of(q) {
                assert(paths[0].is_prefix_of(q));
            }
        }
        assert(without_subtrees(next, rest) =~= without_subtrees(m, paths));
    }
}

/// Removing prefixes from a tree that holds nothing at them or below them
/// changes nothing.
pub proof fn lemma_remove_prefixes_absent(m: TreeModel, paths: Seq<Seq<Seq<char>>>)
    requires
        forall|q: Seq<Seq<char>>| m.contains_key(q) ==> !below_any(paths, q),
    ensures
        remove_prefixes_model(m, paths) == Ok::<_, MigrationError>(m),
    decreases paths.len(),
{
    if paths.len() > 0 {
        let first = paths[0];
        let rest = paths.drop_first();
        assert forall|q: Seq<Seq<char>>| m.contains_key(q) implies !first.is_prefix_of(q) by {
            if first.is_prefix_of(q) {
                assert(paths[0].is_prefix_of(q));
                assert(below_any(paths, q));
            }
        }
        assert(!m.contains_key(first)) by {
            assert(first.is_prefix_of(first));
        }
        assert(without_subtree(m, first) =~= m);
        assert forall|q: Seq<Seq<char>>| m.contains_key(q) implies !below_any(rest, q) by {
            if below_any(rest, q) {
                let i = choose|i: int| 0 <= i < rest.len() && (#[trigger] rest[i]).is_prefix_of(q);
                assert(rest[i] == paths[i + 1]);
                assert(below_any(paths, q));
            }
        }
        lemma_remove_prefixes_absent(m, rest);
    }
}

/// The inverse of the inverse of an operation is the operation.
pub proof fn lemma_inverse_twice(op: OperationModel)
    requires
        inverse_model(op) is Some,
    ensures
        inverse_model(inverse_model(op)->0) == Some(op),
{
    match op {
        OperationModel::AddPrefixes(paths) => {
            assert(paths.reverse().reverse() =~= paths);
        },
        OperationModel::RemovePrefixes(paths) => {
            assert(paths.reverse().reverse() =~= paths);
        },
        _ => {},
    }
}

/// Applying an operation to a tree that it has already been applied to
/// changes nothing, and is not refused.
pub proof fn lemma_apply_idempotent(op: OperationModel, m: TreeModel)
    requires
        apply_model(op, m) is Ok,
    ensures
        apply_model(op, apply_model(op, m)->Ok_0) == apply_model(op, m),
{
    let once = apply_model(op, m)->Ok_0;
    match op {
        OperationModel::AddPrefixes(paths) => {
            lemma_add_prefixes_idempotent(m, paths);
        },
        OperationModel::RemovePrefixes(paths) => {
            lemma_remove_prefixes_result(m, paths);
            lemma_remove_prefixes_absent(once, paths);
        },
        OperationModel::Replace(from, to) => {
            if m.contains_key(from) && from != to {
                assert(!once.contains_key(from));
            }
        },
        OperationModel::SetValue(path, value) => {
            let n = path.len() - 1;
            lemma_heads_keep_values(m, path, n);
            if value_on_way(once, path, n) {
                let k = choose|k: int| 1 <= k <= n && is_value_at(once, #[trigger] path.take(k));
                assert(path.take(k) != path);
                assert(is_value_at(with_heads(m, path, n), path.take(k)));
                assert(false);
            }
            assert(with_heads(once, path, n).insert(path, Kind::Value(value)) =~= once);
        },
    }
}

fn add_all(tree: &mut ConfigTree, paths: &Vec<Path>) -> (r: Result<(), MigrationError>)
    requires
        is_tree(old(tree)@),
    ensures
        is_tree(final(tree)@),
        match r {
            Ok(()) => add_prefixes_model(old(tree)@, path_views(paths@)) == Ok::<
                _,
                MigrationError,
            >(final(tree)@),
            Err(e) => add_prefixes_model(old(tree)@, path_views(paths@)) == Err::<TreeModel, _>(e),
        },
{
    let ghost all = path_views(paths@);
    let ghost start = tree@;
    let mut i: usize = 0;
    assert(all.skip(0) == all);
    while i < paths.len()
        invariant
            i <= paths.len(),
            all == path_views(paths@),
            start == old(tree)@,
            is_tree(tree@),
            add_prefixes_model(start, all) == add_prefixes_model(tree@, all.skip(i as int)),
        decreases paths.len() - i,
    {
        assert(all.skip(i as int).drop_first() == all.skip(i + 1));
        assert(all.skip(i as int)[0] == paths[i as int]@);
        match tree.add_prefix(&paths[i]) {
            Ok(()) => {},
            Err(e) => {
                return Err(e);
            },
        }
        i = i + 1;
    }
    Ok(())
}

fn remove_all(tree: &mut ConfigTree, paths: &Vec<Path>) -> (r: Result<(), MigrationError>)
    requires
        is_tree(old(tree)@),
    ensures
        is_tree(final(tree)@),
        match r {
            Ok(()) => remove_prefixes_model(old(tree)@, path_views(paths@)) == Ok::<
                _,
                MigrationError,
            >(final(tree)@),
            Err(e) => remove_prefixes_model(old(tree)@, path_views(paths@)) == Err::<TreeModel, _>(
                e,
            ),
        },
{
    let ghost all = path_views(paths@);
    let ghost start = tree@;
    let mut i: usize = 0;
    assert(all.skip(0) == all);
    while i < paths.len()
        invariant
            i <= paths.len(),
            all == path_views(paths@),
            start == old(tree)@,
            is_tree(tree@),
            remove_prefixes_model(start, all) == remove_prefixes_model(tree@, all.skip(i as int)),
        decreases paths.len() - i,
    {
        assert(all.skip(i as int).drop_first() == all.skip(i + 1));
        assert(all.skip(i as int)[0] == paths[i as int]@);
        match tree.remove_prefix(&paths[i]) {
            Ok(()) => {},
            Err(e) => {
                return Err(e);
            },
        }
        i = i + 1;
    }
    Ok(())
}

fn replace(tree: &mut ConfigTree, from: &Path, to: &Path) -> (r: Result<(), MigrationError>)
    requires
        is_tree(old(tree)@),
    ensures
        is_tree(final(tree)@),
        match r {
            Ok(()) => replace_model(old(tree)@, from@, to@) == Ok::<_, MigrationError>(
                final(tree)@,
            ),
            Err(e) => replace_model(old(tree)@, from@, to@) == Err::<TreeModel, _>(e),
        },
{
    match tree.get(from) {
        Err(e) => Err(e),
        Ok(None) => Ok(()),
        Ok(Some(value)) => {
            if *from == *to {
                Ok(())
            } else {
                match tree.set(to, value) {
                    Err(e) => Err(e),
                    Ok(()) => {
                        let removed = tree.remove_value(from);
                        assert(removed is Ok);
                        Ok(())
                    },
                }
            }
        },
    }
}

fn reversed(paths: &Vec<Path>) -> (r: Vec<Path>)
    ensures
        path_views(r@) == path_views(paths@).reverse(),
{
    let mut out: Vec<Path> = Vec::new();
    let mut i: usize = paths.len();
    while i > 0
        invariant
            i <= paths.len(),
            out.len() == paths.len() - i,
            forall|j: int| 0 <= j < out.len() ==> (#[trigger] out[j])@ == paths[paths.len() - 1 - j]@,
        decreases i,
    {
        i = i - 1;
        out.push(paths[i].clone());
    }
    assert(path_views(out@) =~= path_views(paths@).reverse());
    out
}

/// The paths that a list of dotted strings names.
pub open spec fn split_all(dotted: Seq<&str>) -> Seq<Seq<Seq<char>>> {
    Seq::new(dotted.len(), |i: int| split_dots(dotted[i]@))
}

fn parse_all(dotted: &Vec<&str>) -> (paths: Vec<Path>)
    ensures
        path_views(paths@) == split_all(dotted@),
{
    let mut paths: Vec<Path> = Vec::new();
    let mut i: usize = 0;
    while i < dotted.len()
        invariant
            i <= dotted.len(),
            paths.len() == i,
            forall|j: int| 0 <= j < i ==> (#[trigger] paths[j])@ == split_dots(dotted[j]@),
        decreases dotted.len() - i,
    {
        paths.push(Path::parse(dotted[i]));
        i = i + 1;
    }
    assert(path_views(paths@) =~= split_all(dotted@));
    paths
}

impl MigrationOperation {
    /// The operation that adds the prefixes that the dotted strings name.
    pub fn add_prefixes(dotted: &Vec<&str>) -> (op: MigrationOperation)
        ensures
            op@ == OperationModel::AddPrefixes(split_all(dotted@)),
    {
        MigrationOperation::AddPrefixes(parse_all(dotted))
    }

    /// The operation that removes the prefixes that the dotted strings name.
    pub fn remove_prefixes(dotted: &Vec<&str>) -> (op: MigrationOperation)
        ensures
            op@ == OperationModel::RemovePrefixes(split_all(dotted@)),
    {
        MigrationOperation::RemovePrefixes(parse_all(dotted))
    }

    /// Applies the operation to a copy of the tree and returns the copy. The
    /// tree that was handed in stays as it is, whether the operation succeeds
    /// or not. The result is as [`apply_model`] says.
    pub fn apply(&self, tree: &ConfigTree) -> (r: Result<ConfigTree, MigrationError>)
        ensures
            match r {
                Ok(changed) => apply_model(self@, tree@) == Ok::<_, MigrationError>(changed@)
                    && is_tree(changed@),
                Err(e) => apply_model(self@, tree@) == Err::<TreeModel, _>(e),
            },
    {
        let mut work = tree.clone();
        let done = match self {
            MigrationOperation::AddPrefixes(paths) => add_all(&mut work, paths),
            MigrationOperation::RemovePrefixes(paths) => remove_all(&mut work, paths),
            MigrationOperation::Replace(from, to) => replace(&mut work, from, to),
            MigrationOperation::SetValue(path, value) => work.set(path, value.clone()),
        };
        match done {
            Ok(()) => Ok(work),
            Err(e) => Err(e),
        }
    }

    /// The operation that undoes the shape of this one, where there is one.
    /// The result is as [`inverse_model`] says.
    pub fn inverse(&self) -> (r: Option<MigrationOperation>)
        ensures
            match r {
                Some(op) => inverse_model(self@) == Some(op@),
                None => inverse_model(self@) is None,
            },
    {
        match self {
            MigrationOperation::AddPrefixes(paths) => Some(
                MigrationOperation::RemovePrefixes(reversed(paths)),
            ),
            MigrationOperation::RemovePrefixes(paths) => Some(
                MigrationOperation::AddPrefixes(reversed(paths)),
            ),
            MigrationOperation::Replace(from, to) => Some(
                MigrationOperation::Replace(to.clone(), from.clone()),
            ),
            MigrationOperation::SetValue(_, _) => None,
        }
    }
}

} // verus!
