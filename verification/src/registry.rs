//! The registry of migration steps and the resolution of a path between two
//! versions.
//!
//! A step belongs to an edge: it leads from one version to another. The steps
//! of one edge are applied in the order in which they were registered. From
//! any version at most one edge leads forward and at most one backward, so
//! between two versions there is at most one chain of edges.

use crate::error::MigrationError;
use crate::operation::{inverse_model, MigrationOperation, OperationModel};
use crate::version::{Direction, Version};
use vstd::prelude::*;

verus! {

/// One operation on the edge from one version to another, with the reason for
/// it in words.
#[derive(Debug, PartialEq)]
pub struct MigrationStep {
    pub from: Version,
    pub to: Version,
    pub operation: MigrationOperation,
    pub justification: String,
}

/// A step over paths and values as sequences.
pub struct StepModel {
    pub from: Version,
    pub to: Version,
    pub operation: OperationModel,
    pub justification: Seq<char>,
}

impl View for MigrationStep {
    type V = StepModel;

    open spec fn view(&self) -> StepModel {
        StepModel {
            from: self.from,
            to: self.to,
            operation: self.operation@,
            justification: self.justification@,
        }
    }
}

/// The step that undoes the shape of a step, where there is one: it leads
/// back, with the inverse operation and for the same reason.
pub open spec fn reversed_model(step: StepModel) -> Option<StepModel> {
    match inverse_model(step.operation) {
        Some(operation) => Some(
            StepModel {
                from: step.to,
                to: step.from,
                operation,
                justification: step.justification,
            },
        ),
        None => None,
    }
}

impl MigrationStep {
    /// The step that undoes the shape of this one, where there is one. The
    /// result is as [`reversed_model`] says.
    pub fn reversed(&self) -> (r: Option<MigrationStep>)
        ensures
            match r {
                Some(step) => reversed_model(self@) == Some(step@),
                None => reversed_model(self@) is None,
            },
    {
        match self.operation.inverse() {
            Some(operation) => Some(
                MigrationStep {
                    from: self.to,
                    to: self.from,
                    operation,
                    justification: self.justification.clone(),
                },
            ),
            None => None,
        }
    }
}

/// The models of a list of steps.
pub open spec fn step_views(steps: Seq<MigrationStep>) -> Seq<StepModel> {
    Seq::new(steps.len(), |i: int| steps[i]@)
}

/// The models of a list of borrowed steps.
pub open spec fn ref_views(steps: Seq<&MigrationStep>) -> Seq<StepModel> {
    Seq::new(steps.len(), |i: int| steps[i]@)
}

/// Whether the two steps leave the same version in the same direction towards
/// different versions.
pub open spec fn clashes(a: StepModel, b: StepModel) -> bool {
    a.from == b.from && a.to != b.to && a.from.precedes(a.to) == b.from.precedes(b.to)
}

/// What a list of steps must satisfy to be a registry: every step leads from
/// one version to another one, and no two steps clash.
pub open spec fn is_registry(steps: Seq<StepModel>) -> bool {
    &&& forall|i: int| 0 <= i < steps.len() ==> (#[trigger] steps[i]).from != steps[i].to
    &&& forall|i: int, j: int|
        0 <= i < steps.len() && 0 <= j < steps.len() ==> !clashes(
            #[trigger] steps[i],
            #[trigger] steps[j],
        )
}

/// Registering a step: refused with `InvalidDirection` where it leads from a
/// version to the same version, and with `AmbiguousPath` where it clashes
/// with a step of the registry. Else the step is the last of the registry.
pub open spec fn register_model(steps: Seq<StepModel>, step: StepModel) -> Result<
    Seq<StepModel>,
    MigrationError,
> {
    if step.from == step.to {
        Err(MigrationError::InvalidDirection)
    } else if exists|i: int| 0 <= i < steps.len() && clashes(#[trigger] steps[i], step) {
        Err(MigrationError::AmbiguousPath)
    } else {
        Ok(steps.push(step))
    }
}

/// Registering the steps of a table one after the other; the first refusal
/// ends it.
pub open spec fn register_all_model(steps: Seq<StepModel>, table: Seq<StepModel>) -> Result<
    Seq<StepModel>,
    MigrationError,
>
    decreases table.len(),
{
    if table.len() == 0 {
        Ok(steps)
    } else {
        match register_model(steps, table[0]) {
            Ok(next) => register_all_model(next, table.drop_first()),
            Err(e) => Err(e),
        }
    }
}

/// Whether the step leaves `v` in direction `d`.
pub open spec fn is_edge(step: StepModel, v: Version, d: Direction) -> bool {
    step.from == v && d.leads(step.from, step.to)
}

/// Whether a step leaves `v` in direction `d`.
pub open spec fn has_hop(steps: Seq<StepModel>, v: Version, d: Direction) -> bool {
    exists|i: int| 0 <= i < steps.len() && is_edge(#[trigger] steps[i], v, d)
}

/// The version to which the steps that leave `v` in direction `d` lead.
pub open spec fn hop(steps: Seq<StepModel>, v: Version, d: Direction) -> Version {
    steps[choose|i: int| 0 <= i < steps.len() && is_edge(#[trigger] steps[i], v, d)].to
}

/// The steps that leave `v` in direction `d`, in the order of the registry.
pub open spec fn edge_steps(steps: Seq<StepModel>, v: Version, d: Direction) -> Seq<StepModel>
    decreases steps.len(),
{
    if steps.len() == 0 {
        Seq::empty()
    } else {
        let before = edge_steps(steps.drop_last(), v, d);
        if is_edge(steps.last(), v, d) {
            before.push(steps.last())
        } else {
            before
        }
    }
}

/// The version that `k` hops in direction `d` lead to from `from`, if the
/// registry has that many edges in a row.
pub open spec fn reached(steps: Seq<StepModel>, from: Version, d: Direction, k: nat) -> Option<
    Version,
>
    decreases k,
{
    if k == 0 {
        Some(from)
    } else {
        match reached(steps, from, d, (k - 1) as nat) {
            Some(v) => if has_hop(steps, v, d) {
                Some(hop(steps, v, d))
            } else {
                None
            },
            None => None,
        }
    }
}

/// The steps of the first `k` hops in direction `d` from `from`, edge by edge.
pub open spec fn route(steps: Seq<StepModel>, from: Version, d: Direction, k: nat) -> Seq<
    StepModel,
>
    decreases k,
{
    if k == 0 {
        Seq::empty()
    } else {
        route(steps, from, d, (k - 1) as nat) + edge_steps(
            steps,
            reached(steps, from, d, (k - 1) as nat)->0,
            d,
        )
    }
}

/// Whether `k` hops in direction `d` lead from `from` to `to`.
pub open spec fn connects(
    steps: Seq<StepModel>,
    from: Version,
    to: Version,
    d: Direction,
    k: nat,
) -> bool {
    reached(steps, from, d, k) == Some(to)
}

/// Whether a step leads from `a` to `b`.
pub open spec fn has_step(steps: Seq<StepModel>, a: Version, b: Version) -> bool {
    exists|j: int| 0 <= j < steps.len() && (#[trigger] steps[j]).from == a && steps[j].to == b
}

/// Whether from each version of the walk a step leads to the next one.
pub open spec fn is_walk(steps: Seq<StepModel>, walk: Seq<Version>) -> bool {
    &&& walk.len() >= 1
    &&& forall|i: int| 0 <= i < walk.len() - 1 ==> has_step(steps, #[trigger] walk[i], walk[i + 1])
}

/// Whether steps of the registry, of whatever direction, lead from `a` to
/// `b` one after the other.
pub open spec fn linked(steps: Seq<StepModel>, a: Version, b: Version) -> bool {
    exists|walk: Seq<Version>| #[trigger] is_walk(steps, walk) && walk[0] == a && walk.last() == b
}

/// The steps that lead from `from` to `to` in direction `d`. Between a
/// version and itself there is nothing to do. Else the direction must agree
/// with the order of the two versions, and some number of hops in that
/// direction must lead from the one to the other: the steps of those hops
/// are the result. Where no such hops do, but steps of both directions lead
/// from the one to the other, the direction is at fault; where no steps do,
/// there is no path.
pub open spec fn resolve_model(
    steps: Seq<StepModel>,
    from: Version,
    to: Version,
    d: Direction,
) -> Result<Seq<StepModel>, MigrationError> {
    if from == to {
        Ok(Seq::empty())
    } else if !d.leads(from, to) {
        Err(MigrationError::InvalidDirection)
    } else if exists|k: nat| connects(steps, from, to, d, k) {
        Ok(route(steps, from, d, choose|k: nat| connects(steps, from, to, d, k)))
    } else if linked(steps, from, to) {
        Err(MigrationError::InvalidDirection)
    } else {
        Err(MigrationError::NoPathFound)
    }
}

/// Whether the versions hold, with the source of a step, its target.
pub open spec fn is_closed(steps: Seq<StepModel>, seen: Seq<Version>) -> bool {
    forall|j: int|
        0 <= j < steps.len() && seen.contains((#[trigger] steps[j]).from) ==> seen.contains(
            steps[j].to,
        )
}

/// The number of steps whose target is not among the versions.
pub open spec fn fresh(steps: Seq<StepModel>, seen: Seq<Version>) -> nat
    decreases steps.len(),
{
    if steps.len() == 0 {
        0
    } else {
        fresh(steps.drop_last(), seen) + if seen.contains(steps.last().to) {
            0nat
        } else {
            1nat
        }
    }
}

/// One more version leaves no more steps fresh, and fewer where it is the
/// target of a step that was fresh.
pub proof fn lemma_fresh_drops(steps: Seq<StepModel>, seen: Seq<Version>, v: Version)
    ensures
        fresh(steps, seen.push(v)) <= fresh(steps, seen),
        !seen.contains(v) && (exists|j: int| 0 <= j < steps.len() && (#[trigger] steps[j]).to == v)
            ==> fresh(steps, seen.push(v)) < fresh(steps, seen),
    decreases steps.len(),
{
    let more = seen.push(v);
    assert forall|x: Version| seen.contains(x) implies more.contains(x) by {
        let i = choose|i: int| 0 <= i < seen.len() && seen[i] == x;
        assert(more[i] == x);
    }
    assert(more[seen.len() as int] == v);
    if steps.len() > 0 {
        let front = steps.drop_last();
        lemma_fresh_drops(front, seen, v);
        if !seen.contains(v) && (exists|j: int| 0 <= j < steps.len() && (#[trigger] steps[j]).to
            == v) {
            let j = choose|j: int| 0 <= j < steps.len() && (#[trigger] steps[j]).to == v;
            if j < front.len() {
                assert(front[j].to == v);
            } else {
                assert(steps.last().to == v);
            }
        }
    }
}

/// A version is linked to itself, and to every version to which a step leads
/// from a version that it is linked to.
pub proof fn lemma_linked_further(steps: Seq<StepModel>, a: Version, b: Version, c: Version)
    ensures
        linked(steps, a, a),
        linked(steps, a, b) && has_step(steps, b, c) ==> linked(steps, a, c),
{
    let alone = seq![a];
    assert(is_walk(steps, alone) && alone[0] == a && alone.last() == a);
    if linked(steps, a, b) && has_step(steps, b, c) {
        let walk = choose|walk: Seq<Version>| #[trigger]
            is_walk(steps, walk) && walk[0] == a && walk.last() == b;
        let longer = walk.push(c);
        assert forall|i: int| 0 <= i < longer.len() - 1 implies has_step(
            steps,
            #[trigger] longer[i],
            longer[i + 1],
        ) by {
            if i < walk.len() - 1 {
                assert(has_step(steps, walk[i], walk[i + 1]));
            }
        }
        assert(is_walk(steps, longer) && longer[0] == a && longer.last() == c);
    }
}

/// A walk that starts among closed versions stays among them.
pub proof fn lemma_walk_stays(steps: Seq<StepModel>, seen: Seq<Version>, walk: Seq<Version>, i: int)
    requires
        is_closed(steps, seen),
        is_walk(steps, walk),
        seen.contains(walk[0]),
        0 <= i < walk.len(),
    ensures
        seen.contains(walk[i]),
    decreases i,
{
    if i > 0 {
        lemma_walk_stays(steps, seen, walk, i - 1);
        assert(has_step(steps, walk[i - 1], walk[i - 1 + 1]));
        let j = choose|j: int|
            0 <= j < steps.len() && (#[trigger] steps[j]).from == walk[i - 1] && steps[j].to
                == walk[i];
        assert(seen.contains(steps[j].to));
    }
}

/// Every hop is a move in the direction: the versions reached are in strict
/// order, and all of them exist where a later one does.
pub proof fn lemma_reached_in_order(
    steps: Seq<StepModel>,
    from: Version,
    d: Direction,
    j: nat,
    k: nat,
)
    requires
        j <= k,
        reached(steps, from, d, k) is Some,
    ensures
        reached(steps, from, d, j) is Some,
        j < k ==> d.leads(reached(steps, from, d, j)->0, reached(steps, from, d, k)->0),
    decreases k,
{
    if j < k {
        let before = reached(steps, from, d, (k - 1) as nat)->0;
        let here = reached(steps, from, d, k)->0;
        let c = choose|i: int| 0 <= i < steps.len() && is_edge(#[trigger] steps[i], before, d);
        assert(d.leads(before, here));
        lemma_reached_in_order(steps, from, d, j, (k - 1) as nat);
        d.lemma_leads_is_total_order(reached(steps, from, d, j)->0, before, here);
    }
}

/// At most one number of hops leads from one version to another.
pub proof fn lemma_connects_once(
    steps: Seq<StepModel>,
    from: Version,
    to: Version,
    d: Direction,
    j: nat,
    k: nat,
)
    requires
        connects(steps, from, to, d, j),
        connects(steps, from, to, d, k),
    ensures
        j == k,
{
    d.lemma_leads_is_total_order(to, to, to);
    if j < k {
        lemma_reached_in_order(steps, from, d, j, k);
    } else if k < j {
        lemma_reached_in_order(steps, from, d, k, j);
    }
}

/// Where `k` hops stop short of `to`, and one more hop does not exist or
/// leads past `to`, no number of hops leads to `to`.
pub proof fn lemma_no_connection(
    steps: Seq<StepModel>,
    from: Version,
    to: Version,
    d: Direction,
    k: nat,
)
    requires
        reached(steps, from, d, k) is Some,
        d.leads(reached(steps, from, d, k)->0, to),
        reached(steps, from, d, k + 1) matches Some(past) ==> d.leads(to, past),
    ensures
        forall|n: nat| !connects(steps, from, to, d, n),
{
    let here = reached(steps, from, d, k)->0;
    assert forall|n: nat| !connects(steps, from, to, d, n) by {
        if connects(steps, from, to, d, n) {
            if n <= k {
                lemma_reached_in_order(steps, from, d, n, k);
                d.lemma_leads_is_total_order(to, here, to);
            } else {
                lemma_reached_in_order(steps, from, d, k + 1, n);
                let past = reached(steps, from, d, k + 1)->0;
                d.lemma_leads_is_total_order(to, past, to);
            }
            assert(false);
        }
    }
}

/// Between a version and itself there are no steps, whatever the registry
/// holds and whatever the direction.
pub proof fn lemma_no_steps_to_self(steps: Seq<StepModel>, v: Version, d: Direction)
    ensures
        resolve_model(steps, v, v, d) == Ok::<_, MigrationError>(Seq::<StepModel>::empty()),
{
}

/// No run comes to one version twice.
pub proof fn lemma_no_cycle(steps: Seq<StepModel>, from: Version, d: Direction, j: nat, k: nat)
    requires
        j != k,
        reached(steps, from, d, j) is Some,
        reached(steps, from, d, k) is Some,
    ensures
        reached(steps, from, d, j) != reached(steps, from, d, k),
{
    let a = reached(steps, from, d, j)->0;
    d.lemma_leads_is_total_order(a, a, a);
    if j < k {
        lemma_reached_in_order(steps, from, d, j, k);
    } else {
        lemma_reached_in_order(steps, from, d, k, j);
    }
}

/// The steps of an edge are steps of the registry that leave the version in
/// the direction.
pub proof fn lemma_edge_steps(steps: Seq<StepModel>, v: Version, d: Direction, i: int)
    requires
        0 <= i < edge_steps(steps, v, d).len(),
    ensures
        steps.contains(edge_steps(steps, v, d)[i]),
        is_edge(edge_steps(steps, v, d)[i], v, d),
    decreases steps.len(),
{
    if steps.len() > 0 {
        let front = steps.drop_last();
        let before = edge_steps(front, v, d);
        if i < before.len() {
            lemma_edge_steps(front, v, d, i);
            let at = choose|at: int| 0 <= at < front.len() && front[at] == before[i];
            assert(steps[at] == before[i]);
        } else {
            assert(steps[steps.len() - 1] == steps.last());
        }
    }
}

/// Every step of a route is a step of the registry, is a move in the
/// direction of the run, and leaves a version that the run comes to.
pub proof fn lemma_route_steps(steps: Seq<StepModel>, from: Version, d: Direction, k: nat, i: int)
    requires
        reached(steps, from, d, k) is Some,
        0 <= i < route(steps, from, d, k).len(),
    ensures
        steps.contains(route(steps, from, d, k)[i]),
        d.leads(route(steps, from, d, k)[i].from, route(steps, from, d, k)[i].to),
        exists|j: nat|
            j < k && #[trigger] reached(steps, from, d, j) == Some(route(steps, from, d, k)[i].from),
    decreases k,
{
    if k > 0 {
        let shorter = (k - 1) as nat;
        lemma_reached_in_order(steps, from, d, shorter, k);
        let before = route(steps, from, d, shorter);
        let here = reached(steps, from, d, shorter)->0;
        if i < before.len() {
            lemma_route_steps(steps, from, d, shorter, i);
            let j = choose|j: nat|
                j < shorter && #[trigger] reached(steps, from, d, j) == Some(before[i].from);
            assert(j < k && reached(steps, from, d, j) == Some(before[i].from));
        } else {
            lemma_edge_steps(steps, here, d, i - before.len());
            assert(reached(steps, from, d, shorter) == Some(here));
        }
    }
}

/// With one step from a first version to a second and one from the second to
/// a third, the way from the first to the third is the two steps in that
/// order.
pub proof fn lemma_two_edges(a: StepModel, b: StepModel, d: Direction)
    requires
        a.to == b.from,
        d.leads(a.from, a.to),
        d.leads(b.from, b.to),
    ensures
        is_registry(seq![a, b]),
        resolve_model(seq![a, b], a.from, b.to, d) == Ok::<_, MigrationError>(seq![a, b]),
{
    let steps = seq![a, b];
    d.lemma_leads_is_total_order(a.from, a.to, b.to);
    d.lemma_leads_is_total_order(a.from, a.from, a.from);
    d.lemma_leads_is_total_order(a.to, a.to, a.to);
    d.lemma_leads_is_total_order(b.to, b.to, b.to);
    d.lemma_leads_is_total_order(b.to, b.from, b.to);
    d.lemma_leads_is_total_order(a.to, a.from, a.to);
    assert(steps[0] == a && steps[1] == b);
    assert(is_edge(steps[0], a.from, d));
    assert(is_edge(steps[1], a.to, d));
    assert(hop(steps, a.from, d) == a.to);
    assert(hop(steps, a.to, d) == b.to);
    assert(reached(steps, a.from, d, 0) == Some(a.from));
    assert(reached(steps, a.from, d, 1) == Some(a.to));
    assert(reached(steps, a.from, d, 2) == Some(b.to));
    assert(connects(steps, a.from, b.to, d, 2));
    let k = choose|k: nat| connects(steps, a.from, b.to, d, k);
    lemma_connects_once(steps, a.from, b.to, d, k, 2);
    let one = seq![a];
    let none = Seq::<StepModel>::empty();
    assert(steps.drop_last() == one);
    assert(one.drop_last() == none);
    assert(edge_steps(none, a.from, d) == none);
    assert(edge_steps(none, a.to, d) == none);
    assert(edge_steps(one, a.from, d) == seq![a]);
    assert(edge_steps(one, a.to, d) == none);
    assert(edge_steps(steps, a.from, d) == seq![a]);
    assert(edge_steps(steps, a.to, d) == seq![b]);
    assert(route(steps, a.from, d, 0) == none);
    assert(route(steps, a.from, d, 1) == seq![a]);
    assert(route(steps, a.from, d, 2) == seq![a, b]);
}

/// Whether the version is in the list.
fn among(list: &Vec<Version>, v: Version) -> (b: bool)
    ensures
        b == list@.contains(v),
{
    let mut i: usize = 0;
    while i < list.len()
        invariant
            i <= list.len(),
            forall|j: int| 0 <= j < i ==> list[j] != v,
        decreases list.len() - i,
    {
        if list[i] == v {
            return true;
        }
        i = i + 1;
    }
    false
}

/// The registry of migration steps.
#[derive(Debug)]
pub struct Registry {
    steps: Vec<MigrationStep>,
}

impl View for Registry {
    type V = Seq<StepModel>;

    closed spec fn view(&self) -> Seq<StepModel> {
        step_views(self.steps@)
    }
}

impl Registry {
    #[verifier::type_invariant]
    spec fn well_formed(self) -> bool {
        is_registry(step_views(self.steps@))
    }

    /// The registry without steps.
    pub fn new() -> (registry: Registry)
        ensures
            registry@ == Seq::<StepModel>::empty(),
    {
        let registry = Registry { steps: Vec::new() };
        assert(registry@ =~= Seq::<StepModel>::empty());
        registry
    }

    /// The registry of the steps of a table, registered in the order of the
    /// table. The result is as [`register_all_model`] says.
    pub fn from_steps(table: Vec<MigrationStep>) -> (r: Result<Registry, MigrationError>)
        ensures
            match r {
                Ok(registry) => register_all_model(Seq::empty(), step_views(table@)) == Ok::<
                    _,
                    MigrationError,
                >(registry@),
                Err(e) => register_all_model(Seq::empty(), step_views(table@)) == Err::<
                    Seq<StepModel>,
                    _,
                >(e),
            },
    {
        let ghost all = step_views(table@);
        let mut rest = table;
        let mut registry = Registry::new();
        while rest.len() > 0
            invariant
                all == step_views(table@),
                register_all_model(Seq::empty(), all) == register_all_model(
                    registry@,
                    step_views(rest@),
                ),
            decreases rest.len(),
        {
            let ghost before = step_views(rest@);
            let step = rest.remove(0);
            assert(step_views(rest@) =~= before.drop_first());
            assert(before[0] == step@);
            match registry.register(step) {
                Ok(()) => {},
                Err(e) => {
                    return Err(e);
                },
            }
        }
        Ok(registry)
    }

    /// The number of steps.
    pub fn len(&self) -> (n: usize)
        ensures
            n == self@.len(),
            is_registry(self@),
    {
        proof {
            use_type_invariant(self);
        }
        self.steps.len()
    }

    /// The step at position `i`, in the order of registration.
    pub fn step(&self, i: usize) -> (step: &MigrationStep)
        requires
            i < self@.len(),
        ensures
            step@ == self@[i as int],
    {
        &self.steps[i]
    }

    /// Registers a step as the last of the registry. Where the step is
    /// refused the registry stays as it is. The result is as
    /// [`register_model`] says.
    pub fn register(&mut self, step: MigrationStep) -> (r: Result<(), MigrationError>)
        ensures
            match r {
                Ok(()) => register_model(old(self)@, step@) == Ok::<_, MigrationError>(
                    final(self)@,
                ),
                Err(e) => register_model(old(self)@, step@) == Err::<Seq<StepModel>, _>(e)
                    && final(self)@ == old(self)@,
            },
            is_registry(final(self)@),
    {
        proof {
            use_type_invariant(&*self);
        }
        if step.from == step.to {
            return Err(MigrationError::InvalidDirection);
        }
        let forward = step.from.is_before(&step.to);
        let mut i: usize = 0;
        while i < self.steps.len()
            invariant
                i <= self.steps.len(),
                *self == *old(self),
                is_registry(self@),
                step.from != step.to,
                forward == step.from.precedes(step.to),
                forall|j: int| 0 <= j < i ==> !clashes(#[trigger] self@[j], step@),
            decreases self.steps.len() - i,
        {
            let other = &self.steps[i];
            if other.from == step.from && other.to != step.to && other.from.is_before(&other.to)
                == forward {
                assert(clashes(self@[i as int], step@));
                return Err(MigrationError::AmbiguousPath);
            }
            i = i + 1;
        }
        let ghost before = self@;
        let ghost added = step@;
        let mut steps: Vec<MigrationStep> = Vec::new();
        std::mem::swap(&mut steps, &mut self.steps);
        steps.push(step);
        proof {
            let after = step_views(steps@);
            assert(after =~= before.push(added));
            assert forall|a: int, b: int|
                0 <= a < after.len() && 0 <= b < after.len() implies !clashes(
                #[trigger] after[a],
                #[trigger] after[b],
            ) by {
                if a < before.len() && b < before.len() {
                    assert(!clashes(before[a], before[b]));
                } else if a < before.len() {
                    assert(!clashes(before[a], added));
                } else if b < before.len() {
                    assert(!clashes(before[b], added));
                }
            }
        }
        self.steps = steps;
        Ok(())
    }

    /// Why no hops in one direction lead from `from` to `to`: the direction is
    /// at fault where steps of both directions do lead there, else there is
    /// no path.
    fn unjoined(&self, from: Version, to: Version) -> (e: MigrationError)
        ensures
            e == (if linked(self@, from, to) {
                MigrationError::InvalidDirection
            } else {
                MigrationError::NoPathFound
            }),
    {
        if self.is_linked(from, to) {
            MigrationError::InvalidDirection
        } else {
            MigrationError::NoPathFound
        }
    }

    /// Whether steps of the registry, of whatever direction, lead from `from`
    /// to `to` one after the other.
    pub fn is_linked(&self, from: Version, to: Version) -> (b: bool)
        ensures
            b == linked(self@, from, to),
    {
        let ghost all = self@;
        let mut seen: Vec<Version> = Vec::new();
        seen.push(from);
        let mut done = false;
        proof {
            lemma_linked_further(all, from, from, from);
        }
        while !done
            invariant
                all == self@,
                seen.len() >= 1,
                seen[0] == from,
                forall|i: int| 0 <= i < seen.len() ==> linked(all, from, #[trigger] seen[i]),
                done ==> is_closed(all, seen@),
            decreases
                    fresh(all, seen@) + (if done {
                        0int
                    } else {
                        1int
                    }),
        {
            let ghost before = seen@;
            let mut grew = false;
            let mut j: usize = 0;
            while j < self.steps.len()
                invariant
                    j <= self.steps.len(),
                    all == self@,
                    seen.len() >= 1,
                    seen[0] == from,
                    forall|i: int| 0 <= i < seen.len() ==> linked(all, from, #[trigger] seen[i]),
                    fresh(all, seen@) <= fresh(all, before),
                    grew ==> fresh(all, seen@) < fresh(all, before),
                    !grew ==> forall|i: int|
                        0 <= i < j && seen@.contains((#[trigger] all[i]).from) ==> seen@.contains(
                            all[i].to,
                        ),
                decreases self.steps.len() - j,
            {
                let step = &self.steps[j];
                assert(step@ == all[j as int]);
                if among(&seen, step.from) && !among(&seen, step.to) {
                    proof {
                        let at = choose|at: int| 0 <= at < seen.len() && seen[at] == step.from;
                        assert(linked(all, from, seen[at]));
                        lemma_linked_further(all, from, step.from, step.to);
                        lemma_fresh_drops(all, seen@, step.to);
                    }
                    seen.push(step.to);
                    grew = true;
                }
                j = j + 1;
            }
            if !grew {
                done = true;
            }
        }
        proof {
            if linked(all, from, to) {
                let walk = choose|walk: Seq<Version>| #[trigger]
                    is_walk(all, walk) && walk[0] == from && walk.last() == to;
                assert(seen@[0] == from);
                lemma_walk_stays(all, seen@, walk, walk.len() - 1);
            }
            if seen@.contains(to) {
                let at = choose|at: int| 0 <= at < seen.len() && seen[at] == to;
                assert(linked(all, from, seen[at]));
            }
        }
        among(&seen, to)
    }

    /// The steps that lead from `from` to `to` in the given direction, in the
    /// order in which they are to be applied. The result is as
    /// [`resolve_model`] says.
    pub fn steps_between(&self, from: Version, to: Version, direction: Direction) -> (r: Result<
        Vec<&MigrationStep>,
        MigrationError,
    >)
        ensures
            match r {
                Ok(list) => resolve_model(self@, from, to, direction) == Ok::<_, MigrationError>(
                    ref_views(list@),
                ),
                Err(e) => resolve_model(self@, from, to, direction) == Err::<Seq<StepModel>, _>(e),
            },
    {
        proof {
            use_type_invariant(self);
        }
        let mut list: Vec<&MigrationStep> = Vec::new();
        if from == to {
            assert(ref_views(list@) =~= Seq::<StepModel>::empty());
            return Ok(list);
        }
        if !direction.is_move(&from, &to) {
            return Err(MigrationError::InvalidDirection);
        }
        let ghost all = self@;
        let ghost mut hops: nat = 0;
        let mut cur = from;
        assert(ref_views(list@) =~= route(all, from, direction, 0));
        loop
            invariant
                all == self@,
                is_registry(all),
                from != to,
                direction.leads(from, to),
                reached(all, from, direction, hops) == Some(cur),
                ref_views(list@) == route(all, from, direction, hops),
                direction.leads(cur, to),
            decreases direction.distance(cur, to),
        {
            let ghost before = ref_views(list@);
            let mut next: Option<Version> = None;
            let mut i: usize = 0;
            assert(all.take(0) =~= Seq::<StepModel>::empty());
            assert(before + Seq::<StepModel>::empty() =~= before);
            while i < self.steps.len()
                invariant
                    i <= self.steps.len(),
                    all == self@,
                    ref_views(list@) == before + edge_steps(all.take(i as int), cur, direction),
                    next is None ==> forall|j: int|
                        0 <= j < i ==> !is_edge(#[trigger] all[j], cur, direction),
                    next matches Some(t) ==> exists|j: int|
                        0 <= j < i && is_edge(#[trigger] all[j], cur, direction) && all[j].to == t,
                decreases self.steps.len() - i,
            {
                let step = &self.steps[i];
                proof {
                    assert(all.take(i + 1).drop_last() =~= all.take(i as int));
                    assert(all.take(i + 1).last() == all[i as int]);
                    assert(step@ == all[i as int]);
                }
                if step.from == cur && direction.is_move(&step.from, &step.to) {
                    proof {
                        let found = edge_steps(all.take(i as int), cur, direction);
                        assert(ref_views(list@.push(step)) =~= ref_views(list@).push(step@));
                        assert((before + found).push(step@) =~= before + found.push(step@));
                    }
                    list.push(step);
                    next = Some(step.to);
                }
                i = i + 1;
            }
            assert(all.take(i as int) =~= all);
            match next {
                None => {
                    proof {
                        assert(!has_hop(all, cur, direction));
                        assert(reached(all, from, direction, hops + 1) is None);
                        lemma_no_connection(all, from, to, direction, hops);
                    }
                    return Err(self.unjoined(from, to));
                },
                Some(n) => {
                    proof {
                        let j = choose|j: int|
                            0 <= j < all.len() && is_edge(#[trigger] all[j], cur, direction)
                                && all[j].to == n;
                        let c = choose|c: int|
                            0 <= c < all.len() && is_edge(#[trigger] all[c], cur, direction);
                        assert(!clashes(all[j], all[c]));
                        assert(hop(all, cur, direction) == n);
                        assert(reached(all, from, direction, hops + 1) == Some(n));
                        assert(ref_views(list@) == route(all, from, direction, hops + 1));
                        direction.lemma_leads_is_total_order(cur, n, to);
                        direction.lemma_leads_is_total_order(n, to, n);
                    }
                    if n == to {
                        proof {
                            let k = choose|k: nat| connects(all, from, to, direction, k);
                            assert(connects(all, from, to, direction, hops + 1));
                            lemma_connects_once(all, from, to, direction, k, hops + 1);
                        }
                        return Ok(list);
                    }
                    if !direction.is_move(&n, &to) {
                        proof {
                            lemma_no_connection(all, from, to, direction, hops);
                        }
                        return Err(self.unjoined(from, to));
                    }
                    cur = n;
                    proof {
                        hops = hops + 1;
                    }
                },
            }
        }
    }
}

} // verus!
