use config_migration::{
    run_migration, ConfigTree, Direction, MigrationError, MigrationOperation, MigrationOutcome,
    MigrationStep, Node, Path, Phase, Registry, RunnerState, Version,
};

fn path(s: &str) -> Path {
    Path::parse(s)
}

fn paths(list: &[&str]) -> Vec<Path> {
    list.iter().map(|s| Path::parse(s)).collect()
}

fn v(major: u32, minor: u32) -> Version {
    Version::new(major, minor, 0)
}

fn step(from: Version, to: Version, operation: MigrationOperation, why: &str) -> MigrationStep {
    MigrationStep { from, to, operation, justification: why.to_string() }
}

fn add_pki() -> MigrationOperation {
    MigrationOperation::AddPrefixes(paths(&["settings.pki", "services.pki"]))
}

fn pki_registry() -> Registry {
    let mut registry = Registry::new();
    let added = step(v(1, 0), v(1, 1), add_pki(), "We added the settings and services for `pki`");
    assert_eq!(registry.register(added), Ok(()));
    registry
}

fn dotted(tree: &ConfigTree) -> Vec<String> {
    tree.entries().iter().map(|e| e.0.to_dotted()).collect()
}

#[test]
fn versions_are_ordered_by_major_minor_patch() {
    assert!(Version::new(1, 0, 0).is_before(&Version::new(1, 0, 1)));
    assert!(Version::new(1, 0, 9).is_before(&Version::new(1, 1, 0)));
    assert!(Version::new(1, 9, 9).is_before(&Version::new(2, 0, 0)));
    assert!(!Version::new(1, 2, 0).is_before(&Version::new(1, 2, 0)));
    assert!(!Version::new(2, 0, 0).is_before(&Version::new(1, 9, 9)));
    assert!(!Version::new(1, 1, 0).is_before(&Version::new(1, 0, 9)));
    assert_eq!(Version::new(1, 2, 3), Version { major: 1, minor: 2, patch: 3 });
}

#[test]
fn directions_tell_upgrades_from_downgrades() {
    assert!(Direction::Forward.is_move(&v(1, 0), &v(1, 1)));
    assert!(!Direction::Forward.is_move(&v(1, 1), &v(1, 0)));
    assert!(!Direction::Forward.is_move(&v(1, 1), &v(1, 1)));
    assert!(Direction::Backward.is_move(&v(1, 1), &v(1, 0)));
    assert!(!Direction::Backward.is_move(&v(1, 0), &v(1, 1)));
    assert_eq!(Direction::Forward.reversed(), Direction::Backward);
    assert_eq!(Direction::Backward.reversed(), Direction::Forward);
}

#[test]
fn add_prefixes_twice_is_add_prefixes_once() {
    let mut start = ConfigTree::new();
    assert_eq!(start.set(&path("settings.motd"), "hi".to_string()), Ok(()));
    let op = add_pki();
    let once = op.apply(&start).unwrap();
    let twice = op.apply(&once).unwrap();
    assert_eq!(twice, once);
    assert_eq!(once.len(), 5);
}

#[test]
fn add_prefixes_in_either_order_gives_the_same_tree() {
    let start = ConfigTree::new();
    let one = MigrationOperation::AddPrefixes(paths(&["settings.pki", "services.pki"]));
    let other = MigrationOperation::AddPrefixes(paths(&["services.pki", "settings.pki"]));
    let a = one.apply(&start).unwrap();
    let b = other.apply(&start).unwrap();
    assert_eq!(a, b);
    assert_eq!(dotted(&a), vec!["services", "services.pki", "settings", "settings.pki"]);
    assert_eq!(dotted(&b), vec!["services", "services.pki", "settings", "settings.pki"]);
}

#[test]
fn add_prefixes_with_a_prefix_below_another() {
    let start = ConfigTree::new();
    let down = MigrationOperation::AddPrefixes(paths(&["a", "a.b.c"]));
    let up = MigrationOperation::AddPrefixes(paths(&["a.b.c", "a"]));
    let tree = down.apply(&start).unwrap();
    assert_eq!(tree, up.apply(&start).unwrap());
    assert_eq!(dotted(&tree), vec!["a", "a.b", "a.b.c"]);
}

#[test]
fn add_prefixes_leaves_the_tree_alone_when_it_fails() {
    let mut start = ConfigTree::new();
    assert_eq!(start.set(&path("services.pki"), "x".to_string()), Ok(()));
    let before = start.clone();
    assert_eq!(add_pki().apply(&start), Err(MigrationError::PathKindMismatch));
    assert_eq!(start, before);
    assert_eq!(start.node(&path("settings")), None);
}

#[test]
fn remove_prefixes_removes_each_subtree() {
    let mut start = ConfigTree::new();
    assert_eq!(start.set(&path("settings.pki.bundle"), "b".to_string()), Ok(()));
    assert_eq!(start.add_prefix(&path("services.pki")), Ok(()));
    assert_eq!(start.set(&path("settings.motd"), "hi".to_string()), Ok(()));
    let op = MigrationOperation::RemovePrefixes(paths(&["settings.pki", "services.pki"]));
    let tree = op.apply(&start).unwrap();
    assert_eq!(dotted(&tree), vec!["services", "settings", "settings.motd"]);
    assert_eq!(op.apply(&tree).unwrap(), tree);
    let blocked = MigrationOperation::RemovePrefixes(paths(&["services", "settings.motd"]));
    assert_eq!(blocked.apply(&start), Err(MigrationError::PathKindMismatch));
}

#[test]
fn replace_moves_a_value() {
    let mut start = ConfigTree::new();
    assert_eq!(start.set(&path("settings.old-name"), "v".to_string()), Ok(()));
    let op = MigrationOperation::Replace(path("settings.old-name"), path("settings.sub.new-name"));
    let tree = op.apply(&start).unwrap();
    assert_eq!(tree.get(&path("settings.old-name")), Ok(None));
    assert_eq!(tree.get(&path("settings.sub.new-name")), Ok(Some("v".to_string())));
    assert_eq!(dotted(&tree), vec!["settings", "settings.sub", "settings.sub.new-name"]);
    assert_eq!(op.apply(&tree).unwrap(), tree);
}

#[test]
fn replace_without_a_value_to_move_changes_nothing() {
    let mut start = ConfigTree::new();
    assert_eq!(start.add_prefix(&path("settings")), Ok(()));
    let op = MigrationOperation::Replace(path("settings.a"), path("settings.b"));
    assert_eq!(op.apply(&start).unwrap(), start);
    assert_eq!(start.set(&path("settings.a"), "v".to_string()), Ok(()));
    let same = MigrationOperation::Replace(path("settings.a"), path("settings.a"));
    assert_eq!(same.apply(&start).unwrap(), start);
}

#[test]
fn replace_refuses_prefixes_and_conflicts() {
    let mut start = ConfigTree::new();
    assert_eq!(start.set(&path("a.b"), "v".to_string()), Ok(()));
    assert_eq!(start.add_prefix(&path("c")), Ok(()));
    let from_prefix = MigrationOperation::Replace(path("a"), path("d"));
    assert_eq!(from_prefix.apply(&start), Err(MigrationError::PathKindMismatch));
    let onto_prefix = MigrationOperation::Replace(path("a.b"), path("c"));
    assert_eq!(onto_prefix.apply(&start), Err(MigrationError::PathKindMismatch));
    let below_itself = MigrationOperation::Replace(path("a.b"), path("a.b.c"));
    assert_eq!(below_itself.apply(&start), Err(MigrationError::PathKindMismatch));
    let onto_parent = MigrationOperation::Replace(path("a.b"), path("a"));
    assert_eq!(onto_parent.apply(&start), Err(MigrationError::PathKindMismatch));
    let overwrite = MigrationOperation::Replace(path("a.b"), path("c.d"));
    let tree = overwrite.apply(&start).unwrap();
    assert_eq!(tree.get(&path("c.d")), Ok(Some("v".to_string())));
}

#[test]
fn set_value_sets_and_is_idempotent() {
    let start = ConfigTree::new();
    let op = MigrationOperation::SetValue(path("settings.motd"), "hello".to_string());
    let tree = op.apply(&start).unwrap();
    assert_eq!(tree.get(&path("settings.motd")), Ok(Some("hello".to_string())));
    assert_eq!(op.apply(&tree).unwrap(), tree);
    let onto_prefix = MigrationOperation::SetValue(path("settings"), "x".to_string());
    assert_eq!(onto_prefix.apply(&tree), Err(MigrationError::PathKindMismatch));
}

#[test]
fn inverse_undoes_the_shape() {
    let add = MigrationOperation::AddPrefixes(paths(&["a", "b.c"]));
    assert_eq!(add.inverse(), Some(MigrationOperation::RemovePrefixes(paths(&["b.c", "a"]))));
    let remove = MigrationOperation::RemovePrefixes(paths(&["a", "b.c"]));
    assert_eq!(remove.inverse(), Some(MigrationOperation::AddPrefixes(paths(&["b.c", "a"]))));
    let replace = MigrationOperation::Replace(path("x"), path("y"));
    assert_eq!(replace.inverse(), Some(MigrationOperation::Replace(path("y"), path("x"))));
    let set = MigrationOperation::SetValue(path("x"), "1".to_string());
    assert_eq!(set.inverse(), None);
    let start = ConfigTree::new();
    let added = add_pki().apply(&start).unwrap();
    let undone = add_pki().inverse().unwrap().apply(&added).unwrap();
    assert_eq!(dotted(&undone), vec!["services", "settings"]);
}

#[test]
fn steps_between_follows_the_edges_in_order() {
    let mut registry = Registry::new();
    let v1 = v(1, 0);
    let v2 = v(1, 1);
    let v3 = v(1, 2);
    assert_eq!(registry.register(step(v2, v3, add_pki(), "second")), Ok(()));
    assert_eq!(registry.register(step(v1, v2, add_pki(), "first")), Ok(()));
    let steps = registry.steps_between(v1, v3, Direction::Forward).unwrap();
    assert_eq!(steps.len(), 2);
    assert_eq!((steps[0].from, steps[0].to), (v1, v2));
    assert_eq!((steps[1].from, steps[1].to), (v2, v3));
    assert!(std::ptr::eq(steps[0], registry.step(1)));
    assert!(std::ptr::eq(steps[1], registry.step(0)));
    let part = registry.steps_between(v2, v3, Direction::Forward).unwrap();
    assert_eq!(part.len(), 1);
    assert_eq!(part[0].justification, "second");
}

#[test]
fn steps_between_a_version_and_itself_is_empty() {
    let registry = pki_registry();
    assert_eq!(registry.steps_between(v(1, 0), v(1, 0), Direction::Forward), Ok(vec![]));
    assert_eq!(registry.steps_between(v(1, 0), v(1, 0), Direction::Backward), Ok(vec![]));
    assert_eq!(registry.steps_between(v(7, 7), v(7, 7), Direction::Forward), Ok(vec![]));
    assert_eq!(Registry::new().steps_between(v(1, 0), v(1, 0), Direction::Forward), Ok(vec![]));
}

#[test]
fn steps_of_one_edge_come_in_the_order_of_registration() {
    let mut registry = Registry::new();
    let set = MigrationOperation::SetValue(path("a"), "1".to_string());
    assert_eq!(registry.register(step(v(1, 0), v(1, 1), add_pki(), "one")), Ok(()));
    assert_eq!(registry.register(step(v(1, 1), v(1, 2), add_pki(), "three")), Ok(()));
    assert_eq!(registry.register(step(v(1, 0), v(1, 1), set, "two")), Ok(()));
    let steps = registry.steps_between(v(1, 0), v(1, 2), Direction::Forward).unwrap();
    let why: Vec<&str> = steps.iter().map(|s| s.justification.as_str()).collect();
    assert_eq!(why, vec!["one", "two", "three"]);
}

#[test]
fn steps_between_unrelated_versions_finds_no_path() {
    let registry = pki_registry();
    let forward = Direction::Forward;
    assert_eq!(registry.steps_between(v(1, 0), v(1, 2), forward), Err(MigrationError::NoPathFound));
    assert_eq!(registry.steps_between(v(1, 1), v(1, 2), forward), Err(MigrationError::NoPathFound));
    assert_eq!(registry.steps_between(v(0, 9), v(1, 1), forward), Err(MigrationError::NoPathFound));
    assert_eq!(
        registry.steps_between(Version::new(1, 0, 0), Version::new(1, 0, 5), forward),
        Err(MigrationError::NoPathFound)
    );
    assert_eq!(
        registry.steps_between(v(1, 1), v(1, 0), Direction::Backward),
        Err(MigrationError::NoPathFound)
    );
}

#[test]
fn steps_between_against_the_direction_is_refused() {
    let registry = pki_registry();
    assert_eq!(
        registry.steps_between(v(1, 1), v(1, 0), Direction::Forward),
        Err(MigrationError::InvalidDirection)
    );
    assert_eq!(
        registry.steps_between(v(1, 0), v(1, 1), Direction::Backward),
        Err(MigrationError::InvalidDirection)
    );
}

#[test]
fn downgrades_follow_the_backward_edges() {
    let mut registry = pki_registry();
    let undo = add_pki().inverse().unwrap();
    assert_eq!(registry.register(step(v(1, 1), v(1, 0), undo, "back")), Ok(()));
    let steps = registry.steps_between(v(1, 1), v(1, 0), Direction::Backward).unwrap();
    assert_eq!(steps.len(), 1);
    assert_eq!(steps[0].justification, "back");
    let up = registry.steps_between(v(1, 0), v(1, 1), Direction::Forward).unwrap();
    assert_eq!(up.len(), 1);
    assert_eq!(up[0].justification, "We added the settings and services for `pki`");
}

#[test]
fn register_refuses_a_second_way_out_of_a_version() {
    let mut registry = pki_registry();
    let clash = step(v(1, 0), v(1, 2), add_pki(), "shortcut");
    assert_eq!(registry.register(clash), Err(MigrationError::AmbiguousPath));
    assert_eq!(registry.len(), 1);
    let same_edge = step(v(1, 0), v(1, 1), add_pki(), "more of the same edge");
    assert_eq!(registry.register(same_edge), Ok(()));
    let other_way = step(v(1, 0), v(0, 9), add_pki(), "a downgrade");
    assert_eq!(registry.register(other_way), Ok(()));
    assert_eq!(registry.len(), 3);
}

#[test]
fn register_refuses_a_step_that_leads_nowhere() {
    let mut registry = Registry::new();
    let still = step(v(1, 0), v(1, 0), add_pki(), "nowhere");
    assert_eq!(registry.register(still), Err(MigrationError::InvalidDirection));
    assert_eq!(registry.len(), 0);
}

#[test]
fn run_adds_the_pki_prefixes() {
    let registry = pki_registry();
    let outcome = run_migration(&registry, ConfigTree::new(), v(1, 0), v(1, 1), Direction::Forward);
    assert!(outcome.is_success());
    match outcome {
        MigrationOutcome::UpdatedTree(tree) => {
            assert_eq!(dotted(&tree), vec!["services", "services.pki", "settings", "settings.pki"]);
            for entry in tree.entries() {
                assert_eq!(entry.1, Node::Prefix);
            }
            assert_eq!(tree.len(), 4);
        },
        other => panic!("{:?}", other),
    }
}

#[test]
fn run_stops_at_a_value_in_the_way() {
    let registry = pki_registry();
    let mut start = ConfigTree::new();
    assert_eq!(start.set(&path("settings.pki"), "x".to_string()), Ok(()));
    let before = start.clone();
    let outcome = run_migration(&registry, start, v(1, 0), v(1, 1), Direction::Forward);
    assert!(!outcome.is_success());
    match outcome {
        MigrationOutcome::Failed { error, failed_step, applied, tree } => {
            assert_eq!(error, MigrationError::PathKindMismatch);
            assert_eq!(failed_step, Some(0));
            assert!(applied.is_empty());
            assert_eq!(tree, before);
            assert_eq!(tree.get(&path("settings.pki")), Ok(Some("x".to_string())));
        },
        other => panic!("{:?}", other),
    }
}

#[test]
fn run_reports_how_far_it_got() {
    let mut registry = pki_registry();
    let set = MigrationOperation::SetValue(path("settings.pki"), "x".to_string());
    let more = MigrationOperation::AddPrefixes(paths(&["settings.more"]));
    assert_eq!(registry.register(step(v(1, 1), v(1, 2), more, "more")), Ok(()));
    assert_eq!(registry.register(step(v(1, 2), v(1, 3), set, "bad")), Ok(()));
    assert_eq!(registry.register(step(v(1, 3), v(1, 4), add_pki(), "never")), Ok(()));
    let outcome = run_migration(&registry, ConfigTree::new(), v(1, 0), v(1, 4), Direction::Forward);
    match outcome {
        MigrationOutcome::Failed { error, failed_step, applied, tree } => {
            assert_eq!(error, MigrationError::PathKindMismatch);
            assert_eq!(failed_step, Some(2));
            let why: Vec<&str> = applied.iter().map(|s| s.justification.as_str()).collect();
            assert_eq!(why, vec!["We added the settings and services for `pki`", "more"]);
            assert_eq!(
                dotted(&tree),
                vec!["services", "services.pki", "settings", "settings.more", "settings.pki"]
            );
        },
        other => panic!("{:?}", other),
    }
}

#[test]
fn run_without_a_path_leaves_the_tree_alone() {
    let registry = pki_registry();
    let mut start = ConfigTree::new();
    assert_eq!(start.set(&path("a"), "1".to_string()), Ok(()));
    let before = start.clone();
    let outcome = run_migration(&registry, start, v(1, 0), v(2, 0), Direction::Forward);
    assert_eq!(
        outcome,
        MigrationOutcome::Failed {
            error: MigrationError::NoPathFound,
            failed_step: None,
            applied: vec![],
            tree: before,
        }
    );
    let wrong_way =
        run_migration(&registry, ConfigTree::new(), v(1, 1), v(1, 0), Direction::Forward);
    assert_eq!(
        wrong_way,
        MigrationOutcome::Failed {
            error: MigrationError::InvalidDirection,
            failed_step: None,
            applied: vec![],
            tree: ConfigTree::new(),
        }
    );
}

#[test]
fn run_between_a_version_and_itself_changes_nothing() {
    let registry = pki_registry();
    let mut start = ConfigTree::new();
    assert_eq!(start.set(&path("a"), "1".to_string()), Ok(()));
    let before = start.clone();
    let outcome = run_migration(&registry, start, v(1, 0), v(1, 0), Direction::Backward);
    assert_eq!(outcome, MigrationOutcome::UpdatedTree(before));
}

#[test]
fn run_up_and_down_again() {
    let mut registry = pki_registry();
    let undo = add_pki().inverse().unwrap();
    assert_eq!(registry.register(step(v(1, 1), v(1, 0), undo, "back")), Ok(()));
    let up = run_migration(&registry, ConfigTree::new(), v(1, 0), v(1, 1), Direction::Forward);
    let tree = up.into_result().unwrap();
    let down = run_migration(&registry, tree, v(1, 1), v(1, 0), Direction::Backward);
    let tree = down.into_result().unwrap();
    assert_eq!(dotted(&tree), vec!["services", "settings"]);
}

#[test]
fn a_runner_applies_each_step_to_what_the_last_left() {
    let registry = Registry::new();
    let first = step(v(1, 0), v(1, 1), add_pki(), "first");
    let set = MigrationOperation::SetValue(path("settings.pki.bundle"), "b".to_string());
    let second = step(v(1, 1), v(1, 2), set, "second");
    let start = RunnerState::Applying {
        tree: ConfigTree::new(),
        steps: vec![&first, &second],
        next: 0,
    };
    let tree = start.finish(&registry).unwrap().into_result().unwrap();
    assert_eq!(tree.get(&path("settings.pki.bundle")), Ok(Some("b".to_string())));
    assert_eq!(tree.len(), 5);
    let skipped = RunnerState::Applying { tree: ConfigTree::new(), steps: vec![&first], next: 1 };
    assert_eq!(
        skipped.finish(&registry),
        Ok(MigrationOutcome::UpdatedTree(ConfigTree::new()))
    );
}

#[test]
fn a_runner_goes_through_its_phases() {
    let registry = pki_registry();
    let idle = RunnerState::new(ConfigTree::new());
    assert_eq!(idle.phase(), Phase::Idle);
    let idle = idle.advance(&registry);
    assert_eq!(idle.phase(), Phase::Idle);
    let resolving = idle.request(v(1, 0), v(1, 1), Direction::Forward);
    assert_eq!(resolving.phase(), Phase::Resolving);
    let applying = resolving.advance(&registry);
    assert_eq!(applying.phase(), Phase::Applying);
    match &applying {
        RunnerState::Applying { tree, steps, next } => {
            assert_eq!(tree.len(), 0);
            assert_eq!(steps.len(), 1);
            assert_eq!(*next, 0);
        },
        other => panic!("{:?}", other),
    }
    let applying = applying.advance(&registry);
    assert_eq!(applying.phase(), Phase::Applying);
    match &applying {
        RunnerState::Applying { tree, steps, next } => {
            assert_eq!(tree.len(), 4);
            assert_eq!(steps.len(), 1);
            assert_eq!(*next, 1);
        },
        other => panic!("{:?}", other),
    }
    let done = applying.advance(&registry);
    assert_eq!(done.phase(), Phase::Succeeded);
    let asked_again = done.request(v(1, 1), v(1, 0), Direction::Backward);
    assert_eq!(asked_again.phase(), Phase::Succeeded);
    let still = asked_again.advance(&registry);
    assert_eq!(still.phase(), Phase::Succeeded);
    assert_eq!(still.finish(&registry).unwrap().into_result().map(|t| t.len()), Ok(4));
}

#[test]
fn a_runner_fails_from_resolving_and_from_applying() {
    let registry = pki_registry();
    let lost = RunnerState::new(ConfigTree::new())
        .request(v(1, 0), v(9, 0), Direction::Forward)
        .advance(&registry);
    assert_eq!(lost.phase(), Phase::Failed);
    let mut start = ConfigTree::new();
    assert_eq!(start.set(&path("services"), "x".to_string()), Ok(()));
    let applying = RunnerState::new(start.clone())
        .request(v(1, 0), v(1, 1), Direction::Forward)
        .advance(&registry);
    assert_eq!(applying.phase(), Phase::Applying);
    let failed = applying.advance(&registry);
    assert_eq!(failed.phase(), Phase::Failed);
    assert_eq!(
        failed,
        RunnerState::Done(MigrationOutcome::Failed {
            error: MigrationError::PathKindMismatch,
            failed_step: Some(0),
            applied: vec![],
            tree: start,
        })
    );
}

#[test]
fn an_idle_runner_has_nothing_to_finish() {
    let registry = pki_registry();
    let idle = RunnerState::new(ConfigTree::new());
    assert_eq!(idle.finish(&registry), Err(RunnerState::new(ConfigTree::new())));
}

#[test]
fn add_prefixes_from_dotted_strings() {
    let op = MigrationOperation::add_prefixes(&vec!["settings.pki", "services.pki"]);
    assert_eq!(op, add_pki());
    let undo = MigrationOperation::remove_prefixes(&vec!["services.pki", "settings.pki"]);
    assert_eq!(Some(undo), add_pki().inverse());
}

#[test]
fn into_result_wraps_the_failure_of_a_step() {
    let registry = pki_registry();
    let mut start = ConfigTree::new();
    assert_eq!(start.set(&path("settings"), "x".to_string()), Ok(()));
    let failed = run_migration(&registry, start, v(1, 0), v(1, 1), Direction::Forward);
    assert_eq!(
        failed.into_result(),
        Err(MigrationError::OperationFailed(0, Box::new(MigrationError::PathKindMismatch)))
    );
    let lost = run_migration(&registry, ConfigTree::new(), v(3, 0), v(4, 0), Direction::Forward);
    assert_eq!(lost.into_result(), Err(MigrationError::NoPathFound));
    let fine = run_migration(&registry, ConfigTree::new(), v(1, 0), v(1, 1), Direction::Forward);
    assert_eq!(fine.into_result().map(|t| t.len()), Ok(4));
}

#[test]
fn a_registry_from_a_table() {
    let table = vec![
        step(v(1, 1), v(1, 2), add_pki(), "b"),
        step(v(1, 0), v(1, 1), add_pki(), "a"),
        step(v(1, 1), v(1, 0), add_pki().inverse().unwrap(), "back"),
    ];
    let registry = Registry::from_steps(table).unwrap();
    assert_eq!(registry.len(), 3);
    assert_eq!(registry.step(0).justification, "b");
    assert_eq!(registry.step(2).justification, "back");
    let steps = registry.steps_between(v(1, 0), v(1, 2), Direction::Forward).unwrap();
    let why: Vec<&str> = steps.iter().map(|s| s.justification.as_str()).collect();
    assert_eq!(why, vec!["a", "b"]);
    assert_eq!(Registry::from_steps(vec![]).map(|r| r.len()), Ok(0));
}

#[test]
fn a_table_with_a_clash_or_a_still_step_is_refused() {
    let clash = vec![
        step(v(1, 0), v(1, 1), add_pki(), "a"),
        step(v(1, 0), v(1, 2), add_pki(), "b"),
        step(v(2, 0), v(2, 0), add_pki(), "c"),
    ];
    assert_eq!(Registry::from_steps(clash).map(|r| r.len()), Err(MigrationError::AmbiguousPath));
    let still = vec![
        step(v(2, 0), v(2, 0), add_pki(), "c"),
        step(v(1, 0), v(1, 1), add_pki(), "a"),
        step(v(1, 0), v(1, 2), add_pki(), "b"),
    ];
    assert_eq!(Registry::from_steps(still).map(|r| r.len()), Err(MigrationError::InvalidDirection));
}

#[test]
fn a_reversed_step_leads_back() {
    let forward = step(v(1, 0), v(1, 1), add_pki(), "We added the settings and services for `pki`");
    let back = forward.reversed().unwrap();
    assert_eq!((back.from, back.to), (v(1, 1), v(1, 0)));
    assert_eq!(Some(back.operation), add_pki().inverse());
    assert_eq!(back.justification, forward.justification);
    let set = MigrationOperation::SetValue(path("a"), "1".to_string());
    assert_eq!(step(v(1, 0), v(1, 1), set, "set").reversed(), None);
}

#[test]
fn versions_joined_by_steps_of_both_directions_only() {
    let mut registry = Registry::new();
    let undo = add_pki().inverse().unwrap();
    assert_eq!(registry.register(step(v(1, 0), v(2, 0), add_pki(), "up")), Ok(()));
    assert_eq!(registry.register(step(v(2, 0), v(1, 5), undo, "down")), Ok(()));
    assert!(registry.is_linked(v(1, 0), v(1, 5)));
    assert_eq!(
        registry.steps_between(v(1, 0), v(1, 5), Direction::Forward),
        Err(MigrationError::InvalidDirection)
    );
    assert_eq!(
        registry.steps_between(v(1, 0), v(1, 7), Direction::Forward),
        Err(MigrationError::NoPathFound)
    );
    assert_eq!(
        registry.steps_between(v(1, 0), v(3, 0), Direction::Forward),
        Err(MigrationError::NoPathFound)
    );
    let outcome = run_migration(&registry, ConfigTree::new(), v(1, 0), v(1, 5), Direction::Forward);
    assert_eq!(outcome.into_result(), Err(MigrationError::InvalidDirection));
}

#[test]
fn linked_follows_the_steps_whatever_their_direction() {
    let mut registry = pki_registry();
    let undo = add_pki().inverse().unwrap();
    assert_eq!(registry.register(step(v(1, 1), v(1, 0), undo, "back")), Ok(()));
    assert_eq!(registry.register(step(v(1, 1), v(1, 2), add_pki(), "on")), Ok(()));
    assert_eq!(registry.register(step(v(2, 0), v(2, 1), add_pki(), "apart")), Ok(()));
    assert!(registry.is_linked(v(1, 0), v(1, 0)));
    assert!(registry.is_linked(v(9, 9), v(9, 9)));
    assert!(registry.is_linked(v(1, 0), v(1, 1)));
    assert!(registry.is_linked(v(1, 0), v(1, 2)));
    assert!(registry.is_linked(v(1, 1), v(1, 0)));
    assert!(!registry.is_linked(v(1, 2), v(1, 0)));
    assert!(!registry.is_linked(v(1, 0), v(2, 0)));
    assert!(!registry.is_linked(v(1, 0), v(2, 1)));
    assert!(registry.is_linked(v(2, 0), v(2, 1)));
    assert!(!registry.is_linked(v(2, 1), v(2, 0)));
    assert!(!Registry::new().is_linked(v(1, 0), v(1, 1)));
}
