use goal_tracker::goal::{DefaultGoal, FatalError, Goal, GoalError, GoalId, RootGoal};
use goal_tracker::holder::DefaultHolder;
use goal_tracker::status::{Outcome, Status};
use goal_tracker::view::{GoalContainer, GoalHandler, NoopHandler};

fn build_container(root: &str) -> GoalContainer<NoopHandler> {
    let holder = DefaultHolder::new(NoopHandler);
    GoalContainer::new(root.to_string(), holder).expect("container")
}

#[test]
fn registered_goal_resolves_to_its_id() {
    let mut c = build_container("build");
    let compile = c
        .root_goal
        .sub_goal(&mut c.holder, "compile".to_string())
        .expect("spawn compile");
    let root_id = c.holder.get_goal_id(&"build".to_string()).expect("root id");
    let compile_id = c
        .holder
        .get_goal_id(&"compile".to_string())
        .expect("compile id");
    assert_eq!(root_id, c.root_goal.id());
    assert_eq!(compile_id, compile.id());
    assert_ne!(root_id, compile_id);
    assert_eq!(root_id, GoalId(1));
    assert_eq!(compile_id, GoalId(2));
}

#[test]
fn identifiers_increase_and_are_never_reused() {
    let mut c = build_container("build");
    let a = c
        .root_goal
        .sub_goal(&mut c.holder, "a".to_string())
        .expect("a");
    let b = c
        .root_goal
        .sub_goal(&mut c.holder, "b".to_string())
        .expect("b");
    // a duplicate attempt fails and must not burn or reuse identifiers
    assert!(c.root_goal.sub_goal(&mut c.holder, "a".to_string()).is_err());
    let d = c
        .root_goal
        .sub_goal(&mut c.holder, "d".to_string())
        .expect("d");
    assert_eq!(a.id(), GoalId(2));
    assert_eq!(b.id(), GoalId(3));
    assert_eq!(d.id(), GoalId(4));
}

#[test]
fn get_parent_of_root_is_none() {
    let c = build_container("build");
    let root_id = c.root_goal.id();
    assert_eq!(c.holder.get_parent(&root_id).expect("parent"), None);
}

#[test]
fn get_parent_of_child_is_spawner() {
    let mut c = build_container("build");
    let mut compile = c
        .root_goal
        .sub_goal(&mut c.holder, "compile".to_string())
        .expect("compile");
    let link = compile
        .sub_goal(&mut c.holder, "link".to_string())
        .expect("link");
    assert_eq!(
        c.holder.get_parent(&compile.id()).expect("parent"),
        Some(c.root_goal.id())
    );
    assert_eq!(
        c.holder.get_parent(&link.id()).expect("parent"),
        Some(compile.id())
    );
}

#[test]
fn get_all_children_contains_self_and_is_idempotent() {
    let mut c = build_container("build");
    let _a = c
        .root_goal
        .sub_goal(&mut c.holder, "a".to_string())
        .expect("a");
    let root_id = c.root_goal.id();
    let mut first = c.holder.get_all_children(&root_id).expect("first");
    let mut second = c.holder.get_all_children(&root_id).expect("second");
    assert!(first.contains(&root_id));
    first.sort();
    second.sort();
    assert_eq!(first, second);
}

#[test]
fn all_children_finished_for_leaf_follows_its_own_status() {
    let mut c = build_container("build");
    let leaf = c
        .root_goal
        .sub_goal(&mut c.holder, "leaf".to_string())
        .expect("leaf");
    let mut leaf = leaf;
    let leaf_id = leaf.id();
    // Waiting
    assert!(!c.holder.all_children_finished(&leaf_id).expect("waiting"));
    // InProgress
    leaf.start(&mut c.holder).expect("start");
    assert!(!c.holder.all_children_finished(&leaf_id).expect("running"));
    // Finished
    leaf.succeed(&mut c.holder).expect("succeed");
    assert!(c.holder.all_children_finished(&leaf_id).expect("finished"));
}

#[test]
fn any_child_errored_tracks_descendant_failures() {
    let mut c = build_container("build");
    let mut compile = c
        .root_goal
        .sub_goal(&mut c.holder, "compile".to_string())
        .expect("compile");
    let link = compile
        .sub_goal(&mut c.holder, "link".to_string())
        .expect("link");
    let root_id = c.root_goal.id();
    assert!(!c.holder.any_child_errored(&root_id).expect("no error yet"));
    link.fail(&mut c.holder, "linker exploded".to_string())
        .expect("fail link");
    assert!(c.holder.any_child_errored(&root_id).expect("root sees it"));
    assert!(c
        .holder
        .any_child_errored(&compile.id())
        .expect("compile sees it"));
}

#[test]
fn skipped_and_success_never_count_as_errors() {
    let mut c = build_container("build");
    let a = c
        .root_goal
        .sub_goal(&mut c.holder, "a".to_string())
        .expect("a");
    let b = c
        .root_goal
        .sub_goal(&mut c.holder, "b".to_string())
        .expect("b");
    a.skip(&mut c.holder).expect("skip a");
    b.succeed(&mut c.holder).expect("succeed b");
    let root_id = c.root_goal.id();
    assert!(!c.holder.any_child_errored(&root_id).expect("no error"));
}

#[test]
fn resetting_status_keeps_only_latest_value() {
    let mut c = build_container("build");
    let goal = c
        .root_goal
        .sub_goal(&mut c.holder, "task".to_string())
        .expect("task");
    let id = goal.id();
    c.holder
        .set_goal_status(&goal, Status::InProgress)
        .expect("set running");
    c.holder
        .set_goal_status(&goal, Status::Finished(Outcome::Skipped))
        .expect("set skipped");
    assert_eq!(
        *c.holder.get_goal_outcome(id).expect("outcome"),
        Status::Finished(Outcome::Skipped)
    );
    c.holder
        .set_goal_status(&goal, Status::Finished(Outcome::Success))
        .expect("set success");
    assert_eq!(
        *c.holder.get_goal_outcome(id).expect("outcome"),
        Status::Finished(Outcome::Success)
    );
}

#[test]
fn duplicate_names_conflict_and_never_overwrite() {
    let mut c = build_container("build");
    let first = c
        .root_goal
        .sub_goal(&mut c.holder, "job".to_string())
        .expect("first job");
    let mut other = c
        .root_goal
        .sub_goal(&mut c.holder, "other".to_string())
        .expect("other");
    // same name under a different parent is still a conflict
    let clash = other.sub_goal(&mut c.holder, "job".to_string());
    match clash {
        Err(FatalError::DuplicateName(n)) => assert_eq!(n, "job"),
        other => panic!("expected a duplicate-name conflict, got {:?}", other),
    }
    // the original registration is untouched
    assert_eq!(
        c.holder.get_goal_id(&"job".to_string()).expect("job id"),
        first.id()
    );
    assert_eq!(
        c.holder.get_parent(&first.id()).expect("parent"),
        Some(c.root_goal.id())
    );
}

#[test]
fn statuses_default_to_waiting() {
    let mut c = build_container("build");
    let goal = c
        .root_goal
        .sub_goal(&mut c.holder, "fresh".to_string())
        .expect("fresh");
    assert_eq!(
        *c.holder.get_goal_outcome(goal.id()).expect("outcome"),
        Status::Waiting
    );
    assert_eq!(
        *c.holder.get_goal_outcome(c.root_goal.id()).expect("root outcome"),
        Status::Waiting
    );
}

#[test]
fn unknown_ids_and_names_give_typed_errors() {
    let c = build_container("build");
    let unknown = GoalId(99);
    assert!(matches!(
        c.holder.get_goal_outcome(unknown),
        Err(GoalError::MissingGoal(GoalId(99)))
    ));
    assert!(matches!(
        c.holder.get_parent(&unknown),
        Err(GoalError::MissingGoal(GoalId(99)))
    ));
    assert!(matches!(
        c.holder.get_direct_children(&unknown),
        Err(GoalError::MissingGoal(GoalId(99)))
    ));
    assert!(matches!(
        c.holder.get_all_children(&unknown),
        Err(GoalError::MissingGoal(GoalId(99)))
    ));
    match c.holder.get_goal_id(&"nope".to_string()) {
        Err(GoalError::MissingGoalName(n)) => assert_eq!(n, "nope"),
        other => panic!("expected a missing-name error, got {:?}", other),
    }
}

#[test]
fn empty_names_are_fatal() {
    assert!(matches!(
        DefaultGoal::new(String::new(), GoalId(1)),
        Err(FatalError::EmptyName)
    ));
    assert!(matches!(RootGoal::new(String::new()), Err(FatalError::EmptyName)));
    let mut c = build_container("build");
    assert!(matches!(
        c.root_goal.sub_goal(&mut c.holder, String::new()),
        Err(FatalError::EmptyName)
    ));
}

#[test]
fn non_root_goals_need_a_real_parent() {
    assert!(matches!(
        DefaultGoal::new("orphan".to_string(), GoalId(0)),
        Err(FatalError::ParentRequired)
    ));
    // spawning from a goal that was never registered fails the same way
    let mut unregistered = DefaultGoal::new("floating".to_string(), GoalId(1)).expect("goal");
    let mut holder: DefaultHolder<NoopHandler> = DefaultHolder::new(NoopHandler);
    assert!(matches!(
        unregistered.sub_goal(&mut holder, "child".to_string()),
        Err(FatalError::ParentRequired)
    ));
}

#[test]
fn a_second_incoming_edge_is_registry_corruption() {
    let mut c = build_container("build");
    let a = c
        .root_goal
        .sub_goal(&mut c.holder, "a".to_string())
        .expect("a");
    // a goal registered with `a` pre-declared as its child gives `a` a
    // second incoming edge
    let mut sneaky = DefaultGoal::new("sneaky".to_string(), c.root_goal.id()).expect("sneaky");
    sneaky.add_child_goal(a.id());
    c.holder.add_goal(&mut sneaky).expect("register sneaky");
    match c.holder.get_parent(&a.id()) {
        Err(GoalError::Fatal(FatalError::MultipleParents(g))) => assert_eq!(g, a.id()),
        other => panic!("expected corruption to be fatal, got {:?}", other),
    }
}

#[test]
fn finishing_successfully_needs_finished_descendants() {
    let mut c = build_container("build");
    let mut compile = c
        .root_goal
        .sub_goal(&mut c.holder, "compile".to_string())
        .expect("compile");
    let link = compile
        .sub_goal(&mut c.holder, "link".to_string())
        .expect("link");
    let link_id = link.id();
    let compile_clone = DefaultGoal::new("compile".to_string(), c.root_goal.id()).expect("clone");
    match compile_clone.succeed(&mut c.holder) {
        Err(GoalError::Fatal(FatalError::UnfinishedChild(g))) => assert_eq!(g, link_id),
        other => panic!("expected an unfinished-child error, got {:?}", other),
    }
    // failing or skipping does not require finished descendants
    let compile_clone = DefaultGoal::new("compile".to_string(), c.root_goal.id()).expect("clone");
    compile_clone
        .finish(&mut c.holder, Status::Finished(Outcome::Skipped))
        .expect("skip finish");
    // once the descendant is finished, success is allowed
    link.succeed(&mut c.holder).expect("finish link");
    compile.succeed(&mut c.holder).expect("finish compile");
}

#[test]
fn start_transitions_to_in_progress() {
    let mut c = build_container("build");
    c.root_goal.start(&mut c.holder).expect("start root");
    assert_eq!(
        *c.holder.get_goal_outcome(c.root_goal.id()).expect("outcome"),
        Status::InProgress
    );
}

#[test]
fn direct_children_are_exactly_the_spawned_goals() {
    let mut c = build_container("build");
    let a = c
        .root_goal
        .sub_goal(&mut c.holder, "a".to_string())
        .expect("a");
    let mut b = c
        .root_goal
        .sub_goal(&mut c.holder, "b".to_string())
        .expect("b");
    let grandchild = b
        .sub_goal(&mut c.holder, "b-child".to_string())
        .expect("b-child");
    let mut direct = c
        .holder
        .get_direct_children(&c.root_goal.id())
        .expect("children");
    direct.sort();
    assert_eq!(direct, vec![a.id(), b.id()]);
    assert_eq!(
        c.holder.get_direct_children(&b.id()).expect("b children"),
        vec![grandchild.id()]
    );
    assert_eq!(
        c.holder
            .get_direct_children(&grandchild.id())
            .expect("leaf children"),
        vec![]
    );
}

#[test]
fn all_goals_lists_every_registered_id() {
    let mut c = build_container("build");
    let _a = c
        .root_goal
        .sub_goal(&mut c.holder, "a".to_string())
        .expect("a");
    let _b = c
        .root_goal
        .sub_goal(&mut c.holder, "b".to_string())
        .expect("b");
    let mut ids = c.holder.all_goals();
    ids.sort();
    assert_eq!(ids, vec![GoalId(1), GoalId(2), GoalId(3)]);
    let mut from_container = c.all_goals().expect("container all_goals");
    from_container.sort();
    assert_eq!(from_container, ids);
}

struct RecordingHandler {
    changes: Vec<(GoalId, String)>,
}

impl GoalHandler for RecordingHandler {
    fn register_goals(&mut self, _goals: &Vec<GoalId>) {}

    fn handle_goal_status_change(&mut self, id: GoalId, name: &String, status: &Status) {
        let tag = match status {
            Status::Waiting => "waiting",
            Status::InProgress => "running",
            Status::Finished(_) => "finished",
        };
        self.changes.push((id, format!("{}:{}", name, tag)));
    }
}

#[test]
fn observer_is_notified_of_every_status_change() {
    let holder = DefaultHolder::new(RecordingHandler { changes: Vec::new() });
    let mut c = GoalContainer::new("build".to_string(), holder).expect("container");
    let mut goal = c
        .root_goal
        .sub_goal(&mut c.holder, "task".to_string())
        .expect("task");
    let task_id = goal.id();
    goal.start(&mut c.holder).expect("start");
    goal.succeed(&mut c.holder).expect("succeed");
    let changes = &c.holder.goal_handler().changes;
    assert_eq!(
        *changes,
        vec![
            (task_id, "task:running".to_string()),
            (task_id, "task:finished".to_string()),
        ]
    );
}

#[test]
fn rootless_tree_cannot_be_built_with_an_empty_name() {
    let holder: DefaultHolder<NoopHandler> = DefaultHolder::new(NoopHandler);
    assert!(matches!(
        GoalContainer::new(String::new(), holder),
        Err(FatalError::EmptyName)
    ));
}

#[test]
fn end_to_end_build_scenario() {
    let mut c = build_container("build");
    let build_id = c.root_goal.id();
    assert_eq!(c.holder.get_parent(&build_id).expect("root parent"), None);

    let mut compile = c
        .root_goal
        .sub_goal(&mut c.holder, "compile".to_string())
        .expect("compile");
    let test = c
        .root_goal
        .sub_goal(&mut c.holder, "test".to_string())
        .expect("test");
    let link = compile
        .sub_goal(&mut c.holder, "link".to_string())
        .expect("link");
    let (compile_id, test_id, link_id) = (compile.id(), test.id(), link.id());

    let mut subtree = c.holder.get_all_children(&build_id).expect("subtree");
    subtree.sort();
    let mut expected = vec![build_id, compile_id, test_id, link_id];
    expected.sort();
    assert_eq!(subtree, expected);

    // compile has exactly one child: it is "all finished" only once link is
    assert!(!c
        .holder
        .all_children_finished(&compile_id)
        .expect("not yet"));
    link.succeed(&mut c.holder).expect("finish link");
    assert!(!c
        .holder
        .all_children_finished(&compile_id)
        .expect("compile itself unfinished"));
    compile.succeed(&mut c.holder).expect("finish compile");
    assert!(c.holder.all_children_finished(&compile_id).expect("done"));

    // nothing failed anywhere in this run
    assert!(!c.holder.any_child_errored(&build_id).expect("no errors"));
}
