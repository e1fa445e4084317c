use vstd::prelude::*;
use crate::holder::DefaultHolder;
use crate::status::{Outcome, Status};
use crate::view::GoalHandler;

verus! {

/// Identifier of a registered goal.
///
/// Identifiers are assigned by the holder, starting at 1 and increasing
/// monotonically; they are never reused.  The value `0` is the reserved
/// sentinel meaning "no identity": an unregistered goal carries it, and it
/// also stands for "no parent" on the root.
#[derive(Debug, Clone, Copy, PartialEq, Eq, Structural, PartialOrd, Ord, Hash)]
pub struct GoalId(pub usize);

impl GoalId {
    /// The identifier is the reserved sentinel, not a real identity.
    pub open spec fn spec_is_none(&self) -> bool {
        self.0 == 0
    }

    /// The sentinel value.
    pub fn none() -> (r: GoalId)
        ensures
            r.spec_is_none(),
    {
        GoalId(0)
    }

    #[verifier::when_used_as_spec(spec_is_none)]
    pub fn is_none(&self) -> (b: bool)
        ensures
            b == self.spec_is_none(),
    {
        self.0 == 0
    }
}

impl From<usize> for GoalId {
    fn from(u: usize) -> (r: GoalId) {
        GoalId(u)
    }
}

impl vstd::std_specs::convert::FromSpecImpl<usize> for GoalId {
    open spec fn obeys_from_spec() -> bool {
        true
    }

    open spec fn from_spec(u: usize) -> GoalId {
        GoalId(u)
    }
}

/// Fatal, programmer-error conditions.  An operation that reports one of
/// these has been aborted; the registry must be considered unusable for the
/// remainder of the run rather than silently carried on with.
#[derive(Debug, PartialEq, Eq)]
pub enum FatalError {
    /// A goal was given an empty name.
    EmptyName,
    /// A non-root goal was constructed without a real parent identifier.
    ParentRequired,
    /// A goal was registered under a name that is already taken.
    DuplicateName(String),
    /// A node with more than one incoming edge was found: the tree is corrupt.
    MultipleParents(GoalId),
    /// A goal was finished as successful while a descendant was unfinished.
    UnfinishedChild(GoalId),
}

/// Errors reported by goal and holder operations.
///
/// `MissingGoal` and `MissingGoalName` are the recoverable lookup errors;
/// `Fatal` is the separate channel through which fatal invariant violations
/// propagate out of operations that can also fail recoverably.
#[derive(Debug, PartialEq, Eq)]
pub enum GoalError {
    /// No goal is registered under this identifier.
    MissingGoal(GoalId),
    /// No goal is registered under this name.
    MissingGoalName(String),
    /// A fatal invariant violation; see [`FatalError`].
    Fatal(FatalError),
}

/// Read access shared by every shape of goal.
pub trait Goal: Sized {
    /// The goal's name.
    spec fn spec_name(&self) -> Seq<char>;

    /// The goal's identifier; the sentinel while unregistered.
    spec fn spec_id(&self) -> GoalId;

    /// The identifier of the goal that spawned this one, if any.
    spec fn spec_parent(&self) -> Option<GoalId>;

    /// The child identifiers declared on this goal before registration.
    spec fn spec_children(&self) -> Seq<GoalId>;

    fn name(&self) -> (r: &String)
        ensures
            r@ == self.spec_name(),
    ;

    fn id(&self) -> (r: GoalId)
        ensures
            r == self.spec_id(),
    ;

    fn parent_goal(&self) -> (r: Option<GoalId>)
        ensures
            r == self.spec_parent(),
    ;

    fn child_goals(&self) -> (r: &[GoalId])
        ensures
            r@ == self.spec_children(),
    ;
}

/// An ordinary (non-root) goal.
///
/// A goal value has two phases: unregistered (identifier still the
/// sentinel, invisible to the holder) and registered (identifier assigned
/// by the holder at registration).
#[derive(Debug)]
pub struct DefaultGoal {
    name: String,
    parent_goal: GoalId,
    my_id: GoalId,
    child_goals: Vec<GoalId>,
}

impl Goal for DefaultGoal {
    closed spec fn spec_name(&self) -> Seq<char> {
        self.name@
    }

    closed spec fn spec_id(&self) -> GoalId {
        self.my_id
    }

    closed spec fn spec_parent(&self) -> Option<GoalId> {
        Some(self.parent_goal)
    }

    closed spec fn spec_children(&self) -> Seq<GoalId> {
        self.child_goals@
    }

    fn name(&self) -> (r: &String) {
        &self.name
    }

    fn id(&self) -> (r: GoalId) {
        self.my_id
    }

    fn parent_goal(&self) -> (r: Option<GoalId>) {
        Some(self.parent_goal)
    }

    fn child_goals(&self) -> (r: &[GoalId]) {
        self.child_goals.as_slice()
    }
}

impl DefaultGoal {
    /// Constructs an unregistered goal.
    ///
    /// A goal must have a non-empty name and a real parent identifier; a
    /// violation is reported on the fatal channel.  The root is not built
    /// here: it has its own constructor.
    pub fn new(name: String, parent: GoalId) -> (r: Result<DefaultGoal, FatalError>)
        ensures
            match r {
                Ok(g) => {
                    &&& name@.len() > 0
                    &&& parent.0 != 0
                    &&& g.spec_name() == name@
                    &&& g.spec_parent() == Some(parent)
                    &&& g.spec_id() == GoalId(0)
                    &&& g.spec_children().len() == 0
                },
                Err(FatalError::EmptyName) => name@.len() == 0,
                Err(FatalError::ParentRequired) => name@.len() > 0 && parent.0 == 0,
                Err(_) => false,
            },
    {
        if name.as_str().is_empty() {
            return Err(FatalError::EmptyName);
        }
        if parent.0 == 0 {
            return Err(FatalError::ParentRequired);
        }
        Ok(DefaultGoal { name, parent_goal: parent, my_id: GoalId(0), child_goals: Vec::new() })
    }

    /// Used by the holder at registration to hand the goal its identity.
    pub(crate) fn assign_id(&mut self, id: GoalId)
        ensures
            final(self).spec_id() == id,
            final(self).spec_name() == old(self).spec_name(),
            final(self).spec_parent() == old(self).spec_parent(),
            final(self).spec_children() == old(self).spec_children(),
    {
        self.my_id = id;
    }

    /// Pre-declares `child` as a child of this goal.  Meaningful only
    /// while the goal is being configured, before registration: the edge
    /// to each pre-declared child is spliced in at registration time.
    pub fn add_child_goal(&mut self, child: GoalId)
        ensures
            final(self).spec_children() == old(self).spec_children().push(child),
            final(self).spec_name() == old(self).spec_name(),
            final(self).spec_parent() == old(self).spec_parent(),
            final(self).spec_id() == old(self).spec_id(),
    {
        self.child_goals.push(child);
    }

    /// This goal has started: its status becomes `InProgress`.
    pub fn start<GH: GoalHandler>(&mut self, holder: &mut DefaultHolder<GH>) -> (r: Result<
        (),
        GoalError,
    >)
        requires
            old(holder).wf(),
        ensures
            *final(self) == *old(self),
            match r {
                Ok(()) => {
                    &&& old(holder).has_name(old(self).spec_name())
                    &&& old(holder).status_updated(
                        *final(holder),
                        old(holder).id_of_name(old(self).spec_name()),
                        Status::InProgress,
                    )
                },
                Err(e) => match e {
                    GoalError::MissingGoalName(n) => {
                        &&& n@ == old(self).spec_name()
                        &&& !old(holder).has_name(old(self).spec_name())
                        &&& *final(holder) == *old(holder)
                    },
                    _ => false,
                },
            },
    {
        holder.set_goal_status(&*self, Status::InProgress)
    }

    /// This goal has finished with the given status, terminally.
    ///
    /// Finishing with a successful outcome while a descendant is not yet
    /// `Finished` is a programmer error, reported on the fatal channel;
    /// the registry is then left untouched.
    pub fn finish<GH: GoalHandler>(self, holder: &mut DefaultHolder<GH>, outcome: Status) -> (r:
        Result<(), GoalError>)
        requires
            old(holder).wf(),
        ensures
            ({
                let id = old(holder).id_of_name(self.spec_name());
                match r {
                    Ok(()) => {
                        &&& old(holder).has_name(self.spec_name())
                        &&& old(holder).status_updated(*final(holder), id, outcome)
                        &&& (outcome.spec_is_success() ==> forall|c: GoalId|
                            #[trigger] old(holder).reachable(id, c) && c != id ==> old(
                                holder,
                            ).status_of(c).spec_is_finished())
                    },
                    Err(e) => {
                        &&& *final(holder) == *old(holder)
                        &&& match e {
                            GoalError::MissingGoalName(n) => {
                                &&& n@ == self.spec_name()
                                &&& !old(holder).has_name(self.spec_name())
                            },
                            GoalError::MissingGoal(g) => {
                                &&& outcome.spec_is_success()
                                &&& old(holder).reachable(id, g)
                                &&& !old(holder).is_goal(g)
                            },
                            GoalError::Fatal(FatalError::UnfinishedChild(c)) => {
                                &&& outcome.spec_is_success()
                                &&& old(holder).reachable(id, c)
                                &&& c != id
                                &&& !old(holder).status_of(c).spec_is_finished()
                            },
                            _ => false,
                        }
                    },
                }
            }),
    {
        let id = match holder.get_goal_id(self.name()) {
            Ok(i) => i,
            Err(e) => {
                return Err(e);
            },
        };
        proof {
            let c = old(holder).id_of_name(self.spec_name());
            assert(old(holder).is_goal(id) && old(holder).name_of(id) == self.spec_name());
            assert(old(holder).is_goal(c) && old(holder).name_of(c) == self.spec_name());
            old(holder).lemma_name_unique(id, c);
        }
        if outcome.is_success() {
            let children = match holder.get_all_children(&id) {
                Ok(c) => c,
                Err(e) => {
                    return Err(e);
                },
            };
            let mut i: usize = 0;
            while i < children.len()
                invariant
                    *holder == *old(holder),
                    old(holder).wf(),
                    old(holder).is_goal(id),
                    id == old(holder).id_of_name(self.spec_name()),
                    outcome.spec_is_success(),
                    i <= children@.len(),
                    forall|g: GoalId| #[trigger] children@.contains(g) <==> old(holder).reachable(
                        id,
                        g,
                    ),
                    forall|g: GoalId| #[trigger] old(holder).reachable(id, g) ==> old(
                        holder,
                    ).is_goal(g),
                    forall|t: int|
                        0 <= t < i ==> (#[trigger] children@[t]) == id || old(holder).status_of(
                            children@[t],
                        ).spec_is_finished(),
                decreases children@.len() - i,
            {
                let c = children[i];
                proof {
                    assert(children@.contains(c));
                }
                match holder.get_goal_outcome(c) {
                    Ok(s) => {
                        if c.0 != id.0 && !s.is_finished() {
                            return Err(GoalError::Fatal(FatalError::UnfinishedChild(c)));
                        }
                    },
                    Err(e) => {
                        proof {
                            assert(false);
                        }
                        return Err(e);
                    },
                }
                i += 1;
            }
            proof {
                assert forall|c: GoalId|
                    #[trigger] old(holder).reachable(id, c) && c != id implies old(
                    holder,
                ).status_of(c).spec_is_finished() by {
                    assert(children@.contains(c));
                    let t = choose|t: int| 0 <= t < children@.len() && children@[t] == c;
                    assert(children@[t] == id || old(holder).status_of(
                        children@[t],
                    ).spec_is_finished());
                }
            }
        }
        match holder.set_goal_status(&self, outcome) {
            Ok(()) => Ok(()),
            Err(e) => {
                proof {
                    assert(false);
                }
                Err(e)
            },
        }
    }

    /// Shortcut to finishing with a failure carrying `cause`.
    pub fn fail<GH: GoalHandler>(self, holder: &mut DefaultHolder<GH>, cause: String) -> (r:
        Result<(), GoalError>)
        requires
            old(holder).wf(),
        ensures
            match r {
                Ok(()) => {
                    &&& old(holder).has_name(self.spec_name())
                    &&& old(holder).status_updated(
                        *final(holder),
                        old(holder).id_of_name(self.spec_name()),
                        Status::Finished(Outcome::Failed(cause)),
                    )
                },
                Err(e) => match e {
                    GoalError::MissingGoalName(n) => {
                        &&& n@ == self.spec_name()
                        &&& !old(holder).has_name(self.spec_name())
                        &&& *final(holder) == *old(holder)
                    },
                    _ => false,
                },
            },
    {
        self.finish(holder, Status::Finished(Outcome::Failed(cause)))
    }

    /// This goal finishes as a success.
    pub fn succeed<GH: GoalHandler>(self, holder: &mut DefaultHolder<GH>) -> (r: Result<
        (),
        GoalError,
    >)
        requires
            old(holder).wf(),
        ensures
            ({
                let id = old(holder).id_of_name(self.spec_name());
                match r {
                    Ok(()) => {
                        &&& old(holder).has_name(self.spec_name())
                        &&& old(holder).status_updated(
                            *final(holder),
                            id,
                            Status::Finished(Outcome::Success),
                        )
                        &&& forall|c: GoalId| #[trigger] old(holder).reachable(id, c) && c != id
                            ==> old(holder).status_of(c).spec_is_finished()
                    },
                    Err(e) => {
                        &&& *final(holder) == *old(holder)
                        &&& match e {
                            GoalError::MissingGoalName(n) => {
                                &&& n@ == self.spec_name()
                                &&& !old(holder).has_name(self.spec_name())
                            },
                            GoalError::MissingGoal(g) => {
                                &&& old(holder).reachable(id, g)
                                &&& !old(holder).is_goal(g)
                            },
                            GoalError::Fatal(FatalError::UnfinishedChild(c)) => {
                                &&& old(holder).reachable(id, c)
                                &&& c != id
                                &&& !old(holder).status_of(c).spec_is_finished()
                            },
                            _ => false,
                        }
                    },
                }
            }),
    {
        self.finish(holder, Status::Finished(Outcome::Success))
    }

    /// This goal finishes as a skip.
    pub fn skip<GH: GoalHandler>(self, holder: &mut DefaultHolder<GH>) -> (r: Result<
        (),
        GoalError,
    >)
        requires
            old(holder).wf(),
        ensures
            match r {
                Ok(()) => {
                    &&& old(holder).has_name(self.spec_name())
                    &&& old(holder).status_updated(
                        *final(holder),
                        old(holder).id_of_name(self.spec_name()),
                        Status::Finished(Outcome::Skipped),
                    )
                },
                Err(e) => match e {
                    GoalError::MissingGoalName(n) => {
                        &&& n@ == self.spec_name()
                        &&& !old(holder).has_name(self.spec_name())
                        &&& *final(holder) == *old(holder)
                    },
                    _ => false,
                },
            },
    {
        self.finish(holder, Status::Finished(Outcome::Skipped))
    }

    /// The spawn protocol: constructs a child goal named `name` with this
    /// goal as its parent and registers it with the holder, which assigns
    /// it the next identifier and splices it into the tree.  The
    /// now-registered child is returned.  Spawning from a goal that is
    /// itself unregistered, or under a taken name, fails fatally.
    pub fn sub_goal<GH: GoalHandler>(
        &mut self,
        holder: &mut DefaultHolder<GH>,
        name: String,
    ) -> (r: Result<DefaultGoal, FatalError>)
        requires
            old(holder).wf(),
        ensures
            *final(self) == *old(self),
            match r {
                Ok(child) => {
                    &&& name@.len() > 0
                    &&& old(self).spec_id().0 != 0
                    &&& child.spec_name() == name@
                    &&& child.spec_parent() == Some(old(self).spec_id())
                    &&& child.spec_children().len() == 0
                    &&& old(holder).goal_added(
                        *final(holder),
                        child.spec_id(),
                        name@,
                        Some(old(self).spec_id()),
                        Seq::<GoalId>::empty(),
                    )
                },
                Err(e) => {
                    &&& *final(holder) == *old(holder)
                    &&& match e {
                        FatalError::EmptyName => name@.len() == 0,
                        FatalError::ParentRequired => name@.len() > 0 && old(self).spec_id().0
                            == 0,
                        FatalError::DuplicateName(n) => {
                            &&& n@ == name@
                            &&& old(holder).has_name(name@)
                        },
                        _ => false,
                    }
                },
            },
    {
        let mut child = match DefaultGoal::new(name, self.id()) {
            Ok(c) => c,
            Err(e) => {
                return Err(e);
            },
        };
        match holder.add_goal(&mut child) {
            Ok(_) => {
                proof {
                    assert(child.spec_children().len() == 0);
                    assert forall|b: GoalId| !Seq::<GoalId>::empty().contains(b) by {}
                }
                Ok(child)
            },
            Err(e) => Err(e),
        }
    }
}

/// The distinguished, parentless goal that seeds a tree.
///
/// A root cannot be built through the generic goal constructor: it has
/// this dedicated shape, whose parent is "none" by construction.
#[derive(Debug)]
pub struct RootGoal {
    inner_goal: DefaultGoal,
}

impl Goal for RootGoal {
    closed spec fn spec_name(&self) -> Seq<char> {
        self.inner_goal.spec_name()
    }

    closed spec fn spec_id(&self) -> GoalId {
        self.inner_goal.spec_id()
    }

    open spec fn spec_parent(&self) -> Option<GoalId> {
        None
    }

    closed spec fn spec_children(&self) -> Seq<GoalId> {
        self.inner_goal.spec_children()
    }

    fn name(&self) -> (r: &String) {
        self.inner_goal.name()
    }

    fn id(&self) -> (r: GoalId) {
        self.inner_goal.id()
    }

    fn parent_goal(&self) -> (r: Option<GoalId>) {
        None
    }

    fn child_goals(&self) -> (r: &[GoalId]) {
        self.inner_goal.child_goals()
    }
}

impl RootGoal {
    /// The root's inner record carries the sentinel parent, so that
    /// registration never splices in a parent edge.
    pub closed spec fn wf(&self) -> bool {
        self.inner_goal.spec_parent() == Some(GoalId(0))
    }

    /// Constructs the unregistered root of a new tree.
    pub fn new(name: String) -> (r: Result<RootGoal, FatalError>)
        ensures
            match r {
                Ok(g) => {
                    &&& g.wf()
                    &&& name@.len() > 0
                    &&& g.spec_name() == name@
                    &&& g.spec_id() == GoalId(0)
                    &&& g.spec_parent() is None
                    &&& g.spec_children().len() == 0
                },
                Err(FatalError::EmptyName) => name@.len() == 0,
                Err(_) => false,
            },
    {
        if name.as_str().is_empty() {
            return Err(FatalError::EmptyName);
        }
        Ok(
            RootGoal {
                inner_goal: DefaultGoal {
                    name,
                    parent_goal: GoalId(0),
                    my_id: GoalId(0),
                    child_goals: Vec::new(),
                },
            },
        )
    }

    /// Registers the root itself, giving the tree its first identifier.
    pub(crate) fn register<GH: GoalHandler>(&mut self, holder: &mut DefaultHolder<GH>) -> (r:
        Result<GoalId, FatalError>)
        requires
            old(holder).wf(),
            old(self).wf(),
        ensures
            match r {
                Ok(id) => {
                    &&& old(holder).goal_added(
                        *final(holder),
                        id,
                        old(self).spec_name(),
                        None,
                        old(self).spec_children(),
                    )
                    &&& final(self).wf()
                    &&& final(self).spec_id() == id
                    &&& final(self).spec_name() == old(self).spec_name()
                    &&& final(self).spec_children() == old(self).spec_children()
                },
                Err(e) => match e {
                    FatalError::DuplicateName(n) => {
                        &&& n@ == old(self).spec_name()
                        &&& old(holder).has_name(old(self).spec_name())
                        &&& *final(holder) == *old(holder)
                        &&& *final(self) == *old(self)
                    },
                    _ => false,
                },
            },
    {
        match holder.add_goal(&mut self.inner_goal) {
            Ok(id) => {
                proof {
                    assert forall|a: GoalId, b: GoalId|
                        #![trigger holder.has_edge(a, b)]
                        #![trigger old(holder).has_edge(a, b)]
                        holder.has_edge(a, b) <==> (old(holder).has_edge(a, b) || (None::<GoalId>
                            == Some(a) && a.0 != 0 && b == id) || (a == id
                            && old(self).spec_children().contains(b))) by {
                        assert(holder.has_edge(a, b) <==> (old(holder).has_edge(a, b) || (Some(
                            GoalId(0usize),
                        ) == Some(a) && a.0 != 0 && b == id) || (a == id
                            && old(self).spec_children().contains(b))));
                    }
                }
                Ok(id)
            },
            Err(e) => Err(e),
        }
    }

    /// This root has started: its status becomes `InProgress`.
    pub fn start<GH: GoalHandler>(&mut self, holder: &mut DefaultHolder<GH>) -> (r: Result<
        (),
        GoalError,
    >)
        requires
            old(holder).wf(),
        ensures
            *final(self) == *old(self),
            match r {
                Ok(()) => {
                    &&& old(holder).has_name(old(self).spec_name())
                    &&& old(holder).status_updated(
                        *final(holder),
                        old(holder).id_of_name(old(self).spec_name()),
                        Status::InProgress,
                    )
                },
                Err(e) => match e {
                    GoalError::MissingGoalName(n) => {
                        &&& n@ == old(self).spec_name()
                        &&& !old(holder).has_name(old(self).spec_name())
                        &&& *final(holder) == *old(holder)
                    },
                    _ => false,
                },
            },
    {
        self.inner_goal.start(holder)
    }

    /// This root has finished with the given status; see
    /// [`DefaultGoal::finish`].
    pub fn finish<GH: GoalHandler>(self, holder: &mut DefaultHolder<GH>, outcome: Status) -> (r:
        Result<(), GoalError>)
        requires
            old(holder).wf(),
        ensures
            ({
                let id = old(holder).id_of_name(self.spec_name());
                match r {
                    Ok(()) => {
                        &&& old(holder).has_name(self.spec_name())
                        &&& old(holder).status_updated(*final(holder), id, outcome)
                        &&& (outcome.spec_is_success() ==> forall|c: GoalId|
                            #[trigger] old(holder).reachable(id, c) && c != id ==> old(
                                holder,
                            ).status_of(c).spec_is_finished())
                    },
                    Err(e) => {
                        &&& *final(holder) == *old(holder)
                        &&& match e {
                            GoalError::MissingGoalName(n) => {
                                &&& n@ == self.spec_name()
                                &&& !old(holder).has_name(self.spec_name())
                            },
                            GoalError::MissingGoal(g) => {
                                &&& outcome.spec_is_success()
                                &&& old(holder).reachable(id, g)
                                &&& !old(holder).is_goal(g)
                            },
                            GoalError::Fatal(FatalError::UnfinishedChild(c)) => {
                                &&& outcome.spec_is_success()
                                &&& old(holder).reachable(id, c)
                                &&& c != id
                                &&& !old(holder).status_of(c).spec_is_finished()
                            },
                            _ => false,
                        }
                    },
                }
            }),
    {
        self.inner_goal.finish(holder, outcome)
    }

    /// The spawn protocol from the root; see [`DefaultGoal::sub_goal`].
    pub fn sub_goal<GH: GoalHandler>(
        &mut self,
        holder: &mut DefaultHolder<GH>,
        name: String,
    ) -> (r: Result<DefaultGoal, FatalError>)
        requires
            old(holder).wf(),
        ensures
            *final(self) == *old(self),
            match r {
                Ok(child) => {
                    &&& name@.len() > 0
                    &&& old(self).spec_id().0 != 0
                    &&& child.spec_name() == name@
                    &&& child.spec_parent() == Some(old(self).spec_id())
                    &&& child.spec_children().len() == 0
                    &&& old(holder).goal_added(
                        *final(holder),
                        child.spec_id(),
                        name@,
                        Some(old(self).spec_id()),
                        Seq::<GoalId>::empty(),
                    )
                },
                Err(e) => {
                    &&& *final(holder) == *old(holder)
                    &&& match e {
                        FatalError::EmptyName => name@.len() == 0,
                        FatalError::ParentRequired => name@.len() > 0 && old(self).spec_id().0
                            == 0,
                        FatalError::DuplicateName(n) => {
                            &&& n@ == name@
                            &&& old(holder).has_name(name@)
                        },
                        _ => false,
                    }
                },
            },
    {
        self.inner_goal.sub_goal(holder, name)
    }
}

} // verus!
