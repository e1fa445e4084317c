use vstd::prelude::*;
use crate::goal::{FatalError, Goal, GoalError, GoalId, RootGoal};
use crate::holder::DefaultHolder;
use crate::status::Status;

verus! {

/// Observer capability, invoked synchronously by the holder on every
/// status change.  Implementations must not re-enter the holder.
pub trait GoalHandler: Sized {
    /// Seeds or refreshes the set of identifiers the observer tracks.
    fn register_goals(&mut self, goals: &Vec<GoalId>);

    /// Fired once per status change, with the changed goal's identifier,
    /// name and new status.
    fn handle_goal_status_change(&mut self, id: GoalId, name: &String, status: &Status);
}

/// An observer that ignores every notification.
pub struct NoopHandler;

impl GoalHandler for NoopHandler {
    fn register_goals(&mut self, _goals: &Vec<GoalId>) {
    }

    fn handle_goal_status_change(&mut self, _id: GoalId, _name: &String, _status: &Status) {
    }
}

/// The caller's entry point: a tree rooted at a named goal, bound to the
/// holder that owns it.
pub struct GoalContainer<GH: GoalHandler> {
    /// The shared registry owning this tree.
    pub holder: DefaultHolder<GH>,
    /// The tree's distinguished parentless goal.
    pub root_goal: RootGoal,
}

impl<GH: GoalHandler> GoalContainer<GH> {
    /// The container's registry is well formed and its root is registered.
    pub open spec fn wf(&self) -> bool {
        &&& self.holder.wf()
        &&& self.holder.has_name(self.root_goal.spec_name())
    }

    /// Builds a tree rooted at a goal named `name` on top of the given
    /// holder: the root is constructed and registered, receiving the
    /// holder's next identifier.
    pub fn new(name: String, holder: DefaultHolder<GH>) -> (r: Result<GoalContainer<GH>, FatalError>)
        requires
            holder.wf(),
        ensures
            match r {
                Ok(c) => {
                    &&& c.wf()
                    &&& name@.len() > 0
                    &&& c.root_goal.spec_name() == name@
                    &&& c.root_goal.spec_parent() is None
                    &&& c.root_goal.spec_children().len() == 0
                    &&& holder.goal_added(
                        c.holder,
                        c.root_goal.spec_id(),
                        name@,
                        None,
                        c.root_goal.spec_children(),
                    )
                },
                Err(e) => match e {
                    FatalError::EmptyName => name@.len() == 0,
                    FatalError::DuplicateName(n) => n@ == name@ && holder.has_name(name@),
                    _ => false,
                },
            },
    {
        let mut h = holder;
        let mut root = match RootGoal::new(name) {
            Ok(g) => g,
            Err(e) => {
                return Err(e);
            },
        };
        let id = match root.register(&mut h) {
            Ok(i) => i,
            Err(e) => {
                return Err(e);
            },
        };
        proof {
            assert(h.is_goal(id) && h.name_of(id) == root.spec_name());
        }
        Ok(GoalContainer { holder: h, root_goal: root })
    }

    /// Read access to the root goal.
    pub fn root_goal(&self) -> (r: &RootGoal)
        ensures
            *r == self.root_goal,
    {
        &self.root_goal
    }

    /// Every identifier currently reachable from the root, the root's own
    /// identifier included.
    pub fn all_goals(&self) -> (r: Result<Vec<GoalId>, GoalError>)
        requires
            self.wf(),
        ensures
            ({
                let root_id = self.holder.id_of_name(self.root_goal.spec_name());
                match r {
                    Ok(v) => {
                        &&& v@.no_duplicates()
                        &&& forall|g: GoalId| #[trigger] v@.contains(g) <==> self.holder.reachable(
                            root_id,
                            g,
                        )
                    },
                    Err(e) => match e {
                        GoalError::MissingGoal(g) => {
                            &&& self.holder.reachable(root_id, g)
                            &&& !self.holder.is_goal(g)
                        },
                        _ => false,
                    },
                }
            }),
    {
        let root_id = match self.holder.get_goal_id(self.root_goal.name()) {
            Ok(i) => i,
            Err(_) => {
                proof {
                    assert(false);
                }
                return Err(GoalError::MissingGoalName(self.root_goal.name().clone()));
            },
        };
        proof {
            let c = self.holder.id_of_name(self.root_goal.spec_name());
            assert(self.holder.is_goal(c) && self.holder.name_of(c) == self.root_goal.spec_name());
            self.holder.lemma_name_unique(root_id, c);
        }
        self.holder.get_all_children(&root_id)
    }
}

} // verus!
