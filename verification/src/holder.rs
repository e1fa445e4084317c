use vstd::prelude::*;
use crate::goal::{DefaultGoal, FatalError, Goal, GoalError, GoalId};
use crate::status::Status;
use crate::view::GoalHandler;

verus! {

/// One parent→child edge of the goal graph.
#[derive(Debug, Clone, Copy, PartialEq, Eq, Structural)]
struct GoalEdge {
    from: GoalId,
    to: GoalId,
}

/// Membership test on a vector of identifiers.
fn contains_id(v: &Vec<GoalId>, x: GoalId) -> (b: bool)
    ensures
        b == v@.contains(x),
{
    let mut i: usize = 0;
    while i < v.len()
        invariant
            i <= v@.len(),
            forall|k: int| 0 <= k < i ==> v@[k] != x,
        decreases v@.len() - i,
    {
        if v[i] == x {
            return true;
        }
        i += 1;
    }
    false
}

/// The shared registry owning the goal tree.
///
/// Identifiers are dense: the goal with identifier `i` (starting at 1) is
/// the `i`-th goal ever registered, and nothing is ever removed, so the
/// registry is one table indexed by identifier plus the edge list of the
/// parent→child graph.  The attached [`GoalHandler`] is notified of every
/// status change.
pub struct DefaultHolder<GH: GoalHandler> {
    names: Vec<String>,
    statuses: Vec<Status>,
    edges: Vec<GoalEdge>,
    goal_handler: GH,
}

impl<GH: GoalHandler> DefaultHolder<GH> {
    /// How many goals have been registered; also the highest identifier.
    pub closed spec fn goal_count(&self) -> nat {
        self.names@.len()
    }

    /// `id` is the identifier of a registered goal.
    pub open spec fn is_goal(&self, id: GoalId) -> bool {
        1 <= id.0 <= self.goal_count()
    }

    /// The name of the goal registered under `id`.
    pub closed spec fn name_of(&self, id: GoalId) -> Seq<char>
        recommends
            self.is_goal(id),
    {
        self.names@[id.0 - 1]@
    }

    /// The current status of the goal registered under `id`.
    pub closed spec fn status_of(&self, id: GoalId) -> Status
        recommends
            self.is_goal(id),
    {
        self.statuses@[id.0 - 1]
    }

    /// The graph has a parent→child edge from `from` to `to`.
    pub closed spec fn has_edge(&self, from: GoalId, to: GoalId) -> bool {
        exists|k: int|
            0 <= k < self.edges@.len() && (#[trigger] self.edges@[k]).from == from
                && self.edges@[k].to == to
    }

    /// Some goal is registered under `name`.
    pub open spec fn has_name(&self, name: Seq<char>) -> bool {
        exists|id: GoalId| #[trigger] self.is_goal(id) && self.name_of(id) == name
    }

    /// The identifier registered under `name` (meaningful when `has_name`).
    pub open spec fn id_of_name(&self, name: Seq<char>) -> GoalId {
        choose|id: GoalId| #[trigger] self.is_goal(id) && self.name_of(id) == name
    }

    /// Registry well-formedness: the status table covers exactly the
    /// registered goals, and the name index is injective.
    pub closed spec fn wf(&self) -> bool {
        &&& self.names@.len() == self.statuses@.len()
        &&& forall|i: int, j: int|
            #![trigger self.names@[i], self.names@[j]]
            0 <= i < j < self.names@.len() ==> self.names@[i]@ != self.names@[j]@
    }

    /// Names are unique: two registered goals with the same name are the
    /// same goal.  Together with the freshness of assigned identifiers this
    /// is why a registered goal's name always resolves back to exactly the
    /// identifier it was registered with.
    pub proof fn lemma_name_unique(&self, id1: GoalId, id2: GoalId)
        requires
            self.wf(),
            self.is_goal(id1),
            self.is_goal(id2),
            self.name_of(id1) == self.name_of(id2),
        ensures
            id1 == id2,
    {
        if id1.0 < id2.0 {
            assert(self.names@[id1.0 - 1]@ != self.names@[id2.0 - 1]@);
        } else if id2.0 < id1.0 {
            assert(self.names@[id2.0 - 1]@ != self.names@[id1.0 - 1]@);
        }
    }

    /// The attached observer.
    pub closed spec fn spec_goal_handler(&self) -> GH {
        self.goal_handler
    }

    /// Read access to the attached observer.
    pub fn goal_handler(&self) -> (r: &GH)
        ensures
            *r == self.spec_goal_handler(),
    {
        &self.goal_handler
    }

    /// An empty registry attached to the given observer.
    pub fn new(goal_handler: GH) -> (r: DefaultHolder<GH>)
        ensures
            r.wf(),
            r.goal_count() == 0,
            forall|a: GoalId, b: GoalId| !r.has_edge(a, b),
    {
        DefaultHolder { names: Vec::new(), statuses: Vec::new(), edges: Vec::new(), goal_handler }
    }

    /// Name lookup: the identifier a name was registered under.
    pub fn get_goal_id(&self, name: &String) -> (r: Result<GoalId, GoalError>)
        requires
            self.wf(),
        ensures
            match r {
                Ok(id) => self.is_goal(id) && self.name_of(id) == name@,
                Err(e) => e == GoalError::MissingGoalName(*name) && !self.has_name(name@),
            },
    {
        let n = self.names.len();
        let mut i: usize = 0;
        while i < n
            invariant
                n == self.names@.len(),
                i <= n,
                forall|k: int| 0 <= k < i ==> (#[trigger] self.names@[k])@ != name@,
            decreases n - i,
        {
            if self.names[i] == *name {
                return Ok(GoalId(i + 1));
            }
            i += 1;
        }
        proof {
            assert forall|id: GoalId| self.is_goal(id) implies self.name_of(id) != name@ by {
                assert(self.names@[id.0 - 1]@ != name@);
            }
        }
        Err(GoalError::MissingGoalName(name.clone()))
    }

    /// The current status of `id`: what it was last set to, or `Waiting`
    /// if it was never set since registration.
    pub fn get_goal_outcome(&self, id: GoalId) -> (r: Result<&Status, GoalError>)
        requires
            self.wf(),
        ensures
            match r {
                Ok(s) => self.is_goal(id) && *s == self.status_of(id),
                Err(e) => e == GoalError::MissingGoal(id) && !self.is_goal(id),
            },
    {
        if 1 <= id.0 && id.0 <= self.statuses.len() {
            Ok(&self.statuses[id.0 - 1])
        } else {
            Err(GoalError::MissingGoal(id))
        }
    }

    /// The step from `self` to `post` registers exactly one goal, `g`,
    /// under the fresh identifier `id`: the next identity is allocated, the
    /// goal's name is indexed, its status starts at `Waiting`, and the
    /// parent edge and any pre-declared child edges are spliced in.
    pub open spec fn goal_added(
        self,
        post: Self,
        id: GoalId,
        name: Seq<char>,
        parent: Option<GoalId>,
        children: Seq<GoalId>,
    ) -> bool {
        &&& post.wf()
        &&& id.0 == self.goal_count() + 1
        &&& post.goal_count() == self.goal_count() + 1
        &&& !self.is_goal(id)
        &&& post.is_goal(id)
        &&& post.name_of(id) == name
        &&& post.status_of(id) == Status::Waiting
        &&& !self.has_name(name)
        &&& forall|x: GoalId|
            #![trigger post.name_of(x)]
            #![trigger post.status_of(x)]
            #![trigger self.status_of(x)]
            self.is_goal(x) ==> post.name_of(x) == self.name_of(x) && post.status_of(x)
                == self.status_of(x)
        &&& forall|a: GoalId, b: GoalId|
            #![trigger post.has_edge(a, b)]
            #![trigger self.has_edge(a, b)]
            post.has_edge(a, b) <==> (self.has_edge(a, b) || (parent == Some(a) && a.0 != 0 && b
                == id) || (a == id && children.contains(b)))
    }

    /// The step from `self` to `post` overwrites the status of `id` with
    /// `status` and changes nothing else.
    pub open spec fn status_updated(self, post: Self, id: GoalId, status: Status) -> bool {
        &&& post.wf()
        &&& post.goal_count() == self.goal_count()
        &&& post.status_of(id) == status
        &&& forall|x: GoalId|
            #![trigger post.name_of(x)]
            #![trigger self.name_of(x)]
            post.name_of(x) == self.name_of(x)
        &&& forall|x: GoalId|
            #![trigger post.status_of(x)]
            #![trigger self.status_of(x)]
            self.is_goal(x) && x != id ==> post.status_of(x) == self.status_of(x)
        &&& forall|a: GoalId, b: GoalId|
            #![trigger post.has_edge(a, b)]
            #![trigger self.has_edge(a, b)]
            post.has_edge(a, b) == self.has_edge(a, b)
    }

    /// Registers a goal: assigns it the next identity, indexes its name,
    /// gives it the default `Waiting` status, and splices in its edges.  A
    /// name that is already taken is a fatal conflict and the registry is
    /// left untouched: an existing goal is never overwritten.
    pub fn add_goal(&mut self, goal: &mut DefaultGoal) -> (r: Result<GoalId, FatalError>)
        requires
            old(self).wf(),
        ensures
            match r {
                Ok(id) => {
                    &&& old(self).goal_added(
                        *final(self),
                        id,
                        old(goal).spec_name(),
                        old(goal).spec_parent(),
                        old(goal).spec_children(),
                    )
                    &&& final(goal).spec_id() == id
                    &&& final(goal).spec_name() == old(goal).spec_name()
                    &&& final(goal).spec_parent() == old(goal).spec_parent()
                    &&& final(goal).spec_children() == old(goal).spec_children()
                },
                Err(e) => match e {
                    FatalError::DuplicateName(n) => {
                        &&& n@ == old(goal).spec_name()
                        &&& old(self).has_name(old(goal).spec_name())
                        &&& *final(self) == *old(self)
                        &&& *final(goal) == *old(goal)
                    },
                    _ => false,
                },
            },
    {
        match self.get_goal_id(goal.name()) {
            Ok(existing) => {
                proof {
                    assert(old(self).is_goal(existing));
                }
                return Err(FatalError::DuplicateName(goal.name().clone()));
            },
            Err(_) => {},
        }
        let ghost old_edges = self.edges@;
        let name_copy = goal.name().clone();
        self.names.push(name_copy);
        self.statuses.push(Status::Waiting);
        let id = GoalId(self.names.len());
        proof {
            assert forall|i: int, j: int|
                #![trigger self.names@[i], self.names@[j]]
                0 <= i < j < self.names@.len() implies self.names@[i]@ != self.names@[j]@ by {
                if j < old(self).names@.len() {
                    assert(old(self).names@[i]@ != old(self).names@[j]@);
                } else {
                    assert(old(self).is_goal(GoalId((i + 1) as usize)));
                    assert(old(self).name_of(GoalId((i + 1) as usize)) == old(self).names@[i]@);
                }
            }
        }
        let parent_opt = goal.parent_goal();
        match parent_opt {
            Some(p) => {
                if p.0 != 0 {
                    self.edges.push(GoalEdge { from: p, to: id });
                }
            },
            None => {},
        }
        let ghost base_edges = self.edges@;
        proof {
            assert(forall|t: int| 0 <= t < old_edges.len() ==> base_edges[t] == old_edges[t]);
            assert(base_edges.len() == old_edges.len() + 1 ==> (match parent_opt {
                Some(p) => p.0 != 0 && base_edges[old_edges.len() as int] == (GoalEdge {
                    from: p,
                    to: id,
                }),
                None => false,
            }));
            assert(base_edges.len() == old_edges.len() ==> (match parent_opt {
                Some(p) => p.0 == 0,
                None => true,
            }));
            assert(base_edges.len() == old_edges.len() || base_edges.len() == old_edges.len() + 1);
        }
        let ghost names_now = self.names@;
        let ghost statuses_now = self.statuses@;
        let children_len = goal.child_goals().len();
        let mut k: usize = 0;
        while k < children_len
            invariant
                children_len == goal.spec_children().len(),
                *goal == *old(goal),
                k <= children_len,
                self.names@ == names_now,
                self.statuses@ == statuses_now,
                self.edges@.len() == base_edges.len() + k,
                forall|t: int| 0 <= t < base_edges.len() ==> self.edges@[t] == base_edges[t],
                forall|t: int|
                    0 <= t < k ==> self.edges@[base_edges.len() + t] == (GoalEdge {
                        from: id,
                        to: goal.spec_children()[t],
                    }),
            decreases children_len - k,
        {
            let c = goal.child_goals()[k];
            self.edges.push(GoalEdge { from: id, to: c });
            k += 1;
        }
        goal.assign_id(id);
        proof {
            let post = *self;
            let pre = *old(self);
            let g = *old(goal);
            assert(post.name_of(id) == g.spec_name());
            assert forall|x: GoalId| pre.is_goal(x) implies post.name_of(x) == pre.name_of(x)
                && post.status_of(x) == pre.status_of(x) by {
                assert(post.names@[x.0 - 1] == pre.names@[x.0 - 1]);
                assert(post.statuses@[x.0 - 1] == pre.statuses@[x.0 - 1]);
            }
            assert forall|a: GoalId, b: GoalId| #[trigger] post.has_edge(a, b) implies (
            pre.has_edge(a, b) || (g.spec_parent() == Some(a) && a.0 != 0 && b == id) || (a == id
                && g.spec_children().contains(b))) by {
                let t = choose|t: int|
                    0 <= t < post.edges@.len() && (#[trigger] post.edges@[t]).from == a
                        && post.edges@[t].to == b;
                if t < old_edges.len() {
                    assert(post.edges@[t] == base_edges[t]);
                    assert(pre.edges@[t].from == a && pre.edges@[t].to == b);
                    assert(pre.has_edge(a, b));
                } else if t < base_edges.len() {
                    assert(base_edges.len() == old_edges.len() + 1);
                    assert(t == old_edges.len());
                    assert(post.edges@[t] == base_edges[t]);
                    match parent_opt {
                        Some(p) => {
                            assert(base_edges[t] == (GoalEdge { from: p, to: id }));
                            assert(g.spec_parent() == Some(a) && a.0 != 0 && b == id);
                        },
                        None => {
                            assert(false);
                        },
                    }
                } else {
                    assert(post.edges@[t] == (GoalEdge {
                        from: id,
                        to: g.spec_children()[t - base_edges.len()],
                    }));
                    assert(g.spec_children().contains(b));
                }
            }
            assert forall|a: GoalId, b: GoalId|
                pre.has_edge(a, b) || (g.spec_parent() == Some(a) && a.0 != 0 && b == id) || (a
                    == id && g.spec_children().contains(b)) implies #[trigger] post.has_edge(
                a,
                b,
            ) by {
                if pre.has_edge(a, b) {
                    let t = choose|t: int|
                        0 <= t < pre.edges@.len() && (#[trigger] pre.edges@[t]).from == a
                            && pre.edges@[t].to == b;
                    assert(post.edges@[t].from == a && post.edges@[t].to == b);
                } else if g.spec_parent() == Some(a) && a.0 != 0 && b == id {
                    let t = old_edges.len() as int;
                    assert(parent_opt == Some(a));
                    assert(base_edges.len() == old_edges.len() + 1);
                    assert(base_edges[t] == (GoalEdge { from: a, to: id }));
                    assert(post.edges@[t].from == a && post.edges@[t].to == b);
                } else {
                    let j = choose|j: int|
                        0 <= j < g.spec_children().len() && g.spec_children()[j] == b;
                    let t = base_edges.len() + j;
                    assert(post.edges@[t].from == a && post.edges@[t].to == b);
                }
            }
        }
        Ok(id)
    }

    /// Overwrites the status of the goal that `goal`'s name resolves to
    /// (last write wins, no history kept), then synchronously notifies the
    /// attached observer of the change.
    pub fn set_goal_status<G: Goal>(&mut self, goal: &G, status: Status) -> (r: Result<
        (),
        GoalError,
    >)
        requires
            old(self).wf(),
        ensures
            match r {
                Ok(()) => {
                    &&& old(self).has_name(goal.spec_name())
                    &&& old(self).status_updated(
                        *final(self),
                        old(self).id_of_name(goal.spec_name()),
                        status,
                    )
                },
                Err(e) => match e {
                    GoalError::MissingGoalName(n) => {
                        &&& n@ == goal.spec_name()
                        &&& !old(self).has_name(goal.spec_name())
                        &&& *final(self) == *old(self)
                    },
                    _ => false,
                },
            },
    {
        let id = match self.get_goal_id(goal.name()) {
            Ok(i) => i,
            Err(e) => {
                return Err(e);
            },
        };
        proof {
            let c = old(self).id_of_name(goal.spec_name());
            assert(old(self).is_goal(id) && old(self).name_of(id) == goal.spec_name());
            assert(old(self).is_goal(c) && old(self).name_of(c) == goal.spec_name());
            old(self).lemma_name_unique(id, c);
        }
        let idx = id.0 - 1;
        self.statuses.set(idx, status);
        let gh = &mut self.goal_handler;
        let nm = &self.names[idx];
        let st = &self.statuses[idx];
        gh.handle_goal_status_change(id, nm, st);
        proof {
            assert(self.names@ == old(self).names@);
            assert(self.statuses@ == old(self).statuses@.update(idx as int, status));
            assert(self.edges@ == old(self).edges@);
        }
        Ok(())
    }

    /// Every registered identifier, in increasing order.
    pub fn all_goals(&self) -> (r: Vec<GoalId>)
        ensures
            r@.len() == self.goal_count(),
            r@.no_duplicates(),
            forall|g: GoalId| #[trigger] r@.contains(g) <==> self.is_goal(g),
    {
        let n = self.names.len();
        let mut out: Vec<GoalId> = Vec::new();
        let mut i: usize = 0;
        while i < n
            invariant
                n == self.names@.len(),
                i <= n,
                out@.len() == i,
                forall|k: int| 0 <= k < i ==> (#[trigger] out@[k]) == GoalId((k + 1) as usize),
            decreases n - i,
        {
            out.push(GoalId(i + 1));
            i += 1;
        }
        proof {
            assert forall|g: GoalId| out@.contains(g) implies self.is_goal(g) by {
                let k = choose|k: int| 0 <= k < out@.len() && out@[k] == g;
                assert(out@[k] == GoalId((k + 1) as usize));
            }
            assert forall|g: GoalId| self.is_goal(g) implies out@.contains(g) by {
                assert(out@[g.0 - 1] == GoalId((g.0 - 1 + 1) as usize));
                assert(out@[g.0 - 1] == g);
            }
            assert forall|a: int, b: int| 0 <= a < b < out@.len() implies out@[a] != out@[b] by {
                assert(out@[a] == GoalId((a + 1) as usize));
                assert(out@[b] == GoalId((b + 1) as usize));
            }
        }
        out
    }

    /// The direct children of `id`: the targets of its outgoing edges.
    pub fn get_direct_children(&self, id: &GoalId) -> (r: Result<Vec<GoalId>, GoalError>)
        requires
            self.wf(),
        ensures
            match r {
                Ok(v) => {
                    &&& self.is_goal(*id)
                    &&& v@.no_duplicates()
                    &&& forall|c: GoalId| #[trigger] v@.contains(c) <==> self.has_edge(*id, c)
                },
                Err(e) => e == GoalError::MissingGoal(*id) && !self.is_goal(*id),
            },
    {
        let me = *id;
        if !(1 <= me.0 && me.0 <= self.names.len()) {
            return Err(GoalError::MissingGoal(me));
        }
        let mut out: Vec<GoalId> = Vec::new();
        let n = self.edges.len();
        let mut k: usize = 0;
        while k < n
            invariant
                n == self.edges@.len(),
                k <= n,
                out@.no_duplicates(),
                forall|c: GoalId| #[trigger] out@.contains(c) ==> exists|t: int|
                    0 <= t < k && (#[trigger] self.edges@[t]).from == me && self.edges@[t].to == c,
                forall|t: int|
                    0 <= t < k && (#[trigger] self.edges@[t]).from == me ==> out@.contains(
                        self.edges@[t].to,
                    ),
            decreases n - k,
        {
            let e = self.edges[k];
            if e.from == me {
                if !contains_id(&out, e.to) {
                    let ghost out_pre = out@;
                    out.push(e.to);
                    proof {
                        assert forall|c: GoalId| #[trigger] out@.contains(c) implies exists|t: int|
                            0 <= t < k + 1 && (#[trigger] self.edges@[t]).from == me
                                && self.edges@[t].to == c by {
                            let u = choose|u: int| 0 <= u < out@.len() && out@[u] == c;
                            if u < out_pre.len() {
                                assert(out_pre.contains(c));
                            } else {
                                assert(c == e.to);
                                assert(self.edges@[k as int].from == me && self.edges@[k as int].to
                                    == c);
                            }
                        }
                        assert forall|t: int|
                            0 <= t < k + 1 && (#[trigger] self.edges@[t]).from
                                == me implies out@.contains(self.edges@[t].to) by {
                            if t < k {
                                assert(out_pre.contains(self.edges@[t].to));
                                let u = choose|u: int|
                                    0 <= u < out_pre.len() && out_pre[u] == self.edges@[t].to;
                                assert(out@[u] == self.edges@[t].to);
                            } else {
                                assert(out@[out_pre.len() as int] == e.to);
                            }
                        }
                    }
                } else {
                    proof {
                        assert(self.edges@[k as int].to == e.to);
                    }
                }
            }
            k += 1;
        }
        Ok(out)
    }

    /// The parent of `id`: the source of its one incoming edge, or none
    /// for the root.  Finding more than one incoming edge means the tree
    /// is corrupt; that is reported on the fatal channel.
    pub fn get_parent(&self, id: &GoalId) -> (r: Result<Option<GoalId>, GoalError>)
        requires
            self.wf(),
        ensures
            match r {
                Ok(p) => match p {
                    None => self.is_goal(*id) && forall|q: GoalId| !self.has_edge(q, *id),
                    Some(p) => self.is_goal(*id) && self.has_edge(p, *id) && forall|q: GoalId|
                        #[trigger] self.has_edge(q, *id) ==> q == p,
                },
                Err(e) => match e {
                    GoalError::MissingGoal(g) => g == *id && !self.is_goal(*id),
                    GoalError::Fatal(FatalError::MultipleParents(g)) => g == *id && exists|
                        p1: GoalId,
                        p2: GoalId,
                    |
                        p1 != p2 && #[trigger] self.has_edge(p1, *id) && #[trigger] self.has_edge(
                            p2,
                            *id,
                        ),
                    _ => false,
                },
            },
    {
        let me = *id;
        if !(1 <= me.0 && me.0 <= self.names.len()) {
            return Err(GoalError::MissingGoal(me));
        }
        let mut found: Option<GoalId> = None;
        let n = self.edges.len();
        let mut k: usize = 0;
        while k < n
            invariant
                self.wf(),
                me == *id,
                n == self.edges@.len(),
                k <= n,
                found is None ==> forall|t: int|
                    0 <= t < k ==> (#[trigger] self.edges@[t]).to != me,
                found matches Some(p) ==> self.has_edge(p, me) && forall|t: int|
                    0 <= t < k && (#[trigger] self.edges@[t]).to == me ==> self.edges@[t].from
                        == p,
            decreases n - k,
        {
            let e = self.edges[k];
            if e.to == me {
                match found {
                    None => {
                        found = Some(e.from);
                        proof {
                            assert(self.edges@[k as int].from == e.from && self.edges@[k as int].to
                                == me);
                        }
                    },
                    Some(p) => {
                        if p.0 != e.from.0 {
                            proof {
                                assert(self.edges@[k as int].from == e.from
                                    && self.edges@[k as int].to == me);
                                assert(self.has_edge(e.from, me));
                            }
                            return Err(GoalError::Fatal(FatalError::MultipleParents(me)));
                        }
                    },
                }
            }
            k += 1;
        }
        match found {
            None => {
                proof {
                    assert forall|q: GoalId| !self.has_edge(q, me) by {
                        if self.has_edge(q, me) {
                            let t = choose|t: int|
                                0 <= t < self.edges@.len() && (#[trigger] self.edges@[t]).from == q
                                    && self.edges@[t].to == me;
                            assert(self.edges@[t].to != me);
                        }
                    }
                }
                Ok(None)
            },
            Some(p) => {
                proof {
                    assert forall|q: GoalId| #[trigger] self.has_edge(q, me) implies q == p by {
                        let t = choose|t: int|
                            0 <= t < self.edges@.len() && (#[trigger] self.edges@[t]).from == q
                                && self.edges@[t].to == me;
                        assert(self.edges@[t].from == p);
                    }
                }
                Ok(Some(p))
            },
        }
    }

    /// `to` is in the subtree rooted at `from`: it can be reached from
    /// `from` in at most `n` parent→child steps through registered goals.
    pub open spec fn reachable_within(&self, from: GoalId, to: GoalId, n: nat) -> bool
        decreases n,
    {
        from == to || (n > 0 && self.is_goal(from) && exists|mid: GoalId|
            #[trigger] self.has_edge(from, mid) && self.reachable_within(
                mid,
                to,
                (n - 1) as nat,
            ))
    }

    /// `to` is in the subtree rooted at `from` (`from` itself included).
    pub open spec fn reachable(&self, from: GoalId, to: GoalId) -> bool {
        exists|n: nat| self.reachable_within(from, to, n)
    }

    /// Reaching `a` and stepping along one edge reaches the edge's target.
    pub proof fn lemma_reachable_step(&self, s: GoalId, a: GoalId, b: GoalId)
        requires
            self.reachable(s, a),
            self.is_goal(a),
            self.has_edge(a, b),
        ensures
            self.reachable(s, b),
    {
        let n = choose|n: nat| self.reachable_within(s, a, n);
        self.lemma_reachable_within_step(s, a, b, n);
        assert(self.reachable_within(s, b, n + 1));
    }

    proof fn lemma_reachable_within_step(&self, s: GoalId, a: GoalId, b: GoalId, n: nat)
        requires
            self.reachable_within(s, a, n),
            self.is_goal(a),
            self.has_edge(a, b),
        ensures
            self.reachable_within(s, b, n + 1),
        decreases n,
    {
        if s == a {
            assert(self.reachable_within(b, b, n as nat));
            assert(self.has_edge(s, b) && self.reachable_within(b, b, (n + 1 - 1) as nat));
        } else {
            let mid = choose|mid: GoalId|
                #[trigger] self.has_edge(s, mid) && self.reachable_within(mid, a, (n - 1) as nat);
            self.lemma_reachable_within_step(mid, a, b, (n - 1) as nat);
            assert(self.has_edge(s, mid) && self.reachable_within(mid, b, (n + 1 - 1) as nat));
        }
    }

    /// The subtree rooted at `id`: `id` itself together with the full
    /// transitive closure of its descendants.  The traversal is iterative,
    /// guards against cycles with a visited set, and reports the first
    /// unregistered identifier it runs into.
    pub fn get_all_children(&self, id: &GoalId) -> (r: Result<Vec<GoalId>, GoalError>)
        requires
            self.wf(),
        ensures
            match r {
                Ok(v) => {
                    &&& self.is_goal(*id)
                    &&& v@.no_duplicates()
                    &&& forall|g: GoalId| #[trigger] v@.contains(g) <==> self.reachable(*id, g)
                    &&& forall|g: GoalId| #[trigger] self.reachable(*id, g) ==> self.is_goal(g)
                },
                Err(e) => match e {
                    GoalError::MissingGoal(g) => self.reachable(*id, g) && !self.is_goal(g),
                    _ => false,
                },
            },
    {
        let start = *id;
        let n_goals = self.names.len();
        let mut output: Vec<GoalId> = Vec::new();
        let mut id_stack: Vec<GoalId> = Vec::new();
        id_stack.push(start);
        proof {
            assert(self.reachable_within(start, start, 0));
            assert(self.reachable(start, start));
            assert(id_stack@[0] == start);
        }
        while id_stack.len() > 0
            invariant
                self.wf(),
                start == *id,
                n_goals == self.goal_count(),
                output@.no_duplicates(),
                output@.len() <= self.goal_count(),
                forall|g: GoalId| #[trigger] output@.contains(g) ==> self.reachable(start, g),
                forall|g: GoalId| #[trigger] id_stack@.contains(g) ==> self.reachable(start, g),
                forall|g: GoalId| #[trigger] output@.contains(g) ==> self.is_goal(g),
                forall|x: GoalId, y: GoalId|
                    output@.contains(x) && #[trigger] self.has_edge(x, y) ==> output@.contains(y)
                        || id_stack@.contains(y),
                output@.contains(start) || id_stack@.contains(start),
            decreases self.goal_count() - output@.len(), id_stack@.len(),
        {
            let ghost stack_before = id_stack@;
            let ghost output_before = output@;
            let cur = id_stack.pop().unwrap();
            proof {
                assert(stack_before[stack_before.len() - 1] == cur);
                assert(stack_before.contains(cur));
                assert forall|y: GoalId|
                    stack_before.contains(y) && y != cur implies id_stack@.contains(y) by {
                    let t = choose|t: int| 0 <= t < stack_before.len() && stack_before[t] == y;
                    assert(id_stack@[t] == y);
                }
                assert forall|y: GoalId|
                    #[trigger] id_stack@.contains(y) implies stack_before.contains(y) by {
                    let t = choose|t: int| 0 <= t < id_stack@.len() && id_stack@[t] == y;
                    assert(stack_before[t] == y);
                }
            }
            if !contains_id(&output, cur) {
                output.push(cur);
                proof {
                    assert(output@[output@.len() - 1] == cur);
                    assert(output@.contains(cur));
                    assert forall|g: GoalId|
                        #[trigger] output@.contains(g) implies output_before.contains(g) || g
                            == cur by {
                        let t = choose|t: int| 0 <= t < output@.len() && output@[t] == g;
                        if t < output_before.len() {
                            assert(output_before[t] == g);
                        }
                    }
                    assert forall|g: GoalId|
                        output_before.contains(g) implies #[trigger] output@.contains(g) by {
                        let t = choose|t: int| 0 <= t < output_before.len() && output_before[t]
                            == g;
                        assert(output@[t] == g);
                    }
                    assert forall|a: int, b: int|
                        0 <= a < b < output@.len() implies output@[a] != output@[b] by {
                        if b < output_before.len() {
                            assert(output_before[a] != output_before[b]);
                        } else {
                            assert(output@[b] == cur);
                            if output@[a] == cur {
                                assert(output_before[a] == cur);
                                assert(output_before.contains(cur));
                            }
                        }
                    }
                }
                let children = match self.get_direct_children(&cur) {
                    Ok(c) => c,
                    Err(e) => {
                        return Err(e);
                    },
                };
                proof {
                    assert forall|k: int|
                        0 <= k < output@.len() implies 1 <= (#[trigger] output@[k]).0
                            <= n_goals by {
                        if k < output_before.len() {
                            assert(output_before.contains(output_before[k]));
                            assert(output@[k] == output_before[k]);
                        } else {
                            assert(output@[k] == cur);
                        }
                    }
                    lemma_distinct_bounded_ids(output@, n_goals as int);
                    assert forall|x: GoalId, y: GoalId|
                        output@.contains(x) && #[trigger] self.has_edge(x, y) implies (
                    output@.contains(y) || id_stack@.contains(y) || (x == cur && exists|t: int|
                        0 <= t < children@.len() && children@[t] == y)) by {
                        if x == cur {
                            assert(children@.contains(y));
                        } else {
                            assert(output_before.contains(x));
                            assert(output_before.contains(y) || stack_before.contains(y));
                            if stack_before.contains(y) && !id_stack@.contains(y) {
                                assert(y == cur);
                                assert(output@.contains(cur));
                            }
                        }
                    }
                }
                let mut j: usize = 0;
                while j < children.len()
                    invariant
                        self.wf(),
                        start == *id,
                        n_goals == self.goal_count(),
                        j <= children@.len(),
                        output@.no_duplicates(),
                        output@.len() <= self.goal_count(),
                        self.is_goal(cur),
                        self.reachable(start, cur),
                        output@.contains(cur),
                        output@ == output_before.push(cur),
                        forall|c: GoalId| #[trigger] children@.contains(c) <==> self.has_edge(
                            cur,
                            c,
                        ),
                        forall|g: GoalId| #[trigger] output@.contains(g) ==> self.reachable(
                            start,
                            g,
                        ),
                        forall|g: GoalId| #[trigger] id_stack@.contains(g) ==> self.reachable(
                            start,
                            g,
                        ),
                        forall|g: GoalId| #[trigger] output@.contains(g) ==> self.is_goal(g),
                        forall|x: GoalId, y: GoalId|
                            output@.contains(x) && #[trigger] self.has_edge(x, y)
                                ==> output@.contains(y) || id_stack@.contains(y) || (x == cur
                                && exists|t: int|
                                j <= t < children@.len() && children@[t] == y),
                        output@.contains(start) || id_stack@.contains(start),
                    decreases children@.len() - j,
                {
                    let c = children[j];
                    let ghost stack_pre_push = id_stack@;
                    id_stack.push(c);
                    proof {
                        assert(children@.contains(c));
                        self.lemma_reachable_step(start, cur, c);
                        assert forall|y: GoalId|
                            stack_pre_push.contains(y) implies id_stack@.contains(y) by {
                            let t = choose|t: int|
                                0 <= t < stack_pre_push.len() && stack_pre_push[t] == y;
                            assert(id_stack@[t] == y);
                        }
                        assert forall|y: GoalId|
                            #[trigger] id_stack@.contains(y) implies stack_pre_push.contains(y)
                            || y == c by {
                            let t = choose|t: int| 0 <= t < id_stack@.len() && id_stack@[t] == y;
                            if t < stack_pre_push.len() {
                                assert(stack_pre_push[t] == y);
                            }
                        }
                        assert(id_stack@[id_stack@.len() - 1] == c);
                        assert(id_stack@.contains(c));
                    }
                    j += 1;
                }
            }
        }
        proof {
            assert forall|g: GoalId| #[trigger] self.reachable(start, g) implies output@.contains(
                g,
            ) && self.is_goal(g) by {
                let n = choose|n: nat| self.reachable_within(start, g, n);
                self.lemma_closed_contains_reachable(output@, start, g, n);
                assert(output@.contains(g));
            }
        }
        Ok(output)
    }

    /// Whether every goal in the subtree rooted at `id`, `id` itself
    /// included, currently has a `Finished` status.  The first lookup
    /// error short-circuits the traversal.
    pub fn all_children_finished(&self, id: &GoalId) -> (r: Result<bool, GoalError>)
        requires
            self.wf(),
        ensures
            match r {
                Ok(b) => {
                    &&& self.is_goal(*id)
                    &&& (b <==> forall|c: GoalId| #[trigger] self.reachable(*id, c)
                        ==> self.status_of(c).spec_is_finished())
                },
                Err(e) => match e {
                    GoalError::MissingGoal(g) => self.reachable(*id, g) && !self.is_goal(g),
                    _ => false,
                },
            },
    {
        let children = match self.get_all_children(id) {
            Ok(c) => c,
            Err(e) => {
                return Err(e);
            },
        };
        let mut i: usize = 0;
        while i < children.len()
            invariant
                self.wf(),
                self.is_goal(*id),
                i <= children@.len(),
                forall|g: GoalId| #[trigger] children@.contains(g) <==> self.reachable(*id, g),
                forall|g: GoalId| #[trigger] self.reachable(*id, g) ==> self.is_goal(g),
                forall|t: int|
                    0 <= t < i ==> self.status_of(#[trigger] children@[t]).spec_is_finished(),
            decreases children@.len() - i,
        {
            let c = children[i];
            proof {
                assert(children@.contains(c));
            }
            match self.get_goal_outcome(c) {
                Ok(s) => {
                    if !s.is_finished() {
                        return Ok(false);
                    }
                },
                Err(e) => {
                    proof {
                        assert(false);
                    }
                    return Err(e);
                },
            }
            i += 1;
        }
        proof {
            assert forall|c: GoalId|
                self.reachable(*id, c) implies self.status_of(c).spec_is_finished() by {
                assert(children@.contains(c));
                let t = choose|t: int| 0 <= t < children@.len() && children@[t] == c;
                assert(self.status_of(children@[t]).spec_is_finished());
            }
        }
        Ok(true)
    }

    /// Whether any goal in the subtree rooted at `id` has finished with a
    /// failure.  Goals that finished as `Skipped` or `Success`, or that
    /// have not finished, never count.
    pub fn any_child_errored(&self, id: &GoalId) -> (r: Result<bool, GoalError>)
        requires
            self.wf(),
        ensures
            match r {
                Ok(b) => {
                    &&& self.is_goal(*id)
                    &&& (b <==> exists|c: GoalId| #[trigger] self.reachable(*id, c)
                        && self.status_of(c).spec_is_failed())
                },
                Err(e) => match e {
                    GoalError::MissingGoal(g) => self.reachable(*id, g) && !self.is_goal(g),
                    _ => false,
                },
            },
    {
        let children = match self.get_all_children(id) {
            Ok(c) => c,
            Err(e) => {
                return Err(e);
            },
        };
        let mut i: usize = 0;
        while i < children.len()
            invariant
                self.wf(),
                self.is_goal(*id),
                i <= children@.len(),
                forall|g: GoalId| #[trigger] children@.contains(g) <==> self.reachable(*id, g),
                forall|g: GoalId| #[trigger] self.reachable(*id, g) ==> self.is_goal(g),
                forall|t: int|
                    0 <= t < i ==> !self.status_of(#[trigger] children@[t]).spec_is_failed(),
            decreases children@.len() - i,
        {
            let c = children[i];
            proof {
                assert(children@.contains(c));
            }
            match self.get_goal_outcome(c) {
                Ok(s) => {
                    if s.is_failed() {
                        return Ok(true);
                    }
                },
                Err(e) => {
                    proof {
                        assert(false);
                    }
                    return Err(e);
                },
            }
            i += 1;
        }
        proof {
            assert forall|c: GoalId|
                self.reachable(*id, c) implies !self.status_of(c).spec_is_failed() by {
                assert(children@.contains(c));
                let t = choose|t: int| 0 <= t < children@.len() && children@[t] == c;
                assert(!self.status_of(children@[t]).spec_is_failed());
            }
        }
        Ok(false)
    }

    /// After a successful registration, the new goal's name resolves to
    /// exactly the identifier that was assigned to it.
    pub proof fn lemma_registered_name_resolves(
        self,
        post: Self,
        id: GoalId,
        name: Seq<char>,
        parent: Option<GoalId>,
        children: Seq<GoalId>,
    )
        requires
            self.goal_added(post, id, name, parent, children),
        ensures
            post.has_name(name),
            post.id_of_name(name) == id,
    {
        assert(post.is_goal(id) && post.name_of(id) == name);
        let c = post.id_of_name(name);
        post.lemma_name_unique(id, c);
    }

    /// Identifiers are never reused: a registration assigns a fresh
    /// identifier, distinct from that of every goal registered before,
    /// and every previously registered goal stays registered.
    pub proof fn lemma_registered_id_fresh(
        self,
        post: Self,
        id: GoalId,
        name: Seq<char>,
        parent: Option<GoalId>,
        children: Seq<GoalId>,
    )
        requires
            self.goal_added(post, id, name, parent, children),
        ensures
            !self.is_goal(id),
            post.is_goal(id),
            forall|g: GoalId| #[trigger] self.is_goal(g) ==> post.is_goal(g) && g != id,
    {
    }

    /// A goal spawned with no pre-declared children has exactly one
    /// incoming edge, from the goal that spawned it: `get_parent` on the
    /// child yields exactly the spawner's identifier.
    pub proof fn lemma_spawned_child_parent(
        self,
        post: Self,
        id: GoalId,
        name: Seq<char>,
        parent: GoalId,
    )
        requires
            self.goal_added(post, id, name, Some(parent), Seq::<GoalId>::empty()),
            parent.0 != 0,
            forall|a: GoalId| !self.has_edge(a, id),
        ensures
            post.has_edge(parent, id),
            forall|q: GoalId| #[trigger] post.has_edge(q, id) ==> q == parent,
    {
    }

    /// A root registered with no pre-declared self-edge has no incoming
    /// edge at all: `get_parent` on it yields no parent.
    pub proof fn lemma_root_has_no_parent(
        self,
        post: Self,
        id: GoalId,
        name: Seq<char>,
        children: Seq<GoalId>,
    )
        requires
            self.goal_added(post, id, name, None, children),
            forall|a: GoalId| !self.has_edge(a, id),
            !children.contains(id),
        ensures
            forall|q: GoalId| !post.has_edge(q, id),
    {
    }

    /// The subtree of `id` always contains `id` itself.
    pub proof fn lemma_subtree_contains_self(self, id: GoalId)
        ensures
            self.reachable(id, id),
    {
        assert(self.reachable_within(id, id, 0));
    }

    /// Subtree queries have no side effects: any two subtree results
    /// computed over the same unchanged registry hold exactly the same
    /// identifiers.
    pub proof fn lemma_subtree_deterministic(self, id: GoalId, v1: Seq<GoalId>, v2: Seq<GoalId>)
        requires
            forall|g: GoalId| #[trigger] v1.contains(g) <==> self.reachable(id, g),
            forall|g: GoalId| #[trigger] v2.contains(g) <==> self.reachable(id, g),
        ensures
            forall|g: GoalId| #[trigger] v1.contains(g) <==> #[trigger] v2.contains(g),
    {
    }

    /// A goal with no outgoing edges has only itself in its subtree, so
    /// whether all of its children have finished is decided by its own
    /// status alone.
    pub proof fn lemma_childless_subtree(self, id: GoalId)
        requires
            forall|c: GoalId| !self.has_edge(id, c),
        ensures
            forall|c: GoalId| #[trigger] self.reachable(id, c) ==> c == id,
    {
        assert forall|c: GoalId| #[trigger] self.reachable(id, c) implies c == id by {
            let n = choose|n: nat| self.reachable_within(id, c, n);
            assert(self.reachable_within(id, c, n));
            if id != c {
                let mid = choose|mid: GoalId|
                    #[trigger] self.has_edge(id, mid) && self.reachable_within(
                        mid,
                        c,
                        (n - 1) as nat,
                    );
                assert(false);
            }
        }
    }

    proof fn lemma_reachable_within_stable(self, post: Self, a: GoalId, b: GoalId, n: nat)
        requires
            self.goal_count() == post.goal_count(),
            forall|x: GoalId, y: GoalId|
                #![trigger self.has_edge(x, y)]
                #![trigger post.has_edge(x, y)]
                self.has_edge(x, y) == post.has_edge(x, y),
            self.reachable_within(a, b, n),
        ensures
            post.reachable_within(a, b, n),
        decreases n,
    {
        if a != b {
            let mid = choose|mid: GoalId|
                #[trigger] self.has_edge(a, mid) && self.reachable_within(mid, b, (n - 1) as nat);
            self.lemma_reachable_within_stable(post, mid, b, (n - 1) as nat);
            assert(post.has_edge(a, mid) && post.reachable_within(mid, b, (n - 1) as nat));
        }
    }

    /// Reachability is decided by the graph alone: a step that changes
    /// only statuses changes no subtree.
    pub proof fn lemma_reachable_stable(self, post: Self, a: GoalId, b: GoalId)
        requires
            self.goal_count() == post.goal_count(),
            forall|x: GoalId, y: GoalId|
                #![trigger self.has_edge(x, y)]
                #![trigger post.has_edge(x, y)]
                self.has_edge(x, y) == post.has_edge(x, y),
            self.reachable(a, b),
        ensures
            post.reachable(a, b),
    {
        let n = choose|n: nat| self.reachable_within(a, b, n);
        self.lemma_reachable_within_stable(post, a, b, n);
        assert(post.reachable_within(a, b, n));
    }

    /// The moment the status of a goal inside a subtree is overwritten
    /// with a failure, that subtree reports an error.
    pub proof fn lemma_fail_marks_subtree(self, post: Self, root: GoalId, d: GoalId, status: Status)
        requires
            self.status_updated(post, d, status),
            status.spec_is_failed(),
            self.reachable(root, d),
        ensures
            exists|c: GoalId| #[trigger] post.reachable(root, c) && post.status_of(
                c,
            ).spec_is_failed(),
    {
        self.lemma_reachable_stable(post, root, d);
        assert(post.reachable(root, d) && post.status_of(d).spec_is_failed());
    }

    /// A status overwrite that is not a failure cannot make a registry
    /// with no failed goal report one.
    pub proof fn lemma_no_failure_preserved(self, post: Self, d: GoalId, status: Status)
        requires
            self.status_updated(post, d, status),
            !status.spec_is_failed(),
            forall|c: GoalId| #[trigger] self.is_goal(c) ==> !self.status_of(c).spec_is_failed(),
        ensures
            forall|c: GoalId| #[trigger] post.is_goal(c) ==> !post.status_of(c).spec_is_failed(),
    {
        assert forall|c: GoalId|
            #[trigger] post.is_goal(c) implies !post.status_of(c).spec_is_failed() by {
            assert(self.is_goal(c));
            if c != d {
                assert(post.status_of(c) == self.status_of(c));
            }
        }
    }

    /// Last write wins: after a status is overwritten twice, only the
    /// later value remains, and no other goal's status has moved.
    pub proof fn lemma_last_write_wins(
        self,
        mid: Self,
        post: Self,
        id: GoalId,
        s1: Status,
        s2: Status,
    )
        requires
            self.status_updated(mid, id, s1),
            mid.status_updated(post, id, s2),
        ensures
            post.status_of(id) == s2,
            forall|x: GoalId|
                #[trigger] self.is_goal(x) && x != id ==> post.status_of(x) == self.status_of(x),
    {
    }

    /// A set of identifiers that contains `s` and is closed under the
    /// parent→child edges of registered goals contains everything
    /// reachable from `s`.
    proof fn lemma_closed_contains_reachable(
        &self,
        out: Seq<GoalId>,
        s: GoalId,
        b: GoalId,
        n: nat,
    )
        requires
            out.contains(s),
            forall|x: GoalId, y: GoalId|
                out.contains(x) && self.is_goal(x) && #[trigger] self.has_edge(x, y)
                    ==> out.contains(y),
            self.reachable_within(s, b, n),
        ensures
            out.contains(b),
        decreases n,
    {
        if s == b {
        } else {
            let mid = choose|mid: GoalId|
                #[trigger] self.has_edge(s, mid) && self.reachable_within(mid, b, (n - 1) as nat);
            assert(out.contains(mid));
            self.lemma_closed_contains_reachable(out, mid, b, (n - 1) as nat);
        }
    }
}

/// A sequence of distinct identifiers drawn from `1..=n` has at most `n`
/// elements.
proof fn lemma_distinct_bounded_ids(s: Seq<GoalId>, n: int)
    requires
        0 <= n <= usize::MAX,
        s.no_duplicates(),
        forall|k: int| 0 <= k < s.len() ==> 1 <= (#[trigger] s[k]).0 <= n,
    ensures
        s.len() <= n,
    decreases n,
{
    if n == 0 {
        if s.len() > 0 {
            assert(1 <= s[0].0 <= 0);
        }
    } else {
        let last = GoalId(n as usize);
        if s.contains(last) {
            let idx = choose|idx: int| 0 <= idx < s.len() && s[idx] == last;
            let s2 = s.remove(idx);
            assert forall|a: int, c: int| 0 <= a < c < s2.len() implies s2[a] != s2[c] by {
                if c < idx {
                    assert(s2[a] == s[a] && s2[c] == s[c]);
                } else if a < idx {
                    assert(s2[a] == s[a] && s2[c] == s[c + 1]);
                } else {
                    assert(s2[a] == s[a + 1] && s2[c] == s[c + 1]);
                }
            }
            assert forall|k: int| 0 <= k < s2.len() implies 1 <= (#[trigger] s2[k]).0 <= n - 1 by {
                if k < idx {
                    assert(s2[k] == s[k]);
                    assert(s[k] != last);
                } else {
                    assert(s2[k] == s[k + 1]);
                    assert(s[k + 1] != last);
                }
            }
            lemma_distinct_bounded_ids(s2, n - 1);
        } else {
            assert forall|k: int| 0 <= k < s.len() implies 1 <= (#[trigger] s[k]).0 <= n - 1 by {
                assert(s[k] != last);
            }
            lemma_distinct_bounded_ids(s, n - 1);
        }
    }
}

} // verus!
