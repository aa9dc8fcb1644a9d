//! What the engine knows of the disk: which paths hold a file, a directory or
//! a directory link; the actions that change it; and what each action does.

use vstd::prelude::*;
use crate::error::EngineError;

verus! {

/// What stands at a path.
#[derive(Debug)]
pub enum Kind {
    /// Nothing.
    Absent,
    /// A regular file.
    File,
    /// A real directory. `id` tells directories apart: it travels with the
    /// directory when that is moved.
    Dir { id: u64 },
    /// A directory link that resolves to `target`.
    Link { target: String },
}

/// What stands at a path, as plain values.
pub enum Node {
    Absent,
    File,
    Dir(u64),
    Link(Seq<char>),
}

impl View for Kind {
    type V = Node;

    open spec fn view(&self) -> Node {
        match self {
            Kind::Absent => Node::Absent,
            Kind::File => Node::File,
            Kind::Dir { id } => Node::Dir(*id),
            Kind::Link { target } => Node::Link(target@),
        }
    }
}

impl Kind {
    /// A copy of this value.
    pub fn duplicate(&self) -> (out: Kind)
        ensures
            out@ == self@,
    {
        match self {
            Kind::Absent => Kind::Absent,
            Kind::File => Kind::File,
            Kind::Dir { id } => Kind::Dir { id: *id },
            Kind::Link { target } => Kind::Link { target: target.clone() },
        }
    }
}

/// The disk as a map from path to what stands there. A path without an entry
/// holds nothing.
pub type Space = Map<Seq<char>, Node>;

/// What stands at `p`.
pub open spec fn at(w: Space, p: Seq<char>) -> Node {
    if w.contains_key(p) {
        w[p]
    } else {
        Node::Absent
    }
}

/// The disk with `n` standing at `p`.
pub open spec fn put(w: Space, p: Seq<char>, n: Node) -> Space {
    w.insert(p, n)
}

/// One change to the disk.
#[derive(Debug)]
pub enum Action {
    /// Create the directory and its missing ancestors.
    CreateDir { path: String },
    /// Create a directory link at `link` that resolves to `target`.
    CreateLink { link: String, target: String },
    /// Remove the link object at `link`, leaving its target alone.
    RemoveLink { link: String },
    /// Move the directory at `from` to `to`: a rename where that works, else a
    /// copy followed by the removal of the origin.
    MoveDir { from: String, to: String },
    /// Write the lock file.
    WriteLock { path: String },
    /// Delete the lock file.
    DeleteLock { path: String },
}

/// An action as plain values.
pub enum Act {
    CreateDir(Seq<char>),
    CreateLink(Seq<char>, Seq<char>),
    RemoveLink(Seq<char>),
    MoveDir(Seq<char>, Seq<char>),
    WriteLock(Seq<char>),
    DeleteLock(Seq<char>),
}

impl View for Action {
    type V = Act;

    open spec fn view(&self) -> Act {
        match self {
            Action::CreateDir { path } => Act::CreateDir(path@),
            Action::CreateLink { link, target } => Act::CreateLink(link@, target@),
            Action::RemoveLink { link } => Act::RemoveLink(link@),
            Action::MoveDir { from, to } => Act::MoveDir(from@, to@),
            Action::WriteLock { path } => Act::WriteLock(path@),
            Action::DeleteLock { path } => Act::DeleteLock(path@),
        }
    }
}

/// The actions of a list as plain values.
pub open spec fn acts(s: Seq<Action>) -> Seq<Act> {
    Seq::new(s.len(), |i: int| s[i]@)
}

/// Whether the disk lets the action happen.
pub open spec fn enabled(w: Space, a: Act) -> bool {
    match a {
        Act::CreateDir(p) => at(w, p) is Absent || at(w, p) is Dir,
        Act::CreateLink(l, _) => at(w, l) is Absent,
        Act::RemoveLink(l) => at(w, l) is Link,
        Act::MoveDir(from, to) => at(w, from) is Dir && at(w, to) is Absent,
        Act::WriteLock(p) => at(w, p) is Absent || at(w, p) is File,
        Act::DeleteLock(p) => at(w, p) is File,
    }
}

/// What the action leaves behind where the disk lets it happen. A new
/// directory has the id 0.
pub open spec fn effect(w: Space, a: Act) -> Space {
    match a {
        Act::CreateDir(p) => if at(w, p) is Absent {
            put(w, p, Node::Dir(0))
        } else {
            w
        },
        Act::CreateLink(l, t) => put(w, l, Node::Link(t)),
        Act::RemoveLink(l) => put(w, l, Node::Absent),
        Act::MoveDir(from, to) => put(put(w, to, at(w, from)), from, Node::Absent),
        Act::WriteLock(p) => put(w, p, Node::File),
        Act::DeleteLock(p) => put(w, p, Node::Absent),
    }
}

/// The disk after an action. One that the disk does not let happen fails and
/// changes nothing.
pub open spec fn step(w: Space, a: Act) -> Space {
    if enabled(w, a) {
        effect(w, a)
    } else {
        w
    }
}

/// The disk after a list of actions, carried out in order.
pub open spec fn run(w: Space, plan: Seq<Act>) -> Space
    decreases plan.len(),
{
    if plan.len() == 0 {
        w
    } else {
        step(run(w, plan.drop_last()), plan.last())
    }
}

/// Every action of the plan can happen when its turn comes.
pub open spec fn runs_clean(w: Space, plan: Seq<Act>) -> bool
    decreases plan.len(),
{
    if plan.len() == 0 {
        true
    } else {
        runs_clean(w, plan.drop_last()) && enabled(run(w, plan.drop_last()), plan.last())
    }
}

/// Carrying out a plan and one more action is carrying out the plan, then the
/// action.
pub proof fn lemma_run_push(w: Space, plan: Seq<Act>, a: Act)
    ensures
        run(w, plan.push(a)) == step(run(w, plan), a),
        runs_clean(w, plan.push(a)) == (runs_clean(w, plan) && enabled(run(w, plan), a)),
{
    assert(plan.push(a).drop_last() =~= plan);
}

/// The error that the failure of an action stands for.
pub open spec fn failure(a: Act) -> EngineError {
    match a {
        Act::CreateLink(_, _) => EngineError::LinkCreationError,
        _ => EngineError::IoError,
    }
}

/// Names the error to report when the platform could not carry out `action`.
pub fn failure_of(action: &Action) -> (e: EngineError)
    ensures
        e == failure(action@),
{
    match action {
        Action::CreateLink { .. } => EngineError::LinkCreationError,
        _ => EngineError::IoError,
    }
}

/// An action that the platform could not carry out, and the error it stands
/// for.
#[derive(Debug)]
pub struct Failure {
    /// The place of the action in its plan.
    pub index: usize,
    pub error: EngineError,
}

/// The failures among the first `n` actions: one for each action whose flag is
/// unset, in order.
pub open spec fn failures_upto(plan: Seq<Act>, done: Seq<bool>, n: int) -> Seq<(int, EngineError)>
    decreases n,
{
    if n <= 0 {
        Seq::empty()
    } else if n - 1 < done.len() && done[n - 1] {
        failures_upto(plan, done, n - 1)
    } else {
        failures_upto(plan, done, n - 1).push((n - 1, failure(plan[n - 1])))
    }
}

/// The failures of a list as plain values.
pub open spec fn failure_views(s: Seq<Failure>) -> Seq<(int, EngineError)> {
    Seq::new(s.len(), |i: int| (s[i].index as int, s[i].error))
}

/// Reports a plan that was carried out to its end whatever failed on the way:
/// `done` holds one flag per action, set where the action succeeded. An action
/// without a flag counts as failed.
pub fn report_failures(actions: &Vec<Action>, done: &Vec<bool>) -> (out: Vec<Failure>)
    ensures
        failure_views(out@) == failures_upto(acts(actions@), done@, actions@.len() as int),
{
    let mut out: Vec<Failure> = Vec::new();
    let mut i: usize = 0;
    proof {
        assert(failure_views(out@) =~= failures_upto(acts(actions@), done@, 0));
    }
    while i < actions.len()
        invariant
            i <= actions@.len(),
            failure_views(out@) == failures_upto(acts(actions@), done@, i as int),
        decreases actions@.len() - i,
    {
        let ok = i < done.len() && done[i];
        if !ok {
            let ghost before = failure_views(out@);
            out.push(Failure { index: i, error: failure_of(&actions[i]) });
            proof {
                assert(failure_views(out@) =~= before.push(
                    (i as int, failure(acts(actions@)[i as int])),
                ));
            }
        }
        i += 1;
    }
    out
}

/// One observation: what stands at a path.
#[derive(Debug)]
pub struct Slot {
    pub path: String,
    pub kind: Kind,
}

/// The disk that the first `n` observations describe; a later observation of a
/// path replaces an earlier one.
pub open spec fn space_upto(slots: Seq<Slot>, n: int) -> Space
    decreases n,
{
    if n <= 0 {
        Map::empty()
    } else {
        put(space_upto(slots, n - 1), slots[n - 1].path@, slots[n - 1].kind@)
    }
}

proof fn lemma_space_prefix(a: Seq<Slot>, b: Seq<Slot>, n: int)
    requires
        0 <= n <= a.len(),
        n <= b.len(),
        forall|i: int| 0 <= i < n ==> a[i] == b[i],
    ensures
        space_upto(a, n) == space_upto(b, n),
    decreases n,
{
    if n > 0 {
        lemma_space_prefix(a, b, n - 1);
    }
}

proof fn lemma_space_last(slots: Seq<Slot>, n: int, k: int)
    requires
        0 <= k < n <= slots.len(),
        forall|j: int| k < j < n ==> (#[trigger] slots[j]).path@ != slots[k].path@,
    ensures
        at(space_upto(slots, n), slots[k].path@) == slots[k].kind@,
    decreases n,
{
    if n - 1 > k {
        lemma_space_last(slots, n - 1, k);
        assert(slots[n - 1].path@ != slots[k].path@);
    }
}

proof fn lemma_space_absent(slots: Seq<Slot>, n: int, p: Seq<char>)
    requires
        0 <= n <= slots.len(),
        forall|j: int| 0 <= j < n ==> (#[trigger] slots[j]).path@ != p,
    ensures
        at(space_upto(slots, n), p) is Absent,
    decreases n,
{
    if n > 0 {
        lemma_space_absent(slots, n - 1, p);
        assert(slots[n - 1].path@ != p);
    }
}

proof fn lemma_space_finite(slots: Seq<Slot>, n: int)
    requires
        0 <= n <= slots.len(),
    ensures
        space_upto(slots, n).dom().finite(),
    decreases n,
{
    broadcast use vstd::set::group_set_axioms;
    broadcast use vstd::map::group_map_axioms;

    if n > 0 {
        lemma_space_finite(slots, n - 1);
    }
}

/// An observed or simulated disk.
#[derive(Debug)]
pub struct World {
    slots: Vec<Slot>,
}

impl View for World {
    type V = Space;

    closed spec fn view(&self) -> Space {
        space_upto(self.slots@, self.slots@.len() as int)
    }
}

impl World {
    /// A disk holds finitely many things.
    pub proof fn lemma_finite(self)
        ensures
            self@.dom().finite(),
    {
        lemma_space_finite(self.slots@, self.slots@.len() as int);
    }

    /// A disk on which nothing has been observed: every path is absent.
    pub fn new() -> (w: World)
        ensures
            forall|p: Seq<char>| at(w@, p) is Absent,
            w@ == Map::<Seq<char>, Node>::empty(),
    {
        World { slots: Vec::new() }
    }

    /// Records that `kind` stands at `path`.
    pub fn set(&mut self, path: &str, kind: Kind)
        ensures
            final(self)@ == put(old(self)@, path@, kind@),
    {
        let ghost before = self.slots@;
        self.slots.push(Slot { path: String::from_str(path), kind });
        proof {
            lemma_space_prefix(before, self.slots@, before.len() as int);
        }
    }

    /// What stands at `path`.
    pub fn kind(&self, path: &str) -> (k: Kind)
        ensures
            k@ == at(self@, path@),
    {
        let key = String::from_str(path);
        let mut i: usize = self.slots.len();
        while i > 0
            invariant
                i <= self.slots@.len(),
                key@ == path@,
                forall|j: int| i <= j < self.slots@.len() ==> (#[trigger] self.slots@[j]).path@ != path@,
            decreases i,
        {
            i -= 1;
            if self.slots[i].path == key {
                proof {
                    lemma_space_last(self.slots@, self.slots@.len() as int, i as int);
                }
                return self.slots[i].kind.duplicate();
            }
        }
        proof {
            lemma_space_absent(self.slots@, self.slots@.len() as int, path@);
        }
        Kind::Absent
    }

    /// Paths among which every path that holds something is found.
    pub(crate) fn paths(&self) -> (out: Vec<String>)
        ensures
            forall|p: Seq<char>|
                !(at(self@, p) is Absent) ==> exists|k: int|
                    0 <= k < out@.len() && (#[trigger] out@[k])@ == p,
    {
        let mut out: Vec<String> = Vec::new();
        let mut i: usize = 0;
        while i < self.slots.len()
            invariant
                i <= self.slots@.len(),
                out@.len() == i,
                forall|j: int| 0 <= j < i ==> (#[trigger] out@[j])@ == self.slots@[j].path@,
            decreases self.slots@.len() - i,
        {
            out.push(self.slots[i].path.clone());
            i += 1;
        }
        proof {
            assert forall|p: Seq<char>| !(at(self@, p) is Absent) implies exists|k: int|
                0 <= k < out@.len() && (#[trigger] out@[k])@ == p by {
                if forall|j: int|
                    0 <= j < self.slots@.len() ==> (#[trigger] self.slots@[j]).path@ != p {
                    lemma_space_absent(self.slots@, self.slots@.len() as int, p);
                }
                let j = choose|j: int|
                    0 <= j < self.slots@.len() && (#[trigger] self.slots@[j]).path@ == p;
                assert(out@[j]@ == p);
            }
        }
        out
    }

    /// A copy of this disk.
    pub fn duplicate(&self) -> (w: World)
        ensures
            w@ == self@,
    {
        let mut slots: Vec<Slot> = Vec::new();
        let mut i: usize = 0;
        while i < self.slots.len()
            invariant
                i <= self.slots@.len(),
                slots@.len() == i,
                space_upto(slots@, i as int) == space_upto(self.slots@, i as int),
            decreases self.slots@.len() - i,
        {
            let ghost before = slots@;
            slots.push(Slot { path: self.slots[i].path.clone(), kind: self.slots[i].kind.duplicate() });
            proof {
                lemma_space_prefix(before, slots@, i as int);
            }
            i += 1;
        }
        World { slots }
    }

    /// Whether the disk lets `action` happen.
    pub fn allows(&self, action: &Action) -> (ok: bool)
        ensures
            ok == enabled(self@, action@),
    {
        match action {
            Action::CreateDir { path } => {
                let k = self.kind(path.as_str());
                matches!(k, Kind::Absent) || matches!(k, Kind::Dir { .. })
            },
            Action::CreateLink { link, .. } => matches!(self.kind(link.as_str()), Kind::Absent),
            Action::RemoveLink { link } => matches!(self.kind(link.as_str()), Kind::Link { .. }),
            Action::MoveDir { from, to } => matches!(self.kind(from.as_str()), Kind::Dir { .. })
                && matches!(self.kind(to.as_str()), Kind::Absent),
            Action::WriteLock { path } => {
                let k = self.kind(path.as_str());
                matches!(k, Kind::Absent) || matches!(k, Kind::File)
            },
            Action::DeleteLock { path } => matches!(self.kind(path.as_str()), Kind::File),
        }
    }

    /// Carries out `action` on this disk and tells whether it could happen.
    /// One that could not leaves the disk as it was.
    pub fn carry_out(&mut self, action: &Action) -> (ok: bool)
        ensures
            ok == enabled(old(self)@, action@),
            final(self)@ == step(old(self)@, action@),
    {
        if !self.allows(action) {
            return false;
        }
        match action {
            Action::CreateDir { path } => {
                if matches!(self.kind(path.as_str()), Kind::Absent) {
                    self.set(path.as_str(), Kind::Dir { id: 0 });
                }
            },
            Action::CreateLink { link, target } => {
                self.set(link.as_str(), Kind::Link { target: target.clone() });
            },
            Action::RemoveLink { link } => {
                self.set(link.as_str(), Kind::Absent);
            },
            Action::MoveDir { from, to } => {
                let moved = self.kind(from.as_str());
                self.set(to.as_str(), moved);
                self.set(from.as_str(), Kind::Absent);
            },
            Action::WriteLock { path } => {
                self.set(path.as_str(), Kind::File);
            },
            Action::DeleteLock { path } => {
                self.set(path.as_str(), Kind::Absent);
            },
        }
        true
    }
}

} // verus!
