//! Moving the real directory behind a link to another place, keeping the link
//! where it is, and moving it back.

use vstd::prelude::*;
use crate::error::EngineError;
use crate::paths::{eq_ignore_case, join, joined, leaf_name, leaf_of, same_ignoring_case};
use crate::world::{acts, at, lemma_run_push, run, runs_clean, Act, Action, Kind, Node, Space, World};

verus! {

/// Where the relocated directory of one logical identifier lives.
#[derive(Debug)]
pub struct Override {
    pub id: String,
    pub path: String,
}

/// The overrides that the first `n` entries describe; a later entry for an
/// identifier replaces an earlier one.
pub open spec fn table_upto(entries: Seq<Override>, n: int) -> Map<Seq<char>, Seq<char>>
    decreases n,
{
    if n <= 0 {
        Map::empty()
    } else {
        table_upto(entries, n - 1).insert(entries[n - 1].id@, entries[n - 1].path@)
    }
}

proof fn lemma_table_prefix(a: Seq<Override>, b: Seq<Override>, n: int)
    requires
        0 <= n <= a.len(),
        n <= b.len(),
        forall|i: int| 0 <= i < n ==> a[i] == b[i],
    ensures
        table_upto(a, n) == table_upto(b, n),
    decreases n,
{
    if n > 0 {
        lemma_table_prefix(a, b, n - 1);
    }
}

proof fn lemma_table_last(entries: Seq<Override>, n: int, k: int)
    requires
        0 <= k < n <= entries.len(),
        forall|j: int| k < j < n ==> (#[trigger] entries[j]).id@ != entries[k].id@,
    ensures
        table_upto(entries, n).contains_key(entries[k].id@),
        table_upto(entries, n)[entries[k].id@] == entries[k].path@,
    decreases n,
{
    if n - 1 > k {
        lemma_table_last(entries, n - 1, k);
        assert(entries[n - 1].id@ != entries[k].id@);
    }
}

proof fn lemma_table_absent(entries: Seq<Override>, n: int, id: Seq<char>)
    requires
        0 <= n <= entries.len(),
        forall|j: int| 0 <= j < n ==> (#[trigger] entries[j]).id@ != id,
    ensures
        !table_upto(entries, n).contains_key(id),
    decreases n,
{
    if n > 0 {
        lemma_table_absent(entries, n - 1, id);
        assert(entries[n - 1].id@ != id);
    }
}

/// The override store: for each logical identifier that was relocated, the
/// absolute path of its real directory.
#[derive(Debug)]
pub struct Overrides {
    entries: Vec<Override>,
}

impl View for Overrides {
    type V = Map<Seq<char>, Seq<char>>;

    closed spec fn view(&self) -> Map<Seq<char>, Seq<char>> {
        table_upto(self.entries@, self.entries@.len() as int)
    }
}

impl Overrides {
    /// A store without entries.
    pub fn new() -> (s: Overrides)
        ensures
            s@ == Map::<Seq<char>, Seq<char>>::empty(),
    {
        Overrides { entries: Vec::new() }
    }

    /// The store that a list of entries describes.
    pub fn from_entries(entries: Vec<Override>) -> (s: Overrides)
        ensures
            s@ == table_upto(entries@, entries@.len() as int),
    {
        Overrides { entries }
    }

    /// The entries of the store.
    pub fn entries(&self) -> (out: &Vec<Override>)
        ensures
            table_upto(out@, out@.len() as int) == self@,
    {
        &self.entries
    }

    /// A copy of the store.
    pub fn duplicate(&self) -> (out: Overrides)
        ensures
            out@ == self@,
    {
        let mut entries: Vec<Override> = Vec::new();
        let mut i: usize = 0;
        while i < self.entries.len()
            invariant
                i <= self.entries@.len(),
                entries@.len() == i,
                table_upto(entries@, i as int) == table_upto(self.entries@, i as int),
            decreases self.entries@.len() - i,
        {
            let ghost before = entries@;
            let e = &self.entries[i];
            entries.push(Override { id: e.id.clone(), path: e.path.clone() });
            proof {
                lemma_table_prefix(before, entries@, i as int);
            }
            i += 1;
        }
        Overrides { entries }
    }

    /// The path stored for `id`.
    pub fn get(&self, id: &str) -> (out: Option<String>)
        ensures
            match out {
                Some(p) => self@.contains_key(id@) && self@[id@] == p@,
                None => !self@.contains_key(id@),
            },
    {
        let key = String::from_str(id);
        let mut i: usize = self.entries.len();
        while i > 0
            invariant
                i <= self.entries@.len(),
                key@ == id@,
                forall|j: int|
                    i <= j < self.entries@.len() ==> (#[trigger] self.entries@[j]).id@ != id@,
            decreases i,
        {
            i -= 1;
            if self.entries[i].id == key {
                proof {
                    lemma_table_last(self.entries@, self.entries@.len() as int, i as int);
                }
                return Some(self.entries[i].path.clone());
            }
        }
        proof {
            lemma_table_absent(self.entries@, self.entries@.len() as int, id@);
        }
        None
    }

    /// The store without an entry for `id`.
    pub fn without(&self, id: &str) -> (out: Overrides)
        ensures
            out@ == self@.remove(id@),
    {
        let key = String::from_str(id);
        let mut kept: Vec<Override> = Vec::new();
        let mut i: usize = 0;
        proof {
            assert(table_upto(kept@, 0) =~= table_upto(self.entries@, 0).remove(id@));
        }
        while i < self.entries.len()
            invariant
                i <= self.entries@.len(),
                key@ == id@,
                table_upto(kept@, kept@.len() as int) == table_upto(self.entries@, i as int).remove(
                    id@,
                ),
            decreases self.entries@.len() - i,
        {
            let e = &self.entries[i];
            let ghost before = kept@;
            if e.id == key {
                proof {
                    assert(table_upto(self.entries@, i + 1).remove(id@) =~= table_upto(
                        self.entries@,
                        i as int,
                    ).remove(id@));
                }
            } else {
                kept.push(Override { id: e.id.clone(), path: e.path.clone() });
                proof {
                    lemma_table_prefix(before, kept@, before.len() as int);
                    assert(table_upto(kept@, kept@.len() as int) =~= table_upto(
                        self.entries@,
                        i + 1,
                    ).remove(id@));
                }
            }
            i += 1;
        }
        Overrides { entries: kept }
    }

    /// The store with `path` stored for `id`.
    pub fn with(&self, id: &str, path: &str) -> (out: Overrides)
        ensures
            out@ == self@.insert(id@, path@),
    {
        let mut out = self.without(id);
        let ghost before = out.entries@;
        out.entries.push(Override { id: String::from_str(id), path: String::from_str(path) });
        proof {
            lemma_table_prefix(before, out.entries@, before.len() as int);
            assert(out@ =~= self@.insert(id@, path@));
        }
        out
    }
}

/// Where the directory of `id` is seen: below the workshop root, under its own
/// name.
pub open spec fn location(root: Seq<char>, id: Seq<char>) -> Seq<char> {
    joined(root, id)
}

/// Where the directory is to live: the chosen directory itself where its last
/// component already is the identifier, else a directory of that name in it.
pub open spec fn destination(dest_dir: Seq<char>, id: Seq<char>) -> Seq<char> {
    if same_ignoring_case(leaf_of(dest_dir), id) {
        dest_dir
    } else {
        joined(dest_dir, id)
    }
}

/// The visible location of the directory of `logical_id`.
pub fn location_of(workshop_root: &str, logical_id: &str) -> (out: String)
    ensures
        out@ == location(workshop_root@, logical_id@),
{
    join(workshop_root, logical_id)
}

/// The place that a relocation to `dest_dir` moves the directory to.
pub fn destination_of(dest_dir: &str, logical_id: &str) -> (out: String)
    ensures
        out@ == destination(dest_dir@, logical_id@),
{
    let leaf = leaf_name(dest_dir);
    if eq_ignore_case(leaf.as_str(), logical_id) {
        String::from_str(dest_dir)
    } else {
        join(dest_dir, logical_id)
    }
}

/// Where the real directory is now: behind the link at `loc`, or at `loc`
/// itself where no link stands there.
pub open spec fn real_place(w: Space, loc: Seq<char>) -> Seq<char> {
    match at(w, loc) {
        Node::Link(t) => t,
        _ => loc,
    }
}

/// The actions of a relocation from `from` to `to`, seen at `loc`.
pub open spec fn relocate_steps(w: Space, loc: Seq<char>, from: Seq<char>, to: Seq<char>) -> Seq<Act> {
    if at(w, loc) is Link {
        seq![Act::MoveDir(from, to), Act::RemoveLink(loc), Act::CreateLink(loc, to)]
    } else {
        seq![Act::MoveDir(from, to), Act::CreateLink(loc, to)]
    }
}

/// What a relocation or a restoration is going to do.
#[derive(Debug)]
pub struct RelocatePlan {
    /// The actions, in order; none where the directory already is in place.
    pub actions: Vec<Action>,
    /// The override store to persist once the actions succeeded.
    pub overrides: Overrides,
}

/// How a relocation is decided.
pub enum Relocation {
    /// The directory already lives at the destination.
    InPlace,
    /// The destination is occupied.
    Occupied,
    /// There is no real directory to move.
    Missing,
    /// The directory moves.
    Moves,
}

/// The decision for a relocation.
pub open spec fn relocation(w: Space, loc: Seq<char>, to: Seq<char>) -> Relocation {
    let from = real_place(w, loc);
    if same_ignoring_case(from, to) {
        Relocation::InPlace
    } else if !(at(w, to) is Absent) {
        Relocation::Occupied
    } else if !(at(w, from) is Dir) {
        Relocation::Missing
    } else {
        Relocation::Moves
    }
}

/// Plans the move of the real directory of `logical_id` to `dest_dir`, with the
/// link below the workshop root following it.
///
/// Nothing is planned where the directory already lives at the destination.
/// An occupied destination is refused, and so is a directory that is not
/// there. Else the directory moves, whatever stands at its visible location
/// goes, a link to the destination takes its place, and the override store
/// learns the destination.
pub fn relocate(
    world: &World,
    overrides: &Overrides,
    workshop_root: &str,
    logical_id: &str,
    dest_dir: &str,
) -> (out: Result<RelocatePlan, EngineError>)
    ensures
        ({
            let loc = location(workshop_root@, logical_id@);
            let to = destination(dest_dir@, logical_id@);
            let from = real_place(world@, loc);
            match relocation(world@, loc, to) {
                Relocation::InPlace => out is Ok && acts(out.unwrap().actions@) == Seq::<Act>::empty()
                    && out.unwrap().overrides@ == overrides@,
                Relocation::Occupied => out == Err::<RelocatePlan, EngineError>(
                    EngineError::AlreadyExists,
                ),
                Relocation::Missing => out == Err::<RelocatePlan, EngineError>(
                    EngineError::NotFound,
                ),
                Relocation::Moves => out is Ok && acts(out.unwrap().actions@) == relocate_steps(
                    world@,
                    loc,
                    from,
                    to,
                ) && out.unwrap().overrides@ == overrides@.insert(logical_id@, to),
            }
        }),
{
    let loc = location_of(workshop_root, logical_id);
    let to = destination_of(dest_dir, logical_id);
    let seen = world.kind(loc.as_str());
    let linked = matches!(seen, Kind::Link { .. });
    let from = match seen {
        Kind::Link { target } => target,
        _ => loc.clone(),
    };
    let mut actions: Vec<Action> = Vec::new();
    if eq_ignore_case(from.as_str(), to.as_str()) {
        proof {
            assert(acts(actions@) =~= Seq::<Act>::empty());
        }
        return Ok(RelocatePlan { actions, overrides: overrides.duplicate() });
    }
    if !matches!(world.kind(to.as_str()), Kind::Absent) {
        return Err(EngineError::AlreadyExists);
    }
    if !matches!(world.kind(from.as_str()), Kind::Dir { .. }) {
        return Err(EngineError::NotFound);
    }
    actions.push(Action::MoveDir { from: from.clone(), to: to.clone() });
    if linked {
        actions.push(Action::RemoveLink { link: loc.clone() });
    }
    actions.push(Action::CreateLink { link: loc.clone(), target: to.clone() });
    proof {
        assert(acts(actions@) =~= relocate_steps(world@, loc@, from@, to@));
    }
    Ok(RelocatePlan { actions, overrides: overrides.with(logical_id, to.as_str()) })
}

/// Where the real directory is found for a restoration: behind the link at
/// `loc`, else where the override store says.
pub open spec fn recorded_place(
    w: Space,
    overrides: Map<Seq<char>, Seq<char>>,
    loc: Seq<char>,
    id: Seq<char>,
) -> Option<Seq<char>> {
    match at(w, loc) {
        Node::Link(t) => Some(t),
        _ => if overrides.contains_key(id) {
            Some(overrides[id])
        } else {
            None
        },
    }
}

/// How a restoration is decided.
pub enum Restoration {
    /// Something other than the link stands at the original location.
    Occupied,
    /// The real directory is found neither behind a link nor through the
    /// override store, or it is not there.
    Missing,
    /// The directory at this path moves back.
    Returns(Seq<char>),
}

/// The decision for a restoration.
pub open spec fn restoration(
    w: Space,
    overrides: Map<Seq<char>, Seq<char>>,
    loc: Seq<char>,
    id: Seq<char>,
) -> Restoration {
    if !(at(w, loc) is Link) && !(at(w, loc) is Absent) {
        Restoration::Occupied
    } else {
        match recorded_place(w, overrides, loc, id) {
            None => Restoration::Missing,
            Some(home) => if at(w, home) is Dir {
                Restoration::Returns(home)
            } else {
                Restoration::Missing
            },
        }
    }
}

/// The actions of a restoration of the directory at `real` to `loc`.
pub open spec fn restore_steps(w: Space, loc: Seq<char>, home: Seq<char>) -> Seq<Act> {
    if at(w, loc) is Link {
        seq![Act::RemoveLink(loc), Act::MoveDir(home, loc)]
    } else {
        seq![Act::MoveDir(home, loc)]
    }
}

/// Plans the return of the real directory of `logical_id` to its original
/// location below the workshop root.
///
/// The directory is looked for behind the link, else in the override store. An
/// original location that holds anything but the link is refused, and so is a
/// directory that cannot be found. Else the link goes, the directory moves
/// back, and the override store forgets the identifier.
pub fn restore(world: &World, overrides: &Overrides, workshop_root: &str, logical_id: &str) -> (out:
    Result<RelocatePlan, EngineError>)
    ensures
        ({
            let loc = location(workshop_root@, logical_id@);
            match restoration(world@, overrides@, loc, logical_id@) {
                Restoration::Occupied => out == Err::<RelocatePlan, EngineError>(
                    EngineError::AlreadyExists,
                ),
                Restoration::Missing => out == Err::<RelocatePlan, EngineError>(
                    EngineError::NotFound,
                ),
                Restoration::Returns(home) => out is Ok && acts(out.unwrap().actions@)
                    == restore_steps(world@, loc, home) && out.unwrap().overrides@
                    == overrides@.remove(logical_id@),
            }
        }),
{
    let loc = location_of(workshop_root, logical_id);
    let seen = world.kind(loc.as_str());
    let linked = matches!(seen, Kind::Link { .. });
    if !linked && !matches!(seen, Kind::Absent) {
        return Err(EngineError::AlreadyExists);
    }
    let found = match seen {
        Kind::Link { target } => Some(target),
        _ => overrides.get(logical_id),
    };
    let home = match found {
        Some(r) => r,
        None => {
            return Err(EngineError::NotFound);
        },
    };
    if !matches!(world.kind(home.as_str()), Kind::Dir { .. }) {
        return Err(EngineError::NotFound);
    }
    let mut actions: Vec<Action> = Vec::new();
    if linked {
        actions.push(Action::RemoveLink { link: loc.clone() });
    }
    actions.push(Action::MoveDir { from: home.clone(), to: loc.clone() });
    proof {
        assert(acts(actions@) =~= restore_steps(world@, loc@, home@));
    }
    Ok(RelocatePlan { actions, overrides: overrides.without(logical_id) })
}

/// Whether the copy that stands in for a failed rename went well: the copy
/// tool reports its lesser findings, such as extra or skipped files, in exit
/// codes below 8.
pub fn fallback_succeeded(exit_code: i32) -> (ok: bool)
    ensures
        ok == (0 <= exit_code < 8),
{
    0 <= exit_code && exit_code < 8
}

/// A relocation that is planned can be carried out, and leaves a link to the
/// destination at the visible location, the directory at the destination, and
/// every other path as it was.
pub proof fn law_relocate_effect(w: Space, loc: Seq<char>, to: Seq<char>, p: Seq<char>)
    requires
        relocation(w, loc, to) is Moves,
    ensures
        ({
            let from = real_place(w, loc);
            let plan = relocate_steps(w, loc, from, to);
            let after = run(w, plan);
            &&& runs_clean(w, plan)
            &&& at(after, loc) == Node::Link(to)
            &&& at(after, to) == at(w, from)
            &&& from != loc ==> at(after, from) is Absent
            &&& p != loc && p != from && p != to ==> at(after, p) == at(w, p)
        }),
{
    let from = real_place(w, loc);
    let none = Seq::<Act>::empty();
    let a1 = Act::MoveDir(from, to);
    let a2 = Act::RemoveLink(loc);
    let a3 = Act::CreateLink(loc, to);
    lemma_run_push(w, none, a1);
    if at(w, loc) is Link {
        lemma_run_push(w, none.push(a1), a2);
        lemma_run_push(w, none.push(a1).push(a2), a3);
        assert(relocate_steps(w, loc, from, to) =~= none.push(a1).push(a2).push(a3));
    } else {
        lemma_run_push(w, none.push(a1), a3);
        assert(relocate_steps(w, loc, from, to) =~= none.push(a1).push(a3));
    }
}

/// A restoration that is planned can be carried out, and leaves the directory
/// at its original location, nothing where it was, and every other path as it
/// was.
pub proof fn law_restore_effect(
    w: Space,
    overrides: Map<Seq<char>, Seq<char>>,
    loc: Seq<char>,
    id: Seq<char>,
    home: Seq<char>,
    p: Seq<char>,
)
    requires
        restoration(w, overrides, loc, id) == Restoration::Returns(home),
    ensures
        ({
            let plan = restore_steps(w, loc, home);
            let after = run(w, plan);
            &&& runs_clean(w, plan)
            &&& at(after, loc) == at(w, home)
            &&& at(after, home) is Absent
            &&& p != loc && p != home ==> at(after, p) == at(w, p)
        }),
{
    let none = Seq::<Act>::empty();
    let u1 = Act::RemoveLink(loc);
    let u2 = Act::MoveDir(home, loc);
    if at(w, loc) is Link {
        lemma_run_push(w, none, u1);
        lemma_run_push(w, none.push(u1), u2);
        assert(restore_steps(w, loc, home) =~= none.push(u1).push(u2));
    } else {
        lemma_run_push(w, none, u2);
        assert(restore_steps(w, loc, home) =~= none.push(u2));
    }
}

/// Relocating a directory from its original location and restoring it leaves
/// the disk and the override store as they were, but for an override that the
/// store held for the identifier beforehand.
pub proof fn law_restore_undoes_relocate(
    w: Space,
    overrides: Map<Seq<char>, Seq<char>>,
    loc: Seq<char>,
    id: Seq<char>,
    to: Seq<char>,
    p: Seq<char>,
)
    requires
        relocation(w, loc, to) is Moves,
        at(w, loc) is Dir,
    ensures
        ({
            let moved = run(w, relocate_steps(w, loc, loc, to));
            let stored = overrides.insert(id, to);
            &&& restoration(moved, stored, loc, id) == Restoration::Returns(to)
            &&& at(run(moved, restore_steps(moved, loc, to)), p) == at(w, p)
            &&& stored.remove(id) == overrides.remove(id)
        }),
{
    let none = Seq::<Act>::empty();
    let a1 = Act::MoveDir(loc, to);
    let a3 = Act::CreateLink(loc, to);
    lemma_run_push(w, none, a1);
    lemma_run_push(w, none.push(a1), a3);
    assert(relocate_steps(w, loc, loc, to) =~= none.push(a1).push(a3));
    let moved = run(w, relocate_steps(w, loc, loc, to));
    let u1 = Act::RemoveLink(loc);
    let u2 = Act::MoveDir(to, loc);
    lemma_run_push(moved, none, u1);
    lemma_run_push(moved, none.push(u1), u2);
    assert(restore_steps(moved, loc, to) =~= none.push(u1).push(u2));
    assert(overrides.insert(id, to).remove(id) =~= overrides.remove(id));
}

} // verus!
