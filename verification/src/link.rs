//! Directory links with a way back: putting a link in the place of a
//! directory, keeping what was there, and undoing it from the record.

use vstd::prelude::*;
use crate::paths::{decimal, decimal_string, join, joined, parent_dir, parent_of, texts};
use crate::world::{
    acts, at, lemma_run_push, run, runs_clean, Act, Action, Kind, Space, World,
};

verus! {

/// Where the lock file of the mount point `dest` is kept: beside it, in its
/// parent directory.
pub open spec fn lock_beside(dest: Seq<char>) -> Seq<char> {
    joined(parent_of(dest), "links.lock.json"@)
}

/// The path of the lock file for the mount point `dest`.
pub fn lock_path(dest: &str) -> (out: String)
    ensures
        out@ == lock_beside(dest@),
{
    let parent = parent_dir(dest);
    join(parent.as_str(), "links.lock.json")
}

/// The first name tried for the backup of `dest`: the path, then `.backup-` and
/// the stamp in decimal.
pub open spec fn backup_base(dest: Seq<char>, stamp: u64) -> Seq<char> {
    dest + ".backup-"@ + decimal(stamp as nat)
}

/// The `k`-th name tried for the backup of `dest`: the first with `k` tildes
/// behind it.
pub open spec fn candidate(dest: Seq<char>, stamp: u64, k: nat) -> Seq<char> {
    backup_base(dest, stamp) + Seq::new(k, |i: int| '~')
}

/// A path that can take a backup: nothing stands there, and it is not the
/// place of the lock file.
pub open spec fn free(w: Space, lock: Seq<char>, p: Seq<char>) -> bool {
    at(w, p) is Absent && p != lock
}

/// `k` is the first candidate that is free.
pub open spec fn first_free(w: Space, lock: Seq<char>, dest: Seq<char>, stamp: u64, k: nat) -> bool {
    free(w, lock, candidate(dest, stamp, k)) && forall|j: nat|
        j < k ==> !free(w, lock, #[trigger] candidate(dest, stamp, j))
}

/// The backup path for `dest`: the first candidate that is free.
pub open spec fn backup_name(w: Space, lock: Seq<char>, dest: Seq<char>, stamp: u64) -> Seq<char> {
    candidate(dest, stamp, choose|k: nat| first_free(w, lock, dest, stamp, k))
}

/// The first `n` candidates as a set.
pub open spec fn tried(dest: Seq<char>, stamp: u64, n: nat) -> Set<Seq<char>>
    decreases n,
{
    if n == 0 {
        Set::empty()
    } else {
        tried(dest, stamp, (n - 1) as nat).insert(candidate(dest, stamp, (n - 1) as nat))
    }
}

/// The first `n` candidates are `n` different paths.
proof fn lemma_tried(dest: Seq<char>, stamp: u64, n: nat)
    ensures
        tried(dest, stamp, n).finite(),
        tried(dest, stamp, n).len() == n,
        forall|p: Seq<char>| #[trigger]
            tried(dest, stamp, n).contains(p) ==> p.len() < backup_base(dest, stamp).len() + n,
        forall|k: nat| k < n ==> tried(dest, stamp, n).contains(#[trigger] candidate(dest, stamp, k)),
    decreases n,
{
    broadcast use vstd::set::group_set_axioms;

    if n > 0 {
        let m = (n - 1) as nat;
        lemma_tried(dest, stamp, m);
        assert(candidate(dest, stamp, m).len() == backup_base(dest, stamp).len() + m);
        assert(!tried(dest, stamp, m).contains(candidate(dest, stamp, m)));
        assert forall|k: nat| k < n implies tried(dest, stamp, n).contains(
            #[trigger] candidate(dest, stamp, k),
        ) by {
            if k < m {
                assert(tried(dest, stamp, m).contains(candidate(dest, stamp, k)));
            }
        }
    }
}

/// Below a candidate that is free stands a first one that is.
proof fn lemma_least_free(w: Space, lock: Seq<char>, dest: Seq<char>, stamp: u64, k: nat)
    requires
        free(w, lock, candidate(dest, stamp, k)),
    ensures
        exists|j: nat| first_free(w, lock, dest, stamp, j),
    decreases k,
{
    if exists|j: nat| j < k && free(w, lock, #[trigger] candidate(dest, stamp, j)) {
        let j = choose|j: nat| j < k && free(w, lock, #[trigger] candidate(dest, stamp, j));
        lemma_least_free(w, lock, dest, stamp, j);
    } else {
        assert(first_free(w, lock, dest, stamp, k));
    }
}

/// On a disk that holds finitely many things a backup path can always be
/// found: the backup name is free.
pub proof fn lemma_backup_name_is_free(w: Space, lock: Seq<char>, dest: Seq<char>, stamp: u64)
    requires
        w.dom().finite(),
    ensures
        free(w, lock, backup_name(w, lock, dest, stamp)),
{
    broadcast use vstd::set::group_set_axioms;

    let held = w.dom().insert(lock);
    let n = (held.len() + 1) as nat;
    lemma_tried(dest, stamp, n);
    if forall|k: nat| k < n ==> !free(w, lock, #[trigger] candidate(dest, stamp, k)) {
        assert forall|p: Seq<char>| tried(dest, stamp, n).contains(p) implies held.contains(p) by {
            lemma_tried_member(dest, stamp, n, p);
            let k = choose|k: nat| k < n && p == candidate(dest, stamp, k);
            assert(!free(w, lock, candidate(dest, stamp, k)));
        }
        vstd::set_lib::lemma_len_subset(tried(dest, stamp, n), held);
        assert(false);
    }
    let k = choose|k: nat| k < n && free(w, lock, #[trigger] candidate(dest, stamp, k));
    lemma_least_free(w, lock, dest, stamp, k);
    let j = choose|j: nat| first_free(w, lock, dest, stamp, j);
    assert(first_free(w, lock, dest, stamp, j));
}

/// Every member of the first `n` candidates is one of them.
proof fn lemma_tried_member(dest: Seq<char>, stamp: u64, n: nat, p: Seq<char>)
    requires
        tried(dest, stamp, n).contains(p),
    ensures
        exists|k: nat| k < n && p == candidate(dest, stamp, k),
    decreases n,
{
    if n > 0 {
        let m = (n - 1) as nat;
        if p == candidate(dest, stamp, m) {
        } else {
            lemma_tried_member(dest, stamp, m, p);
            let k = choose|k: nat| k < m && p == candidate(dest, stamp, k);
            assert(k < n);
        }
    }
}

/// Generates the path to which the directory at `dest` is moved out of the
/// way. The name holds the time stamp and collides with nothing on the disk
/// nor with the lock file.
pub fn backup_path(world: &World, lock: &str, dest: &str, stamp: u64) -> (out: String)
    ensures
        out@ == backup_name(world@, lock@, dest@, stamp),
        free(world@, lock@, out@),
{
    let lock_key = String::from_str(lock);
    let mut pool = world.paths();
    let ghost seen = pool@;
    pool.push(lock_key.clone());
    let mut name = String::from_str(dest);
    name.append(".backup-");
    let digits = decimal_string(stamp);
    name.append(digits.as_str());
    let ghost mut k: nat = 0;
    proof {
        assert(name@ =~= candidate(dest@, stamp, 0));
        assert forall|p: Seq<char>| !free(world@, lock@, p) implies exists|i: int|
            0 <= i < pool@.len() && (#[trigger] pool@[i])@ == p by {
            if p == lock@ {
                assert(pool@[pool@.len() - 1]@ == p);
            } else {
                assert(!(at(world@, p) is Absent));
                let i = choose|i: int| 0 <= i < seen.len() && (#[trigger] seen[i])@ == p;
                assert(pool@[i] == seen[i]);
            }
        }
    }
    loop
        invariant
            lock_key@ == lock@,
            name@ == candidate(dest@, stamp, k),
            forall|j: nat| j < k ==> !free(world@, lock@, #[trigger] candidate(dest@, stamp, j)),
            forall|p: Seq<char>|
                !free(world@, lock@, p) ==> (exists|i: int|
                    0 <= i < pool@.len() && (#[trigger] pool@[i])@ == p) || (exists|j: nat|
                    j < k && p == #[trigger] candidate(dest@, stamp, j)),
        decreases pool@.len(),
    {
        let taken = !matches!(world.kind(name.as_str()), Kind::Absent) || name == lock_key;
        if !taken {
            proof {
                assert(first_free(world@, lock@, dest@, stamp, k));
                let c = choose|c: nat| first_free(world@, lock@, dest@, stamp, c);
                if c < k {
                    assert(!free(world@, lock@, candidate(dest@, stamp, c)));
                } else if k < c {
                    assert(!free(world@, lock@, candidate(dest@, stamp, k)));
                }
            }
            return name;
        }
        proof {
            assert(!free(world@, lock@, name@));
            if exists|j: nat| j < k && name@ == #[trigger] candidate(dest@, stamp, j) {
                let j = choose|j: nat| j < k && name@ == #[trigger] candidate(dest@, stamp, j);
                assert(candidate(dest@, stamp, j).len() != candidate(dest@, stamp, k).len());
            }
        }
        let mut i: usize = 0;
        while i < pool.len() && !(pool[i] == name)
            invariant
                i <= pool@.len(),
                forall|j: int| 0 <= j < i ==> (#[trigger] pool@[j])@ != name@,
                exists|j: int| 0 <= j < pool@.len() && (#[trigger] pool@[j])@ == name@,
            decreases pool@.len() - i,
        {
            i += 1;
        }
        let ghost before = pool@;
        let ghost gone = name@;
        pool.remove(i);
        name.push('~');
        proof {
            assert(name@ =~= candidate(dest@, stamp, k + 1));
            assert forall|p: Seq<char>| !free(world@, lock@, p) implies (exists|i: int|
                0 <= i < pool@.len() && (#[trigger] pool@[i])@ == p) || (exists|j: nat|
                j < k + 1 && p == #[trigger] candidate(dest@, stamp, j)) by {
                if p == gone {
                    assert(p == candidate(dest@, stamp, k));
                } else if exists|j: nat| j < k && p == #[trigger] candidate(dest@, stamp, j) {
                    let j = choose|j: nat| j < k && p == #[trigger] candidate(dest@, stamp, j);
                    assert(j < k + 1);
                } else {
                    let a = choose|a: int| 0 <= a < before.len() && (#[trigger] before[a])@ == p;
                    if a < i {
                        assert(pool@[a]@ == p);
                    } else {
                        assert(pool@[a - 1]@ == p);
                    }
                }
            }
            assert forall|j: nat| j < k + 1 implies !free(
                world@,
                lock@,
                #[trigger] candidate(dest@, stamp, j),
            ) by {
                if j == k {
                }
            }
            k = k + 1;
        }
    }
}

/// A directory that was moved out of the way, and where it went.
#[derive(Debug)]
pub struct BackupPair {
    pub original: String,
    pub backup: String,
}

/// The lock state: what linking has done and cleaning up has to undo.
#[derive(Debug)]
pub struct LinkRecord {
    /// The links that were created.
    pub links: Vec<String>,
    /// The directories that were moved out of the way.
    pub backups: Vec<BackupPair>,
}

/// A record as plain values.
pub struct RecordView {
    pub links: Seq<Seq<char>>,
    pub backups: Seq<(Seq<char>, Seq<char>)>,
}

/// The pairs of a list as plain values.
pub open spec fn pairs(s: Seq<BackupPair>) -> Seq<(Seq<char>, Seq<char>)> {
    Seq::new(s.len(), |i: int| (s[i].original@, s[i].backup@))
}

impl View for LinkRecord {
    type V = RecordView;

    open spec fn view(&self) -> RecordView {
        RecordView { links: texts(self.links@), backups: pairs(self.backups@) }
    }
}

/// The record that holds nothing.
pub open spec fn empty_record() -> RecordView {
    RecordView { links: Seq::empty(), backups: Seq::empty() }
}

impl LinkRecord {
    /// A record that holds nothing.
    pub fn new() -> (r: LinkRecord)
        ensures
            r@ == empty_record(),
    {
        let r = LinkRecord { links: Vec::new(), backups: Vec::new() };
        proof {
            assert(r@.links =~= Seq::<Seq<char>>::empty());
            assert(r@.backups =~= Seq::<(Seq<char>, Seq<char>)>::empty());
        }
        r
    }
}

/// The action that makes sure the target exists.
pub open spec fn prepared(w: Space, target: Seq<char>) -> Seq<Act> {
    if at(w, target) is Absent {
        seq![Act::CreateDir(target)]
    } else {
        Seq::empty()
    }
}

/// The disk once the target exists.
pub open spec fn readied(w: Space, target: Seq<char>) -> Space {
    run(w, prepared(w, target))
}

/// Whether linking moves a directory out of the way.
pub open spec fn takes_backup(w: Space, dest: Seq<char>, target: Seq<char>) -> bool {
    at(readied(w, target), dest) is Dir
}

/// Whether linking creates the link: nothing stands at `dest`, or a real
/// directory that is moved away first. A link or a file that stands there is
/// left as it is.
pub open spec fn creates_link(w: Space, dest: Seq<char>, target: Seq<char>) -> bool {
    at(readied(w, target), dest) is Absent || at(readied(w, target), dest) is Dir
}

/// The backup path that `link` picks on the disk `w`.
pub open spec fn picked_backup(
    w: Space,
    dest: Seq<char>,
    target: Seq<char>,
    stamp: u64,
    lock: Seq<char>,
) -> Seq<char> {
    backup_name(readied(w, target), lock, dest, stamp)
}

/// The actions of linking `dest` to `target`, with `b` as the backup path.
pub open spec fn link_steps(
    w: Space,
    dest: Seq<char>,
    target: Seq<char>,
    b: Seq<char>,
    lock: Seq<char>,
) -> Seq<Act> {
    let pre = prepared(w, target);
    let mid = if takes_backup(w, dest, target) {
        pre.push(Act::MoveDir(dest, b)).push(Act::CreateLink(dest, target))
    } else if creates_link(w, dest, target) {
        pre.push(Act::CreateLink(dest, target))
    } else {
        pre
    };
    mid.push(Act::WriteLock(lock))
}

/// The record after linking `dest` to `target`, with `b` as the backup path.
pub open spec fn link_record(
    w: Space,
    dest: Seq<char>,
    target: Seq<char>,
    b: Seq<char>,
    prior: RecordView,
) -> RecordView {
    if takes_backup(w, dest, target) {
        RecordView { links: prior.links.push(dest), backups: prior.backups.push((dest, b)) }
    } else if creates_link(w, dest, target) {
        RecordView { links: prior.links.push(dest), backups: prior.backups }
    } else {
        prior
    }
}

/// What linking is going to do.
#[derive(Debug)]
pub struct LinkPlan {
    /// The actions, in order.
    pub actions: Vec<Action>,
    /// The record to store in the lock file.
    pub record: LinkRecord,
    /// How many links the actions create.
    pub links_created: u64,
    /// How many directories the actions move out of the way.
    pub backups_taken: u64,
}

/// Plans the substitution of a directory link for `dest`.
///
/// The target is created where it is missing. A real directory at `dest` is
/// moved to a backup path that is free, and the pair is recorded. Where `dest`
/// is then vacant the link is created and recorded. A link or a file at `dest`
/// stays as it is and nothing is recorded for it. The record, `prior` and what
/// this call added, is written to the lock file last. Each action before that
/// last one can happen on the disk as observed.
pub fn link(world: &World, dest: &str, target: &str, stamp: u64, lock: &str, prior: LinkRecord) -> (plan:
    LinkPlan)
    ensures
        ({
            let ready = readied(world@, target@);
            let b = picked_backup(world@, dest@, target@, stamp, lock@);
            &&& acts(plan.actions@) == link_steps(world@, dest@, target@, b, lock@)
            &&& plan.record@ == link_record(world@, dest@, target@, b, prior@)
            &&& plan.links_created == (if creates_link(world@, dest@, target@) {
                1int
            } else {
                0int
            })
            &&& plan.backups_taken == (if takes_backup(world@, dest@, target@) {
                1int
            } else {
                0int
            })
            &&& takes_backup(world@, dest@, target@) ==> free(ready, lock@, b)
            &&& runs_clean(world@, acts(plan.actions@).drop_last())
        }),
{
    let mut actions: Vec<Action> = Vec::new();
    let mut record = prior;
    let mut cur = world.duplicate();
    let ghost pre = prepared(world@, target@);
    if matches!(world.kind(target), Kind::Absent) {
        let a = Action::CreateDir { path: String::from_str(target) };
        cur.carry_out(&a);
        actions.push(a);
        proof {
            lemma_run_push(world@, Seq::empty(), Act::CreateDir(target@));
            assert(pre =~= Seq::<Act>::empty().push(Act::CreateDir(target@)));
        }
    }
    proof {
        assert(acts(actions@) =~= pre);
        assert(cur@ == readied(world@, target@));
        assert(runs_clean(world@, pre));
    }
    let mut links_created: u64 = 0;
    let mut backups_taken: u64 = 0;
    let ghost old_links = record@.links;
    let ghost old_backups = record@.backups;
    match cur.kind(dest) {
        Kind::Absent => {
            actions.push(
                Action::CreateLink { link: String::from_str(dest), target: String::from_str(target) },
            );
            record.links.push(String::from_str(dest));
            links_created = 1;
            proof {
                assert(acts(actions@) =~= pre.push(Act::CreateLink(dest@, target@)));
                assert(record@.links =~= old_links.push(dest@));
                assert(record@.backups =~= old_backups);
                lemma_run_push(world@, pre, Act::CreateLink(dest@, target@));
            }
        },
        Kind::Dir { .. } => {
            let b = backup_path(&cur, lock, dest, stamp);
            actions.push(Action::MoveDir { from: String::from_str(dest), to: b.clone() });
            actions.push(
                Action::CreateLink { link: String::from_str(dest), target: String::from_str(target) },
            );
            record.links.push(String::from_str(dest));
            record.backups.push(BackupPair { original: String::from_str(dest), backup: b });
            links_created = 1;
            backups_taken = 1;
            proof {
                assert(acts(actions@) =~= pre.push(Act::MoveDir(dest@, b@)).push(
                    Act::CreateLink(dest@, target@),
                ));
                assert(record@.links =~= old_links.push(dest@));
                assert(record@.backups =~= old_backups.push((dest@, b@)));
                lemma_run_push(world@, pre, Act::MoveDir(dest@, b@));
                lemma_run_push(
                    world@,
                    pre.push(Act::MoveDir(dest@, b@)),
                    Act::CreateLink(dest@, target@),
                );
            }
        },
        _ => {
            proof {
                assert(record@.links =~= old_links);
                assert(record@.backups =~= old_backups);
            }
        },
    }
    let ghost mid = acts(actions@);
    actions.push(Action::WriteLock { path: String::from_str(lock) });
    proof {
        assert(acts(actions@) =~= mid.push(Act::WriteLock(lock@)));
        assert(acts(actions@).drop_last() =~= mid);
    }
    LinkPlan { actions, record, links_created, backups_taken }
}

/// The removals of the first `n` recorded links: each one that is still a
/// link when its turn comes.
pub open spec fn unlinked_upto(w: Space, links: Seq<Seq<char>>, n: int) -> Seq<Act>
    decreases n,
{
    if n <= 0 {
        Seq::empty()
    } else {
        let before = unlinked_upto(w, links, n - 1);
        if at(run(w, before), links[n - 1]) is Link {
            before.push(Act::RemoveLink(links[n - 1]))
        } else {
            before
        }
    }
}

/// The actions `base`, then the moves that give back the first `n` recorded
/// directories: each one whose original place is vacant and whose backup is a
/// directory when its turn comes.
pub open spec fn restored_upto(
    w: Space,
    base: Seq<Act>,
    backups: Seq<(Seq<char>, Seq<char>)>,
    n: int,
) -> Seq<Act>
    decreases n,
{
    if n <= 0 {
        base
    } else {
        let before = restored_upto(w, base, backups, n - 1);
        let cur = run(w, before);
        if at(cur, backups[n - 1].0) is Absent && at(cur, backups[n - 1].1) is Dir {
            before.push(Act::MoveDir(backups[n - 1].1, backups[n - 1].0))
        } else {
            before
        }
    }
}

/// The actions that undo a record: nothing where there is no lock file; else
/// the links go, the directories come back, and the lock file is deleted.
pub open spec fn cleanup_steps(w: Space, record: Option<RecordView>, lock: Seq<char>) -> Seq<Act> {
    match record {
        None => Seq::empty(),
        Some(r) => restored_upto(
            w,
            unlinked_upto(w, r.links, r.links.len() as int),
            r.backups,
            r.backups.len() as int,
        ).push(Act::DeleteLock(lock)),
    }
}

/// The record of an optional lock file as plain values.
pub open spec fn record_view(record: Option<&LinkRecord>) -> Option<RecordView> {
    match record {
        Some(r) => Some(r@),
        None => None,
    }
}

/// Plans the reversal of what the lock file records. `record` is `None` where
/// there is no lock file: nothing is pending then, and nothing is planned.
/// Else every recorded link that still is one goes, every recorded directory
/// whose place is vacant comes back from its backup, and the lock file is
/// deleted last. Each action before that last one can happen on the disk as
/// observed.
pub fn cleanup(world: &World, record: Option<&LinkRecord>, lock: &str) -> (actions: Vec<Action>)
    ensures
        acts(actions@) == cleanup_steps(world@, record_view(record), lock@),
        record is Some ==> runs_clean(world@, acts(actions@).drop_last()),
{
    let mut actions: Vec<Action> = Vec::new();
    let r = match record {
        Some(r) => r,
        None => {
            proof {
                assert(acts(actions@) =~= Seq::<Act>::empty());
            }
            return actions;
        },
    };
    let ghost w = world@;
    let ghost links = r@.links;
    let ghost backups = r@.backups;
    let mut cur = world.duplicate();
    let mut i: usize = 0;
    proof {
        assert(acts(actions@) =~= unlinked_upto(w, links, 0));
    }
    while i < r.links.len()
        invariant
            i <= r.links@.len(),
            w == world@,
            links == r@.links,
            acts(actions@) == unlinked_upto(w, links, i as int),
            cur@ == run(w, acts(actions@)),
            runs_clean(w, acts(actions@)),
        decreases r.links@.len() - i,
    {
        let ghost before = acts(actions@);
        proof {
            assert(links[i as int] == r.links@[i as int]@);
        }
        if matches!(cur.kind(r.links[i].as_str()), Kind::Link { .. }) {
            let a = Action::RemoveLink { link: r.links[i].clone() };
            cur.carry_out(&a);
            actions.push(a);
            proof {
                lemma_run_push(w, before, Act::RemoveLink(links[i as int]));
                assert(acts(actions@) =~= before.push(Act::RemoveLink(links[i as int])));
            }
        }
        i += 1;
    }
    let ghost base = acts(actions@);
    let mut j: usize = 0;
    while j < r.backups.len()
        invariant
            j <= r.backups@.len(),
            w == world@,
            backups == r@.backups,
            base == unlinked_upto(w, r@.links, r@.links.len() as int),
            acts(actions@) == restored_upto(w, base, backups, j as int),
            cur@ == run(w, acts(actions@)),
            runs_clean(w, acts(actions@)),
        decreases r.backups@.len() - j,
    {
        let ghost before = acts(actions@);
        let pair = &r.backups[j];
        proof {
            assert(backups[j as int] == (pair.original@, pair.backup@));
        }
        if matches!(cur.kind(pair.original.as_str()), Kind::Absent) && matches!(
            cur.kind(pair.backup.as_str()),
            Kind::Dir { .. }
        ) {
            let a = Action::MoveDir { from: pair.backup.clone(), to: pair.original.clone() };
            cur.carry_out(&a);
            actions.push(a);
            proof {
                lemma_run_push(w, before, Act::MoveDir(pair.backup@, pair.original@));
                assert(acts(actions@) =~= before.push(Act::MoveDir(pair.backup@, pair.original@)));
            }
        }
        j += 1;
    }
    let ghost mid = acts(actions@);
    actions.push(Action::DeleteLock { path: String::from_str(lock) });
    proof {
        assert(acts(actions@) =~= mid.push(Act::DeleteLock(lock@)));
        assert(acts(actions@).drop_last() =~= mid);
    }
    actions
}

/// Linking with the backup path `b` and then cleaning up leaves every path as
/// it was before, but for a target that linking had to create.
proof fn lemma_link_then_cleanup(
    w: Space,
    dest: Seq<char>,
    target: Seq<char>,
    b: Seq<char>,
    lock: Seq<char>,
    p: Seq<char>,
)
    requires
        at(w, lock) is Absent,
        takes_backup(w, dest, target) ==> free(readied(w, target), lock, b),
    ensures
        ({
            let linked = run(w, link_steps(w, dest, target, b, lock));
            let record = link_record(w, dest, target, b, empty_record());
            let undone = run(linked, cleanup_steps(linked, Some(record), lock));
            &&& p != target ==> at(undone, p) == at(w, p)
            &&& !(at(w, target) is Absent) ==> at(undone, target) == at(w, target)
            &&& at(w, target) is Absent ==> at(undone, target) is Dir
        }),
{
    let none = Seq::<Act>::empty();
    let pre = prepared(w, target);
    let ready = readied(w, target);
    if at(w, target) is Absent {
        lemma_run_push(w, none, Act::CreateDir(target));
        assert(pre =~= none.push(Act::CreateDir(target)));
    } else {
        assert(pre =~= none);
    }
    let record = link_record(w, dest, target, b, empty_record());
    let plan = link_steps(w, dest, target, b, lock);
    let linked = run(w, plan);
    let undo = cleanup_steps(linked, Some(record), lock);
    let u1 = Act::RemoveLink(dest);
    let u2 = Act::MoveDir(b, dest);
    let u3 = Act::DeleteLock(lock);
    let a1 = Act::MoveDir(dest, b);
    let a2 = Act::CreateLink(dest, target);
    let a3 = Act::WriteLock(lock);
    assert(run(linked, none) == linked);
    if at(ready, dest) is Dir {
        lemma_run_push(w, pre, a1);
        lemma_run_push(w, pre.push(a1), a2);
        lemma_run_push(w, pre.push(a1).push(a2), a3);
        assert(record.links =~= seq![dest]);
        assert(record.backups =~= seq![(dest, b)]);
        assert(unlinked_upto(linked, record.links, 0) =~= none);
        assert(at(linked, dest) is Link);
        assert(unlinked_upto(linked, record.links, 1) =~= none.push(u1));
        lemma_run_push(linked, none, u1);
        let base = none.push(u1);
        assert(restored_upto(linked, base, record.backups, 0) =~= base);
        assert(restored_upto(linked, base, record.backups, 1) =~= base.push(u2));
        lemma_run_push(linked, base, u2);
        lemma_run_push(linked, base.push(u2), u3);
        assert(undo =~= base.push(u2).push(u3));
    } else if at(ready, dest) is Absent {
        lemma_run_push(w, pre, a2);
        lemma_run_push(w, pre.push(a2), a3);
        assert(record.links =~= seq![dest]);
        assert(record.backups =~= Seq::<(Seq<char>, Seq<char>)>::empty());
        assert(unlinked_upto(linked, record.links, 0) =~= none);
        assert(at(linked, dest) is Link);
        assert(unlinked_upto(linked, record.links, 1) =~= none.push(u1));
        lemma_run_push(linked, none, u1);
        let base = none.push(u1);
        assert(restored_upto(linked, base, record.backups, 0) =~= base);
        lemma_run_push(linked, base, u3);
        assert(undo =~= base.push(u3));
    } else {
        lemma_run_push(w, pre, a3);
        assert(record == empty_record());
        assert(unlinked_upto(linked, record.links, 0) =~= none);
        assert(restored_upto(linked, none, record.backups, 0) =~= none);
        lemma_run_push(linked, none, u3);
        assert(undo =~= none.push(u3));
    }
}

/// Two calls of `link` that move a directory away, the second with a backup
/// path that is free while the first backup stands, record two different
/// paths and leave the first backup alone.
proof fn lemma_backups_apart(
    first: Space,
    second: Space,
    dest: Seq<char>,
    target: Seq<char>,
    lock: Seq<char>,
    b1: Seq<char>,
    b2: Seq<char>,
    prior: RecordView,
)
    requires
        takes_backup(first, dest, target),
        takes_backup(second, dest, target),
        free(readied(first, target), lock, b1),
        free(readied(second, target), lock, b2),
        !(at(readied(second, target), b1) is Absent),
    ensures
        ({
            let r1 = link_record(first, dest, target, b1, prior);
            let r2 = link_record(second, dest, target, b2, r1);
            let after = run(second, link_steps(second, dest, target, b2, lock));
            &&& b1 != b2
            &&& r2.backups == prior.backups.push((dest, b1)).push((dest, b2))
            &&& at(after, b1) == at(readied(second, target), b1)
            &&& at(after, b2) == at(readied(second, target), dest)
        }),
{
    let pre = prepared(second, target);
    let ready = readied(second, target);
    let a1 = Act::MoveDir(dest, b2);
    let a2 = Act::CreateLink(dest, target);
    let a3 = Act::WriteLock(lock);
    lemma_run_push(second, pre, a1);
    lemma_run_push(second, pre.push(a1), a2);
    lemma_run_push(second, pre.push(a1).push(a2), a3);
    assert(at(readied(first, target), dest) is Dir);
    assert(b1 != dest);
    assert(b2 != dest);
}

/// Once the target exists the disk still holds finitely many things.
proof fn lemma_readied_finite(w: Space, target: Seq<char>)
    requires
        w.dom().finite(),
    ensures
        readied(w, target).dom().finite(),
{
    broadcast use vstd::set::group_set_axioms;
    broadcast use vstd::map::group_map_axioms;

    if at(w, target) is Absent {
        lemma_run_push(w, Seq::empty(), Act::CreateDir(target));
        assert(prepared(w, target) =~= Seq::<Act>::empty().push(Act::CreateDir(target)));
    } else {
        assert(prepared(w, target) =~= Seq::<Act>::empty());
    }
}

/// Linking and then cleaning up leaves every path as it was before, but for a
/// target that linking had to create: that directory stays.
///
/// This is stated of a disk on which no lock file is pending. `p` is any path.
pub proof fn law_link_then_cleanup_restores(
    w: Space,
    dest: Seq<char>,
    target: Seq<char>,
    stamp: u64,
    lock: Seq<char>,
    p: Seq<char>,
)
    requires
        w.dom().finite(),
        at(w, lock) is Absent,
    ensures
        ({
            let b = picked_backup(w, dest, target, stamp, lock);
            let linked = run(w, link_steps(w, dest, target, b, lock));
            let record = link_record(w, dest, target, b, empty_record());
            let undone = run(linked, cleanup_steps(linked, Some(record), lock));
            &&& p != target ==> at(undone, p) == at(w, p)
            &&& !(at(w, target) is Absent) ==> at(undone, target) == at(w, target)
            &&& at(w, target) is Absent ==> at(undone, target) is Dir
        }),
{
    lemma_readied_finite(w, target);
    lemma_backup_name_is_free(readied(w, target), lock, dest, stamp);
    lemma_link_then_cleanup(w, dest, target, picked_backup(w, dest, target, stamp, lock), lock, p);
}

/// Two calls of `link` on a destination that is a real directory both times
/// record two different backup paths, and the second call leaves the first
/// backup as it is.
///
/// `first` and `second` are the disks that the two calls observe, with their
/// time stamps; the first backup still stands when the second call is made.
pub proof fn law_backups_never_clobber(
    first: Space,
    stamp1: u64,
    second: Space,
    stamp2: u64,
    dest: Seq<char>,
    target: Seq<char>,
    lock: Seq<char>,
    prior: RecordView,
)
    requires
        first.dom().finite(),
        second.dom().finite(),
        takes_backup(first, dest, target),
        takes_backup(second, dest, target),
        !(at(readied(second, target), picked_backup(first, dest, target, stamp1, lock)) is Absent),
    ensures
        ({
            let b1 = picked_backup(first, dest, target, stamp1, lock);
            let b2 = picked_backup(second, dest, target, stamp2, lock);
            let r1 = link_record(first, dest, target, b1, prior);
            let r2 = link_record(second, dest, target, b2, r1);
            let after = run(second, link_steps(second, dest, target, b2, lock));
            &&& b1 != b2
            &&& r2.backups == prior.backups.push((dest, b1)).push((dest, b2))
            &&& at(after, b1) == at(readied(second, target), b1)
            &&& at(after, b2) == at(readied(second, target), dest)
        }),
{
    lemma_readied_finite(first, target);
    lemma_readied_finite(second, target);
    lemma_backup_name_is_free(readied(first, target), lock, dest, stamp1);
    lemma_backup_name_is_free(readied(second, target), lock, dest, stamp2);
    lemma_backups_apart(
        first,
        second,
        dest,
        target,
        lock,
        picked_backup(first, dest, target, stamp1, lock),
        picked_backup(second, dest, target, stamp2, lock),
        prior,
    );
}

} // verus!
