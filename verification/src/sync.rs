//! Synchronising a payload tree onto a destination: which files to copy, which
//! to back up first, and what the destination looks like afterwards.

use vstd::prelude::*;
use crate::error::EngineError;
use crate::manifest::{
    build, buildable, cleaned, counts_as_applied, covers, distinct_paths, is_manifest_of,
    law_manifest_matches_own_tree, lemma_covers_same_entries, sorted, stamp, tree_of, views,
    EntryView, Manifest, ManifestEntry, Tree,
};
use crate::order::lemma_lt_asymmetric;
use crate::paths::{has_name, name_set, normalize_all, normalized};

verus! {

/// One step of a synchronisation. Paths are relative and normalised.
#[derive(Debug)]
pub enum FileAction {
    /// Copy the destination's file into the backup root.
    Backup { path: String },
    /// Copy the source's file onto the destination, creating parent
    /// directories as needed.
    Copy { path: String },
}

/// A step as plain values.
pub enum FileStep {
    Backup(Seq<char>),
    Copy(Seq<char>),
}

impl View for FileAction {
    type V = FileStep;

    open spec fn view(&self) -> FileStep {
        match self {
            FileAction::Backup { path } => FileStep::Backup(path@),
            FileAction::Copy { path } => FileStep::Copy(path@),
        }
    }
}

/// The steps of a list of actions.
pub open spec fn steps(s: Seq<FileAction>) -> Seq<FileStep> {
    Seq::new(s.len(), |i: int| s[i]@)
}

/// How many files a synchronisation copies anew, overwrites and backs up.
#[derive(Clone, Copy, Debug, PartialEq, Eq, Structural)]
pub struct Summary {
    pub copied: u64,
    pub replaced: u64,
    pub backed_up: u64,
}

/// The outcome of planning a synchronisation.
#[derive(Debug)]
pub struct ApplyPlan {
    /// The steps, in the order of the manifest.
    pub actions: Vec<FileAction>,
    /// The counts that carrying out the steps gives.
    pub summary: Summary,
    /// The manifest of the source, to be stored once every step succeeded.
    pub manifest: Manifest,
}

/// A file that is present at the destination is backed up before it is
/// overwritten where a backup root is given that holds no backup of it yet.
pub open spec fn needs_backup(p: Seq<char>, dest: Set<Seq<char>>, saved: Option<Set<Seq<char>>>) -> bool {
    dest.contains(p) && saved is Some && !saved.unwrap().contains(p)
}

/// The steps for the first `n` entries.
pub open spec fn plan_upto(
    m: Seq<EntryView>,
    dest: Set<Seq<char>>,
    saved: Option<Set<Seq<char>>>,
    n: int,
) -> Seq<FileStep>
    decreases n,
{
    if n <= 0 {
        Seq::empty()
    } else if needs_backup(m[n - 1].path, dest, saved) {
        plan_upto(m, dest, saved, n - 1).push(FileStep::Backup(m[n - 1].path)).push(
            FileStep::Copy(m[n - 1].path),
        )
    } else {
        plan_upto(m, dest, saved, n - 1).push(FileStep::Copy(m[n - 1].path))
    }
}

/// How many of the first `n` entries are absent at the destination.
pub open spec fn copied_upto(m: Seq<EntryView>, dest: Set<Seq<char>>, n: int) -> int
    decreases n,
{
    if n <= 0 {
        0
    } else {
        copied_upto(m, dest, n - 1) + if dest.contains(m[n - 1].path) {
            0int
        } else {
            1int
        }
    }
}

/// How many of the first `n` entries are present at the destination.
pub open spec fn replaced_upto(m: Seq<EntryView>, dest: Set<Seq<char>>, n: int) -> int
    decreases n,
{
    if n <= 0 {
        0
    } else {
        replaced_upto(m, dest, n - 1) + if dest.contains(m[n - 1].path) {
            1int
        } else {
            0int
        }
    }
}

/// How many of the first `n` entries are backed up.
pub open spec fn backed_upto(
    m: Seq<EntryView>,
    dest: Set<Seq<char>>,
    saved: Option<Set<Seq<char>>>,
    n: int,
) -> int
    decreases n,
{
    if n <= 0 {
        0
    } else {
        backed_upto(m, dest, saved, n - 1) + if needs_backup(m[n - 1].path, dest, saved) {
            1int
        } else {
            0int
        }
    }
}

/// The paths of an optional list.
pub open spec fn saved_names(backups: Option<&Vec<String>>) -> Option<Set<Seq<char>>> {
    match backups {
        Some(b) => Some(name_set(b@)),
        None => None,
    }
}

proof fn lemma_counts_bounded(
    m: Seq<EntryView>,
    dest: Set<Seq<char>>,
    saved: Option<Set<Seq<char>>>,
    n: int,
)
    requires
        0 <= n,
    ensures
        0 <= copied_upto(m, dest, n) <= n,
        0 <= replaced_upto(m, dest, n) <= n,
        0 <= backed_upto(m, dest, saved, n) <= n,
    decreases n,
{
    if n > 0 {
        lemma_counts_bounded(m, dest, saved, n - 1);
    }
}

/// Plans the synchronisation of a scanned source onto a destination.
///
/// `dest` lists the files that the destination holds, `backups` those that the
/// backup root holds, where there is one. Every file of the source is copied.
/// One that the destination already holds counts as replaced, and is backed up
/// first unless a backup of it exists. Nothing is planned for a scan from which
/// no manifest can be built.
pub fn apply(source: &Vec<ManifestEntry>, dest: &Vec<String>, backups: Option<&Vec<String>>) -> (out:
    Result<ApplyPlan, EngineError>)
    ensures
        match out {
            Ok(plan) => {
                let m = plan.manifest@;
                let n = m.len() as int;
                &&& buildable(views(source@))
                &&& is_manifest_of(m, views(source@))
                &&& steps(plan.actions@) == plan_upto(m, name_set(dest@), saved_names(backups), n)
                &&& plan.summary.copied == copied_upto(m, name_set(dest@), n)
                &&& plan.summary.replaced == replaced_upto(m, name_set(dest@), n)
                &&& plan.summary.backed_up == backed_upto(
                    m,
                    name_set(dest@),
                    saved_names(backups),
                    n,
                )
            },
            Err(e) => !buildable(views(source@)) && e == EngineError::SerializationError,
        },
{
    let manifest = match build(source) {
        Ok(m) => m,
        Err(e) => {
            return Err(e);
        },
    };
    let at_dest = normalize_all(dest);
    let kept: Option<Vec<String>> = match backups {
        Some(b) => Some(normalize_all(b)),
        None => None,
    };
    let ghost m = manifest@;
    let ghost present = name_set(dest@);
    let ghost saved = saved_names(backups);
    let entries = manifest.entries();
    let mut actions: Vec<FileAction> = Vec::new();
    let mut copied: u64 = 0;
    let mut replaced: u64 = 0;
    let mut backed_up: u64 = 0;
    let mut i: usize = 0;
    proof {
        assert(steps(actions@) =~= plan_upto(m, present, saved, 0));
    }
    while i < entries.len()
        invariant
            i <= entries@.len(),
            views(entries@) == m,
            present == name_set(dest@),
            saved == saved_names(backups),
            at_dest@.len() == dest@.len(),
            forall|k: int|
                0 <= k < at_dest@.len() ==> (#[trigger] at_dest@[k])@ == normalized(dest@[k]@),
            match kept {
                Some(list) => backups is Some && list@.len() == backups.unwrap()@.len() && forall|
                    k: int,
                |
                    0 <= k < list@.len() ==> (#[trigger] list@[k])@ == normalized(
                        backups.unwrap()@[k]@,
                    ),
                None => backups is None,
            },
            steps(actions@) == plan_upto(m, present, saved, i as int),
            copied == copied_upto(m, present, i as int),
            replaced == replaced_upto(m, present, i as int),
            backed_up == backed_upto(m, present, saved, i as int),
        decreases entries@.len() - i,
    {
        let entry = &entries[i];
        let ghost p = entry.path@;
        let ghost before = steps(actions@);
        proof {
            assert(m[i as int] == entry@);
            lemma_counts_bounded(m, present, saved, i as int);
        }
        let there = has_name(&at_dest, &entry.path);
        proof {
            if there {
                let k = choose|k: int| 0 <= k < at_dest@.len() && (#[trigger] at_dest@[k])@ == p;
                assert(normalized(dest@[k]@) == p);
            } else if present.contains(p) {
                let k = choose|k: int| 0 <= k < dest@.len() && normalized(#[trigger] dest@[k]@) == p;
                assert(at_dest@[k]@ == p);
            }
            assert(there == present.contains(p));
        }
        if there {
            let save = match &kept {
                Some(list) => {
                    let had = has_name(list, &entry.path);
                    proof {
                        let b = backups.unwrap()@;
                        if had {
                            let k = choose|k: int|
                                0 <= k < list@.len() && (#[trigger] list@[k])@ == p;
                            assert(normalized(b[k]@) == p);
                        } else if name_set(b).contains(p) {
                            let k = choose|k: int|
                                0 <= k < b.len() && normalized(#[trigger] b[k]@) == p;
                            assert(list@[k]@ == p);
                        }
                        assert(had == name_set(b).contains(p));
                    }
                    !had
                },
                None => false,
            };
            assert(save == needs_backup(p, present, saved));
            if save {
                actions.push(FileAction::Backup { path: entry.path.clone() });
                backed_up += 1;
            }
            replaced += 1;
        } else {
            copied += 1;
        }
        let ghost middle = steps(actions@);
        actions.push(FileAction::Copy { path: entry.path.clone() });
        proof {
            if needs_backup(p, present, saved) {
                assert(middle =~= before.push(FileStep::Backup(p)));
            } else {
                assert(middle =~= before);
            }
            assert(steps(actions@) =~= middle.push(FileStep::Copy(p)));
        }
        i += 1;
    }
    Ok(ApplyPlan { actions, summary: Summary { copied, replaced, backed_up }, manifest })
}

/// The destination and the backup root as trees.
pub struct Disk {
    pub dest: Tree,
    pub backup: Tree,
}

/// What one step does: a copy gives the destination the source's file, a
/// backup gives the backup root the destination's file. A step whose origin is
/// missing changes nothing.
pub open spec fn perform(src: Tree, d: Disk, a: FileStep) -> Disk {
    match a {
        FileStep::Copy(p) => if src.contains_key(p) {
            Disk { dest: d.dest.insert(p, src[p]), backup: d.backup }
        } else {
            d
        },
        FileStep::Backup(p) => if d.dest.contains_key(p) {
            Disk { dest: d.dest, backup: d.backup.insert(p, d.dest[p]) }
        } else {
            d
        },
    }
}

/// What a list of steps does, carried out in order.
pub open spec fn perform_all(src: Tree, d: Disk, plan: Seq<FileStep>) -> Disk
    decreases plan.len(),
{
    if plan.len() == 0 {
        d
    } else {
        perform(src, perform_all(src, d, plan.drop_last()), plan.last())
    }
}

/// The disk once the steps for the first `n` entries are done.
pub open spec fn disk_after(src: Tree, d: Disk, m: Seq<EntryView>, given: bool, n: int) -> Disk {
    perform_all(
        src,
        d,
        plan_upto(
            m,
            d.dest.dom(),
            if given {
                Some(d.backup.dom())
            } else {
                None
            },
            n,
        ),
    )
}

/// `p` is the path of one of the first `n` entries.
pub open spec fn listed(m: Seq<EntryView>, n: int, p: Seq<char>) -> bool {
    exists|i: int| 0 <= i < n && (#[trigger] m[i]).path == p
}

/// What carrying out a plan leaves behind at the path `p`: a file of the source
/// stands at the destination, any other file of it is untouched; what the
/// backup root held it still holds, and it has gained the former contents of
/// each overwritten file that it had no backup of.
pub proof fn lemma_plan_effect(
    src: Tree,
    d: Disk,
    m: Seq<EntryView>,
    given: bool,
    n: int,
    p: Seq<char>,
)
    requires
        0 <= n <= m.len(),
        distinct_paths(m),
        covers(src, m),
    ensures
        ({
            let after = disk_after(src, d, m, given, n);
            &&& listed(m, n, p) ==> after.dest.contains_key(p) && after.dest[p] == src[p]
            &&& !listed(m, n, p) ==> after.dest.contains_key(p) == d.dest.contains_key(p) && (
            d.dest.contains_key(p) ==> after.dest[p] == d.dest[p])
            &&& d.backup.contains_key(p) ==> after.backup.contains_key(p) && after.backup[p]
                == d.backup[p]
            &&& !d.backup.contains_key(p) ==> (after.backup.contains_key(p) <==> (given && listed(
                m,
                n,
                p,
            ) && d.dest.contains_key(p)))
            &&& !d.backup.contains_key(p) && after.backup.contains_key(p) ==> after.backup[p]
                == d.dest[p]
        }),
    decreases n,
{
    let saved = if given {
        Some(d.backup.dom())
    } else {
        None
    };
    if n > 0 {
        let q = m[n - 1].path;
        lemma_plan_effect(src, d, m, given, n - 1, p);
        lemma_plan_effect(src, d, m, given, n - 1, q);
        let before = plan_upto(m, d.dest.dom(), saved, n - 1);
        let mid = disk_after(src, d, m, given, n - 1);
        let after = disk_after(src, d, m, given, n);
        assert(src.contains_key(q) && src[q] == stamp(m[n - 1]));
        assert(!listed(m, n - 1, q)) by {
            if listed(m, n - 1, q) {
                let i = choose|i: int| 0 <= i < n - 1 && (#[trigger] m[i]).path == q;
                assert(m[i].path != m[n - 1].path);
            }
        }
        assert(listed(m, n, p) <==> (listed(m, n - 1, p) || p == q)) by {
            if listed(m, n, p) {
                let i = choose|i: int| 0 <= i < n && (#[trigger] m[i]).path == p;
                if i < n - 1 {
                    assert(listed(m, n - 1, p));
                }
            }
            if listed(m, n - 1, p) {
                let i = choose|i: int| 0 <= i < n - 1 && (#[trigger] m[i]).path == p;
                assert(listed(m, n, p));
            }
            if p == q {
                assert(m[n - 1].path == p);
            }
        }
        if needs_backup(q, d.dest.dom(), saved) {
            let b = before.push(FileStep::Backup(q));
            let c = b.push(FileStep::Copy(q));
            assert(c.drop_last() =~= b);
            assert(b.drop_last() =~= before);
            let saved_disk = perform(src, mid, FileStep::Backup(q));
            assert(perform_all(src, d, b) == saved_disk);
            assert(after == perform(src, saved_disk, FileStep::Copy(q)));
            assert(mid.dest.contains_key(q) && mid.dest[q] == d.dest[q]);
        } else {
            let c = before.push(FileStep::Copy(q));
            assert(c.drop_last() =~= before);
            assert(after == perform(src, mid, FileStep::Copy(q)));
        }
    } else {
        assert(!listed(m, 0, p));
        assert(plan_upto(m, d.dest.dom(), saved, 0).len() == 0);
    }
}

/// Synchronising twice does the work once: when the plan for a source has been
/// carried out, the source counts as applied, whether the manifest that the
/// plan came with was stored or not, so the second call finds nothing to do.
pub proof fn law_apply_is_idempotent(source: Seq<EntryView>, m: Seq<EntryView>, d: Disk, given: bool)
    requires
        buildable(source),
        is_manifest_of(m, source),
    ensures
        ({
            let after = disk_after(tree_of(source), d, m, given, m.len() as int);
            &&& covers(after.dest, m)
            &&& counts_as_applied(Some(m), source, after.dest)
            &&& counts_as_applied(None, source, after.dest)
        }),
{
    let src = tree_of(source);
    law_manifest_matches_own_tree(m, source);
    lemma_sorted_distinct(m);
    let after = disk_after(src, d, m, given, m.len() as int);
    assert forall|i: int| 0 <= i < m.len() implies after.dest.contains_key(#[trigger] m[i].path)
        && after.dest[m[i].path] == stamp(m[i]) by {
        lemma_plan_effect(src, d, m, given, m.len() as int, m[i].path);
        assert(listed(m, m.len() as int, m[i].path));
    }
    lemma_covers_same_entries(after.dest, m, cleaned(source));
}

/// A backup is never overwritten, and a file that is overwritten without a
/// backup of it existing leaves its former contents in the backup root.
pub proof fn law_backups_keep_first_contents(
    src: Tree,
    d: Disk,
    m: Seq<EntryView>,
    n: int,
    p: Seq<char>,
)
    requires
        sorted(m),
        covers(src, m),
        0 <= n <= m.len(),
    ensures
        ({
            let after = disk_after(src, d, m, true, n);
            &&& d.backup.contains_key(p) ==> after.backup.contains_key(p) && after.backup[p]
                == d.backup[p]
            &&& !d.backup.contains_key(p) && listed(m, n, p) && d.dest.contains_key(p)
                ==> after.backup.contains_key(p) && after.backup[p] == d.dest[p]
        }),
{
    lemma_sorted_distinct(m);
    lemma_plan_effect(src, d, m, true, n, p);
}

/// A synchronisation that stopped after the first `n` entries can be started
/// again: the second run leaves the destination holding every file of the
/// manifest, and the backup root holding, for each file that was there before
/// the first run without a backup, the bytes it had then.
pub proof fn law_retry_is_safe(src: Tree, d: Disk, m: Seq<EntryView>, n: int, p: Seq<char>)
    requires
        sorted(m),
        covers(src, m),
        0 <= n <= m.len(),
    ensures
        ({
            let stopped = disk_after(src, d, m, true, n);
            let after = disk_after(src, stopped, m, true, m.len() as int);
            &&& covers(after.dest, m)
            &&& d.backup.contains_key(p) ==> after.backup.contains_key(p) && after.backup[p]
                == d.backup[p]
            &&& !d.backup.contains_key(p) && listed(m, m.len() as int, p) && d.dest.contains_key(p)
                ==> after.backup.contains_key(p) && after.backup[p] == d.dest[p]
        }),
{
    lemma_sorted_distinct(m);
    let stopped = disk_after(src, d, m, true, n);
    let after = disk_after(src, stopped, m, true, m.len() as int);
    assert forall|i: int| 0 <= i < m.len() implies after.dest.contains_key(#[trigger] m[i].path)
        && after.dest[m[i].path] == stamp(m[i]) by {
        lemma_plan_effect(src, stopped, m, true, m.len() as int, m[i].path);
        assert(listed(m, m.len() as int, m[i].path));
    }
    lemma_plan_effect(src, d, m, true, n, p);
    lemma_plan_effect(src, stopped, m, true, m.len() as int, p);
}

/// Entries in strictly ascending order have pairwise different paths.
pub proof fn lemma_sorted_distinct(m: Seq<EntryView>)
    requires
        sorted(m),
    ensures
        distinct_paths(m),
{
    assert forall|i: int, j: int| 0 <= i < j < m.len() implies m[i].path != m[j].path by {
        lemma_lt_asymmetric(m[i].path, m[j].path);
    }
}

} // verus!
