use std::collections::BTreeMap;

use pz_launcher::error::EngineError;
use pz_launcher::manifest::{is_already_applied, ManifestEntry};
use pz_launcher::sync::{apply, ApplyPlan, FileAction, Summary};

type Files = BTreeMap<String, Vec<u8>>;

fn digest_of(bytes: &[u8]) -> String {
    let mut sum: u64 = 1469598103934665603;
    for b in bytes {
        sum = (sum ^ (*b as u64)).wrapping_mul(1099511628211);
    }
    format!("{:016x}{:016x}{:016x}{:016x}", sum, !sum, sum.rotate_left(17), sum.rotate_left(41))
}

fn scan(files: &Files) -> Vec<ManifestEntry> {
    files
        .iter()
        .map(|(p, b)| ManifestEntry { path: p.clone(), size: b.len() as u64, hash: digest_of(b) })
        .collect()
}

fn names(files: &Files) -> Vec<String> {
    files.keys().cloned().collect()
}

fn carry_out(plan: &ApplyPlan, src: &Files, dest: &mut Files, backup: &mut Files) {
    for action in &plan.actions {
        match action {
            FileAction::Backup { path } => {
                let bytes = dest.get(path).unwrap().clone();
                backup.insert(path.clone(), bytes);
            }
            FileAction::Copy { path } => {
                let bytes = src.get(path).unwrap().clone();
                dest.insert(path.clone(), bytes);
            }
        }
    }
}

fn show(plan: &ApplyPlan) -> Vec<String> {
    plan.actions.iter().map(|a| format!("{:?}", a)).collect()
}

fn source() -> Files {
    let mut src = Files::new();
    src.insert("a.txt".to_string(), vec![1u8; 10]);
    src.insert("b/c.txt".to_string(), vec![2u8; 20]);
    src
}

#[test]
fn empty_destination_gets_every_file() {
    let src = source();
    let plan = apply(&scan(&src), &Vec::new(), None).unwrap();
    assert_eq!(plan.summary, Summary { copied: 2, replaced: 0, backed_up: 0 });
    assert_eq!(
        show(&plan),
        vec!["Copy { path: \"a.txt\" }".to_string(), "Copy { path: \"b/c.txt\" }".to_string()]
    );
    let paths: Vec<String> = plan.manifest.entries().iter().map(|e| e.path.clone()).collect();
    assert_eq!(paths, vec!["a.txt".to_string(), "b/c.txt".to_string()]);
    let sizes: Vec<u64> = plan.manifest.entries().iter().map(|e| e.size).collect();
    assert_eq!(sizes, vec![10, 20]);
}

#[test]
fn overwritten_file_is_backed_up_with_its_old_bytes() {
    let mut src = Files::new();
    src.insert("a.txt".to_string(), b"new bytes".to_vec());
    let mut dest = Files::new();
    dest.insert("a.txt".to_string(), b"old".to_vec());
    let mut backup = Files::new();
    let plan = apply(&scan(&src), &names(&dest), Some(&names(&backup))).unwrap();
    assert_eq!(plan.summary, Summary { copied: 0, replaced: 1, backed_up: 1 });
    assert_eq!(
        show(&plan),
        vec!["Backup { path: \"a.txt\" }".to_string(), "Copy { path: \"a.txt\" }".to_string()]
    );
    carry_out(&plan, &src, &mut dest, &mut backup);
    assert_eq!(backup.get("a.txt").unwrap(), &b"old".to_vec());
    assert_eq!(dest.get("a.txt").unwrap(), &b"new bytes".to_vec());
}

#[test]
fn existing_backup_is_never_overwritten() {
    let src = source();
    let mut dest = Files::new();
    dest.insert("a.txt".to_string(), b"second".to_vec());
    let mut backup = Files::new();
    backup.insert("a.txt".to_string(), b"first".to_vec());
    let plan = apply(&scan(&src), &names(&dest), Some(&names(&backup))).unwrap();
    assert_eq!(plan.summary, Summary { copied: 1, replaced: 1, backed_up: 0 });
    carry_out(&plan, &src, &mut dest, &mut backup);
    assert_eq!(backup.get("a.txt").unwrap(), &b"first".to_vec());
    assert_eq!(backup.len(), 1);
}

#[test]
fn without_a_backup_root_nothing_is_backed_up() {
    let src = source();
    let dest = source();
    let plan = apply(&scan(&src), &names(&dest), None).unwrap();
    assert_eq!(plan.summary, Summary { copied: 0, replaced: 2, backed_up: 0 });
    assert_eq!(plan.actions.len(), 2);
}

#[test]
fn destination_paths_may_use_backslashes() {
    let src = source();
    let dest = vec!["b\\c.txt".to_string()];
    let plan = apply(&scan(&src), &dest, Some(&Vec::new())).unwrap();
    assert_eq!(plan.summary, Summary { copied: 1, replaced: 1, backed_up: 1 });
    assert_eq!(
        show(&plan),
        vec![
            "Copy { path: \"a.txt\" }".to_string(),
            "Backup { path: \"b/c.txt\" }".to_string(),
            "Copy { path: \"b/c.txt\" }".to_string(),
        ]
    );
}

#[test]
fn second_apply_is_short_circuited() {
    let src = source();
    let mut dest = Files::new();
    dest.insert("a.txt".to_string(), b"stale".to_vec());
    dest.insert("keep.txt".to_string(), b"mine".to_vec());
    let mut backup = Files::new();

    let before = is_already_applied(None, &scan(&src), &scan(&dest)).unwrap();
    assert!(!before.applied);
    assert!(before.persist.is_none());

    let plan = apply(&scan(&src), &names(&dest), Some(&names(&backup))).unwrap();
    carry_out(&plan, &src, &mut dest, &mut backup);
    assert_eq!(dest.get("keep.txt").unwrap(), &b"mine".to_vec());

    let after = is_already_applied(Some(&plan.manifest), &scan(&src), &scan(&dest)).unwrap();
    assert!(after.applied);
    let rebuilt = is_already_applied(None, &scan(&src), &scan(&dest)).unwrap();
    assert!(rebuilt.applied);
    assert!(rebuilt.persist.is_some());
}

#[test]
fn repeated_apply_backs_up_once() {
    let src = source();
    let mut dest = Files::new();
    dest.insert("a.txt".to_string(), b"original".to_vec());
    let mut backup = Files::new();
    let first = apply(&scan(&src), &names(&dest), Some(&names(&backup))).unwrap();
    carry_out(&first, &src, &mut dest, &mut backup);
    let second = apply(&scan(&src), &names(&dest), Some(&names(&backup))).unwrap();
    assert_eq!(second.summary, Summary { copied: 0, replaced: 2, backed_up: 1 });
    carry_out(&second, &src, &mut dest, &mut backup);
    assert_eq!(backup.get("a.txt").unwrap(), &b"original".to_vec());
    assert_eq!(backup.get("b/c.txt").unwrap(), &vec![2u8; 20]);
}

#[test]
fn empty_source_plans_nothing() {
    let plan = apply(&Vec::new(), &vec!["x".to_string()], None).unwrap();
    assert_eq!(plan.summary, Summary { copied: 0, replaced: 0, backed_up: 0 });
    assert!(plan.actions.is_empty());
    assert_eq!(plan.manifest.len(), 0);
}

#[test]
fn unusable_scan_plans_nothing() {
    let bad = vec![ManifestEntry { path: "a".to_string(), size: 1, hash: "xyz".to_string() }];
    assert_eq!(apply(&bad, &Vec::new(), None).unwrap_err(), EngineError::SerializationError);
}
