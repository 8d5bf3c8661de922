use ddup::dirlist::{effective_backend, Backend};
use ddup::link::{tmp_name, LinkAction, LinkState, LinkTask};
use std::collections::HashMap;

/// A tiny path-to-inode model of a file system, with the semantics the
/// link machine assumes: atomic rename and link, failed steps change
/// nothing.
struct ModelFs {
    files: HashMap<String, u64>,
}

impl ModelFs {
    fn rename(&mut self, from: &str, to: &str) -> bool {
        match self.files.remove(from) {
            Some(ino) => {
                self.files.insert(to.to_string(), ino);
                true
            },
            None => false,
        }
    }

    fn link(&mut self, src: &str, dst: &str) -> bool {
        match self.files.get(src) {
            Some(&ino) => {
                self.files.insert(dst.to_string(), ino);
                true
            },
            None => false,
        }
    }

    fn remove(&mut self, p: &str) -> bool {
        self.files.remove(p).is_some()
    }
}

/// Drives one task to a terminal state; `fail_at` makes the n-th action
/// fail (0-based).
fn drive(fs: &mut ModelFs, task: &mut LinkTask, fail_at: Option<usize>) {
    let mut step = 0usize;
    loop {
        let action = task.next_action();
        if action == LinkAction::Finished {
            break;
        }
        let forced_fail = fail_at == Some(step);
        let ok = if forced_fail {
            false
        } else {
            match action {
                LinkAction::RenameToTmp => fs.rename(&task.target.clone(), &task.tmp.clone()),
                LinkAction::CreateLink => fs.link(&task.canonical.clone(), &task.target.clone()),
                LinkAction::RemoveTmp => fs.remove(&task.tmp.clone()),
                LinkAction::RestoreFromTmp => fs.rename(&task.tmp.clone(), &task.target.clone()),
                LinkAction::Finished => unreachable!(),
            }
        };
        task.apply_result(ok);
        step += 1;
    }
}

fn seeded_fs() -> ModelFs {
    let mut files = HashMap::new();
    files.insert("R\\a".to_string(), 1);
    files.insert("R\\b".to_string(), 2);
    files.insert("R\\c".to_string(), 3);
    ModelFs { files }
}

#[test]
fn link_replaces_the_duplicate() {
    // R\a and R\b are duplicates of size 5; replace R\b by a hardlink.
    let mut fs = seeded_fs();
    let mut task = LinkTask::new("R\\a".to_string(), "R\\b".to_string());
    drive(&mut fs, &mut task, None);
    assert_eq!(task.state, LinkState::Completed);
    assert!(task.completed());
    assert_eq!(fs.files["R\\b"], fs.files["R\\a"]);
    assert!(!fs.files.contains_key("R\\b.ddup_tmp"));
    let freed: u64 = if task.completed() { 5 } else { 0 };
    assert_eq!(freed, 5);
}

#[test]
fn linking_twice_changes_nothing_more() {
    let mut fs = seeded_fs();
    let mut first = LinkTask::new("R\\a".to_string(), "R\\b".to_string());
    drive(&mut fs, &mut first, None);
    let snapshot: Vec<(String, u64)> = {
        let mut v: Vec<_> = fs.files.iter().map(|(k, &v)| (k.clone(), v)).collect();
        v.sort();
        v
    };
    let mut second = LinkTask::new("R\\a".to_string(), "R\\b".to_string());
    drive(&mut fs, &mut second, None);
    assert_eq!(second.state, LinkState::Completed);
    let after: Vec<(String, u64)> = {
        let mut v: Vec<_> = fs.files.iter().map(|(k, &v)| (k.clone(), v)).collect();
        v.sort();
        v
    };
    assert_eq!(snapshot, after);
}

#[test]
fn failed_link_restores_the_target() {
    let mut fs = seeded_fs();
    let mut task = LinkTask::new("R\\a".to_string(), "R\\b".to_string());
    drive(&mut fs, &mut task, Some(1)); // the CreateLink step fails
    assert_eq!(task.state, LinkState::Restored);
    assert_eq!(fs.files["R\\b"], 2);
    assert!(!fs.files.contains_key("R\\b.ddup_tmp"));
    assert_eq!(fs.files["R\\a"], 1);
}

#[test]
fn failed_rename_leaves_everything_alone() {
    let mut fs = seeded_fs();
    let mut task = LinkTask::new("R\\a".to_string(), "R\\b".to_string());
    drive(&mut fs, &mut task, Some(0));
    assert_eq!(task.state, LinkState::RenameFailed);
    assert_eq!(fs.files["R\\b"], 2);
    assert!(!fs.files.contains_key("R\\b.ddup_tmp"));
}

#[test]
fn content_survives_even_when_stuck() {
    // Link fails, and the rename back fails too: the backup stays for the
    // operator, still holding the original inode.
    let mut fs = seeded_fs();
    let mut task = LinkTask::new("R\\a".to_string(), "R\\b".to_string());
    let mut step = 0usize;
    loop {
        let action = task.next_action();
        if action == LinkAction::Finished {
            break;
        }
        let ok = match (step, action) {
            (0, LinkAction::RenameToTmp) => fs.rename("R\\b", "R\\b.ddup_tmp"),
            (1, LinkAction::CreateLink) => false,
            (2, LinkAction::RestoreFromTmp) => false,
            _ => panic!("unexpected action"),
        };
        task.apply_result(ok);
        step += 1;
    }
    assert_eq!(task.state, LinkState::Stuck);
    assert!(!task.completed());
    assert_eq!(fs.files["R\\b.ddup_tmp"], 2);
    assert_eq!(fs.files["R\\a"], 1);
}

#[test]
fn backup_left_when_the_temp_cannot_be_removed() {
    let mut fs = seeded_fs();
    let mut task = LinkTask::new("R\\a".to_string(), "R\\b".to_string());
    drive(&mut fs, &mut task, Some(2)); // the RemoveTmp step fails
    assert_eq!(task.state, LinkState::BackupLeft);
    assert!(!task.completed()); // no space is counted as freed
    assert_eq!(fs.files["R\\b"], 1);
    assert_eq!(fs.files["R\\b.ddup_tmp"], 2);
}

#[test]
fn tmp_names_carry_the_suffix() {
    assert_eq!(tmp_name("R\\b"), "R\\b.ddup_tmp");
    let task = LinkTask::new("a".to_string(), "b".to_string());
    assert_eq!(task.tmp, "b.ddup_tmp");
    assert_eq!(task.state, LinkState::Pending);
    assert_eq!(task.next_action(), LinkAction::RenameToTmp);
}

#[test]
fn indexer_fallback_policy() {
    assert_eq!(effective_backend(Backend::Everything, true, 10), Backend::Everything);
    assert_eq!(effective_backend(Backend::Everything, true, 0), Backend::USN);
    assert_eq!(effective_backend(Backend::Everything, false, 10), Backend::USN);
    assert_eq!(effective_backend(Backend::USN, false, 0), Backend::USN);
    assert_eq!(effective_backend(Backend::WizTree, false, 0), Backend::WizTree);
}
