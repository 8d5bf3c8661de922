//! The link action.
//!
//! Each duplicate group keeps its first path as the canonical file; every
//! other path is replaced by a hardlink to it in three steps: rename the
//! target aside to a temp name, create the link, remove the temp. A failed
//! link is undone by renaming the temp back. The decisions live here as a
//! state machine over plain values; the caller performs each requested
//! action on the file system and reports whether it succeeded.
//!
//! The model below treats the file system as a map from path to inode, and
//! each action as atomic — rename and hardlink creation are atomic on NTFS,
//! and a failed action changes nothing. Under that model the machine is
//! crash-safe: after every step the file's content remains reachable at the
//! target path or at the temp path, and the canonical file is never touched.

use vstd::prelude::*;
use vstd::string::StringExecFns;

verus! {

/// The suffix of the temporary name a target is renamed to.
pub open spec fn tmp_suffix() -> Seq<char> {
    ".ddup_tmp"@
}

/// The temporary name for a target path.
pub fn tmp_name(path: &str) -> (r: String)
    ensures
        r@ == path@ + tmp_suffix(),
{
    let mut out = String::from_str(path);
    out.append(".ddup_tmp");
    out
}

/// What the caller is asked to do next for one target.
#[derive(Debug, Clone, Copy, PartialEq, Eq, Structural)]
pub enum LinkAction {
    /// Rename the target to its temp name.
    RenameToTmp,
    /// Create a hardlink to the canonical file at the target path.
    CreateLink,
    /// Remove the temp name.
    RemoveTmp,
    /// Rename the temp name back to the target.
    RestoreFromTmp,
    /// Nothing: the target is in a terminal state.
    Finished,
}

/// Where one target stands.
#[derive(Debug, Clone, Copy, PartialEq, Eq, Structural)]
pub enum LinkState {
    /// Nothing happened yet.
    Pending,
    /// The target was renamed aside; the link comes next.
    Renamed,
    /// The link exists; the temp name is to be removed.
    Linked,
    /// The link failed; the temp name is to be renamed back.
    LinkFailed,
    /// The target is a hardlink of the canonical file and the temp name is
    /// gone: the only state that counts as freed space.
    Completed,
    /// The link exists but the temp name could not be removed; it is left
    /// for the operator and no space is counted.
    BackupLeft,
    /// The link failed and the target was renamed back: as before.
    Restored,
    /// The link failed and so did the rename back: the temp name holds the
    /// content, left for the operator.
    Stuck,
    /// The initial rename failed: the target was never touched.
    RenameFailed,
}

/// Whether a state is terminal.
pub open spec fn is_terminal(st: LinkState) -> bool {
    st is Completed || st is BackupLeft || st is Restored || st is Stuck || st is RenameFailed
}

/// The action each state asks for.
pub open spec fn action_of(st: LinkState) -> LinkAction {
    match st {
        LinkState::Pending => LinkAction::RenameToTmp,
        LinkState::Renamed => LinkAction::CreateLink,
        LinkState::Linked => LinkAction::RemoveTmp,
        LinkState::LinkFailed => LinkAction::RestoreFromTmp,
        _ => LinkAction::Finished,
    }
}

/// The state after the pending action succeeded or failed.
pub open spec fn step_spec(st: LinkState, ok: bool) -> LinkState {
    match st {
        LinkState::Pending => if ok {
            LinkState::Renamed
        } else {
            LinkState::RenameFailed
        },
        LinkState::Renamed => if ok {
            LinkState::Linked
        } else {
            LinkState::LinkFailed
        },
        LinkState::Linked => if ok {
            LinkState::Completed
        } else {
            LinkState::BackupLeft
        },
        LinkState::LinkFailed => if ok {
            LinkState::Restored
        } else {
            LinkState::Stuck
        },
        _ => st,
    }
}

/// One target being relinked: the canonical path, the target path and the
/// target's temp name.
pub struct LinkTask {
    pub canonical: String,
    pub target: String,
    pub tmp: String,
    pub state: LinkState,
}

impl LinkTask {
    /// Starts a task for one non-canonical member of a group.
    pub fn new(canonical: String, target: String) -> (r: LinkTask)
        ensures
            r.canonical == canonical,
            r.target == target,
            r.tmp@ == target@ + tmp_suffix(),
            r.state is Pending,
    {
        let tmp = tmp_name(target.as_str());
        LinkTask { canonical, target, tmp, state: LinkState::Pending }
    }

    /// What the caller should do next.
    pub fn next_action(&self) -> (r: LinkAction)
        ensures
            r == action_of(self.state),
    {
        match self.state {
            LinkState::Pending => LinkAction::RenameToTmp,
            LinkState::Renamed => LinkAction::CreateLink,
            LinkState::Linked => LinkAction::RemoveTmp,
            LinkState::LinkFailed => LinkAction::RestoreFromTmp,
            _ => LinkAction::Finished,
        }
    }

    /// Advances the machine with the outcome of the requested action.
    pub fn apply_result(&mut self, ok: bool)
        ensures
            final (self).state == step_spec(old(self).state, ok),
            final (self).canonical == old(self).canonical,
            final (self).target == old(self).target,
            final (self).tmp == old(self).tmp,
    {
        let next = match self.state {
            LinkState::Pending => if ok {
                LinkState::Renamed
            } else {
                LinkState::RenameFailed
            },
            LinkState::Renamed => if ok {
                LinkState::Linked
            } else {
                LinkState::LinkFailed
            },
            LinkState::Linked => if ok {
                LinkState::Completed
            } else {
                LinkState::BackupLeft
            },
            LinkState::LinkFailed => if ok {
                LinkState::Restored
            } else {
                LinkState::Stuck
            },
            LinkState::Completed => LinkState::Completed,
            LinkState::BackupLeft => LinkState::BackupLeft,
            LinkState::Restored => LinkState::Restored,
            LinkState::Stuck => LinkState::Stuck,
            LinkState::RenameFailed => LinkState::RenameFailed,
        };
        self.state = next;
    }

    /// Whether the target's space was freed.
    pub fn completed(&self) -> (r: bool)
        ensures
            r == (self.state is Completed),
    {
        match self.state {
            LinkState::Completed => true,
            _ => false,
        }
    }

    /// The bytes this target freed: its group's common size once the link
    /// completed and the temp name was removed, nothing in any other state.
    pub fn freed(&self, group_size: u64) -> (r: u64)
        ensures
            r == (if self.state is Completed {
                group_size
            } else {
                0u64
            }),
    {
        if self.completed() {
            group_size
        } else {
            0
        }
    }
}

/// The effect of a successful action on the path-to-inode map.
pub open spec fn action_effect(
    fs: Map<Seq<char>, u64>,
    a: LinkAction,
    canonical: Seq<char>,
    target: Seq<char>,
    tmp: Seq<char>,
) -> Map<Seq<char>, u64> {
    match a {
        LinkAction::RenameToTmp => fs.remove(target).insert(tmp, fs[target]),
        LinkAction::CreateLink => fs.insert(target, fs[canonical]),
        LinkAction::RemoveTmp => fs.remove(tmp),
        LinkAction::RestoreFromTmp => fs.remove(tmp).insert(target, fs[tmp]),
        LinkAction::Finished => fs,
    }
}

/// One target's whole run: from a state and a file system, apply each
/// outcome in turn until the machine is terminal or the outcomes run out.
/// A failed action leaves the file system unchanged.
pub open spec fn run_task(
    fs: Map<Seq<char>, u64>,
    st: LinkState,
    canonical: Seq<char>,
    target: Seq<char>,
    tmp: Seq<char>,
    events: Seq<bool>,
) -> (Map<Seq<char>, u64>, LinkState)
    decreases events.len(),
{
    if is_terminal(st) || events.len() == 0 {
        (fs, st)
    } else {
        let ok = events[0];
        let fs2 = if ok {
            action_effect(fs, action_of(st), canonical, target, tmp)
        } else {
            fs
        };
        run_task(fs2, step_spec(st, ok), canonical, target, tmp, events.skip(1))
    }
}

/// The precondition of a task: three distinct paths, the target and the
/// canonical file present, the temp name free.
pub open spec fn link_wf(
    fs: Map<Seq<char>, u64>,
    canonical: Seq<char>,
    target: Seq<char>,
    tmp: Seq<char>,
) -> bool {
    &&& canonical != target
    &&& canonical != tmp
    &&& target != tmp
    &&& fs.contains_key(target)
    &&& fs.contains_key(canonical)
    &&& !fs.contains_key(tmp)
}

/// Exactly what the file system looks like in each state of a run that
/// started from `fs0`.
pub open spec fn task_inv(
    fs0: Map<Seq<char>, u64>,
    fs: Map<Seq<char>, u64>,
    st: LinkState,
    canonical: Seq<char>,
    target: Seq<char>,
    tmp: Seq<char>,
) -> bool {
    let i0 = fs0[target];
    match st {
        LinkState::Pending => fs == fs0,
        LinkState::RenameFailed => fs == fs0,
        LinkState::Restored => fs == fs0,
        LinkState::Renamed => fs == fs0.remove(target).insert(tmp, i0),
        LinkState::LinkFailed => fs == fs0.remove(target).insert(tmp, i0),
        LinkState::Linked => fs == fs0.insert(tmp, i0).insert(target, fs0[canonical]),
        LinkState::BackupLeft => fs == fs0.insert(tmp, i0).insert(target, fs0[canonical]),
        LinkState::Completed => fs == fs0.insert(target, fs0[canonical]).remove(tmp),
        LinkState::Stuck => fs == fs0.remove(target).insert(tmp, i0),
    }
}

/// The invariant holds of every run from a well-formed start.
proof fn lemma_run_task_inv(
    fs0: Map<Seq<char>, u64>,
    fs: Map<Seq<char>, u64>,
    st: LinkState,
    canonical: Seq<char>,
    target: Seq<char>,
    tmp: Seq<char>,
    events: Seq<bool>,
)
    requires
        link_wf(fs0, canonical, target, tmp),
        task_inv(fs0, fs, st, canonical, target, tmp),
    ensures
        ({
            let (fs2, st2) = run_task(fs, st, canonical, target, tmp, events);
            task_inv(fs0, fs2, st2, canonical, target, tmp)
        }),
    decreases events.len(),
{
    if !(is_terminal(st) || events.len() == 0) {
        let ok = events[0];
        let fs2 = if ok {
            action_effect(fs, action_of(st), canonical, target, tmp)
        } else {
            fs
        };
        let st2 = step_spec(st, ok);
        assert(task_inv(fs0, fs2, st2, canonical, target, tmp)) by {
            let i0 = fs0[target];
            let ic = fs0[canonical];
            match st {
                LinkState::Pending => {
                    if ok {
                        assert(fs2 =~= fs0.remove(target).insert(tmp, i0));
                    }
                },
                LinkState::Renamed => {
                    if ok {
                        assert(fs[canonical] == ic);
                        assert(fs2 =~= fs0.insert(tmp, i0).insert(target, ic));
                    }
                },
                LinkState::Linked => {
                    if ok {
                        assert(fs2 =~= fs0.insert(target, ic).remove(tmp));
                    }
                },
                LinkState::LinkFailed => {
                    if ok {
                        assert(fs[tmp] == i0);
                        assert(fs2 =~= fs0);
                    }
                },
                _ => {},
            }
        }
        lemma_run_task_inv(fs0, fs2, st2, canonical, target, tmp, events.skip(1));
    }
}

/// Crash safety of the link action: whatever succeeds or fails, and at
/// every point of the run (every prefix of outcomes is itself a run), the
/// canonical file is untouched, and the target's content stays reachable —
/// at the target path (its old inode, or the canonical one once linked) or
/// at the temp name. The temp name exists only in the transient states and
/// the two explicitly stuck ones.
pub proof fn lemma_link_crash_safety(
    fs0: Map<Seq<char>, u64>,
    canonical: Seq<char>,
    target: Seq<char>,
    tmp: Seq<char>,
    events: Seq<bool>,
)
    requires
        link_wf(fs0, canonical, target, tmp),
    ensures
        ({
            let (fs, st) = run_task(fs0, LinkState::Pending, canonical, target, tmp, events);
            &&& fs.contains_key(canonical) && fs[canonical] == fs0[canonical]
            &&& (fs.contains_key(target) && (fs[target] == fs0[target] || fs[target]
                == fs0[canonical])) || (fs.contains_key(tmp) && fs[tmp] == fs0[target])
            &&& (st is Completed || st is Restored || st is RenameFailed || st is Pending)
                ==> !fs.contains_key(tmp)
            &&& st is Completed ==> fs.contains_key(target) && fs[target] == fs0[canonical]
            &&& (st is Restored || st is RenameFailed) ==> fs == fs0
        }),
{
    lemma_run_task_inv(fs0, fs0, LinkState::Pending, canonical, target, tmp, events);
}

/// Idempotence of the link action: when the target is already a hardlink
/// of the canonical file and every step succeeds, the run completes and
/// the file inventory is exactly what it was, with no temp name left.
pub proof fn lemma_link_idempotent(
    fs0: Map<Seq<char>, u64>,
    canonical: Seq<char>,
    target: Seq<char>,
    tmp: Seq<char>,
    events: Seq<bool>,
)
    requires
        link_wf(fs0, canonical, target, tmp),
        fs0[target] == fs0[canonical],
        events.len() >= 3,
        forall|i: int| 0 <= i < events.len() ==> events[i] == true,
    ensures
        ({
            let (fs, st) = run_task(fs0, LinkState::Pending, canonical, target, tmp, events);
            &&& st is Completed
            &&& fs == fs0
        }),
{
    lemma_run_task_inv(fs0, fs0, LinkState::Pending, canonical, target, tmp, events);
    lemma_run_all_ok(fs0, canonical, target, tmp, events);
    let (fs, st) = run_task(fs0, LinkState::Pending, canonical, target, tmp, events);
    assert(fs == fs0.insert(target, fs0[canonical]).remove(tmp));
    assert(fs =~= fs0);
}

/// With nothing but successes and at least three outcomes, a fresh task
/// completes.
proof fn lemma_run_all_ok(
    fs0: Map<Seq<char>, u64>,
    canonical: Seq<char>,
    target: Seq<char>,
    tmp: Seq<char>,
    events: Seq<bool>,
)
    requires
        events.len() >= 3,
        forall|i: int| 0 <= i < events.len() ==> events[i] == true,
    ensures
        run_task(fs0, LinkState::Pending, canonical, target, tmp, events).1 is Completed,
{
    let e1 = events.skip(1);
    let e2 = events.skip(2);
    let e3 = events.skip(3);
    assert(events[0] && e1[0] && e2[0]);
    assert(e1.skip(1) =~= e2);
    assert(e2.skip(1) =~= e3);
    let fs1 = action_effect(fs0, LinkAction::RenameToTmp, canonical, target, tmp);
    let fs2 = action_effect(fs1, LinkAction::CreateLink, canonical, target, tmp);
    let fs3 = action_effect(fs2, LinkAction::RemoveTmp, canonical, target, tmp);
    assert(run_task(fs0, LinkState::Pending, canonical, target, tmp, events) == run_task(
        fs1,
        LinkState::Renamed,
        canonical,
        target,
        tmp,
        e1,
    ));
    assert(run_task(fs1, LinkState::Renamed, canonical, target, tmp, e1) == run_task(
        fs2,
        LinkState::Linked,
        canonical,
        target,
        tmp,
        e2,
    ));
    assert(run_task(fs2, LinkState::Linked, canonical, target, tmp, e2) == run_task(
        fs3,
        LinkState::Completed,
        canonical,
        target,
        tmp,
        e3,
    ));
    lemma_run_terminal(fs3, LinkState::Completed, canonical, target, tmp, e3);
}

/// A terminal state stays put, whatever outcomes remain.
proof fn lemma_run_terminal(
    fs: Map<Seq<char>, u64>,
    st: LinkState,
    canonical: Seq<char>,
    target: Seq<char>,
    tmp: Seq<char>,
    events: Seq<bool>,
)
    requires
        is_terminal(st),
    ensures
        run_task(fs, st, canonical, target, tmp, events) == (fs, st),
{
}

} // verus!
