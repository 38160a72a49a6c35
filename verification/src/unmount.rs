//! How a mount is taken down from another process.

use crate::text::copy_text;
use vstd::prelude::*;
use vstd::string::*;

verus! {

/// How often the kernel's list is looked at before a mount is not waited for any longer.
pub const RELEASE_LOOKS: u32 = 50;

/// How often the process is looked at before it is killed.
pub const EXIT_LOOKS: u32 = 20;

/// How far an unmount has come.
#[derive(Debug, Clone, Copy, PartialEq, Eq, Structural)]
pub enum UnmountStage {
    Start,
    /// The process was told to end, and is to give the mount back
    Releasing { looks: u32 },
    /// The process is to end
    Exiting { looks: u32 },
    /// The process is gone
    Exited,
    /// Nothing is known of the mount any longer; the kernel may still have it
    Ending,
    Over,
}

/// What an unmount does next.
#[derive(Debug, Clone, Copy, PartialEq, Eq, Structural)]
pub enum UnmountAction {
    /// Tell the process to end
    Terminate,
    /// Wait for a moment
    Wait,
    /// Go on at once
    Proceed,
    /// End the process
    Kill,
    /// Forget the record of the mount
    Forget,
    /// Forget the record of the mount, and say that the process would not let go
    Insist,
    /// Say how it ended
    Finish(UnmountEnd),
}

/// How an unmount ends.
#[derive(Debug, Clone, Copy, PartialEq, Eq, Structural)]
pub enum UnmountEnd {
    /// The process gave the mount back: its record, which the process removes, must not stay
    Released,
    /// The kernel still has the mount: it is taken away by force
    Force,
    /// There was no mount
    NotMounted,
    /// There was only what a crash left behind
    CleanedUp,
}

/// What there is to see: a record of the mount, its process, the mount itself.
#[derive(Debug, Clone, Copy, PartialEq, Eq, Structural)]
pub struct Sight {
    pub known: bool,
    pub alive: bool,
    pub mounted: bool,
}

/// The step of an unmount from a stage.
pub open spec fn step_of(stage: UnmountStage, s: Sight) -> (UnmountStage, UnmountAction) {
    match stage {
        UnmountStage::Start => if s.known && s.alive {
            (UnmountStage::Releasing { looks: RELEASE_LOOKS }, UnmountAction::Terminate)
        } else {
            (UnmountStage::Ending, UnmountAction::Forget)
        },
        UnmountStage::Releasing { looks } => if s.mounted && looks > 0 {
            (UnmountStage::Releasing { looks: (looks - 1) as u32 }, UnmountAction::Wait)
        } else {
            (UnmountStage::Exiting { looks: EXIT_LOOKS }, UnmountAction::Proceed)
        },
        UnmountStage::Exiting { looks } => if !s.alive {
            (UnmountStage::Exited, UnmountAction::Proceed)
        } else if looks > 0 {
            (UnmountStage::Exiting { looks: (looks - 1) as u32 }, UnmountAction::Wait)
        } else {
            (UnmountStage::Exited, UnmountAction::Kill)
        },
        UnmountStage::Exited => if s.mounted {
            (UnmountStage::Ending, UnmountAction::Insist)
        } else {
            (UnmountStage::Over, UnmountAction::Finish(UnmountEnd::Released))
        },
        UnmountStage::Ending | UnmountStage::Over => (
            UnmountStage::Over,
            UnmountAction::Finish(end_of(s)),
        ),
    }
}

/// How an unmount ends where no process gave the mount back.
pub open spec fn end_of(s: Sight) -> UnmountEnd {
    if s.mounted {
        UnmountEnd::Force
    } else if s.known {
        UnmountEnd::CleanedUp
    } else {
        UnmountEnd::NotMounted
    }
}

/// Takes the next step of an unmount, by what there is to see now. `known` is whether there was a
/// record of the mount at the start.
pub fn unmount_step(stage: UnmountStage, sight: Sight) -> (r: (UnmountStage, UnmountAction))
    ensures
        r == step_of(stage, sight),
{
    match stage {
        UnmountStage::Start => {
            if sight.known && sight.alive {
                (UnmountStage::Releasing { looks: RELEASE_LOOKS }, UnmountAction::Terminate)
            } else {
                (UnmountStage::Ending, UnmountAction::Forget)
            }
        },
        UnmountStage::Releasing { looks } => {
            if sight.mounted && looks > 0 {
                (UnmountStage::Releasing { looks: looks - 1 }, UnmountAction::Wait)
            } else {
                (UnmountStage::Exiting { looks: EXIT_LOOKS }, UnmountAction::Proceed)
            }
        },
        UnmountStage::Exiting { looks } => {
            if !sight.alive {
                (UnmountStage::Exited, UnmountAction::Proceed)
            } else if looks > 0 {
                (UnmountStage::Exiting { looks: looks - 1 }, UnmountAction::Wait)
            } else {
                (UnmountStage::Exited, UnmountAction::Kill)
            }
        },
        UnmountStage::Exited => {
            if sight.mounted {
                (UnmountStage::Ending, UnmountAction::Insist)
            } else {
                (UnmountStage::Over, UnmountAction::Finish(UnmountEnd::Released))
            }
        },
        UnmountStage::Ending | UnmountStage::Over => {
            let end = if sight.mounted {
                UnmountEnd::Force
            } else if sight.known {
                UnmountEnd::CleanedUp
            } else {
                UnmountEnd::NotMounted
            };
            (UnmountStage::Over, UnmountAction::Finish(end))
        },
    }
}

/// What is said at the end of an unmount.
pub open spec fn end_text(end: UnmountEnd, mountpoint: Seq<char>) -> Seq<char> {
    match end {
        UnmountEnd::Released => "unmounted "@ + mountpoint,
        UnmountEnd::Force => "unmounted "@ + mountpoint + " (forced)"@,
        UnmountEnd::NotMounted => mountpoint + " is not mounted"@,
        UnmountEnd::CleanedUp => "cleaned up stale mount "@ + mountpoint,
    }
}

/// Says how an unmount ended.
pub fn end_line(end: UnmountEnd, mountpoint: &str) -> (r: String)
    ensures
        r@ == end_text(end, mountpoint@),
{
    match end {
        UnmountEnd::Released => {
            let mut out = copy_text("unmounted ");
            out.append(mountpoint);
            out
        },
        UnmountEnd::Force => {
            let mut out = copy_text("unmounted ");
            out.append(mountpoint);
            out.append(" (forced)");
            out
        },
        UnmountEnd::NotMounted => {
            let mut out = copy_text(mountpoint);
            out.append(" is not mounted");
            out
        },
        UnmountEnd::CleanedUp => {
            let mut out = copy_text("cleaned up stale mount ");
            out.append(mountpoint);
            out
        },
    }
}

// ── whole runs ───────────────────────────────────────────────────────────────

/// The stage after some steps from the start.
pub open spec fn stage_after(seen: Seq<Sight>) -> UnmountStage
    decreases seen.len(),
{
    if seen.len() == 0 {
        UnmountStage::Start
    } else {
        step_of(stage_after(seen.drop_last()), seen.last()).0
    }
}

/// What is done in some step of a run.
pub open spec fn action_at(seen: Seq<Sight>, i: int) -> UnmountAction {
    step_of(stage_after(seen.take(i)), seen[i]).1
}

/// How many steps there can still be.
pub open spec fn steps_left(stage: UnmountStage) -> nat {
    match stage {
        UnmountStage::Start => (RELEASE_LOOKS + EXIT_LOOKS + 5) as nat,
        UnmountStage::Releasing { looks } => (looks + EXIT_LOOKS + 4) as nat,
        UnmountStage::Exiting { looks } => (looks + 3) as nat,
        UnmountStage::Exited => 2,
        UnmountStage::Ending => 1,
        UnmountStage::Over => 0,
    }
}

/// Whatever there is to see, an unmount comes to its end, after no more looks than it has.
pub proof fn law_unmount_ends(seen: Seq<Sight>)
    ensures
        steps_left(stage_after(seen)) + seen.len() <= RELEASE_LOOKS + EXIT_LOOKS + 5
            || stage_after(seen) == UnmountStage::Over,
        seen.len() >= RELEASE_LOOKS + EXIT_LOOKS + 5 ==> stage_after(seen) == UnmountStage::Over,
    decreases seen.len(),
{
    if seen.len() > 0 {
        law_unmount_ends(seen.drop_last());
    }
}

/// A process is told to end, once, before anything else is done, and only where there is a record
/// of it and it runs; it is killed only after that, and only where it still runs.
pub proof fn law_processes_are_asked_first(seen: Seq<Sight>, i: int)
    requires
        0 <= i < seen.len(),
    ensures
        action_at(seen, i) == UnmountAction::Terminate <==> i == 0 && seen[0].known
            && seen[0].alive,
        action_at(seen, i) == UnmountAction::Kill ==> action_at(seen, 0)
            == UnmountAction::Terminate && seen[i].alive,
{
    lemma_was_asked(seen.take(i));
    if i > 0 {
        assert(seen.take(i).take(0) =~= seen.take(0));
        assert(seen.take(i)[0] == seen[0]);
        assert(action_at(seen.take(i), 0) == action_at(seen, 0));
    }
}

/// After the first step no stage is the start, and one that waits for a process comes after it
/// was told to end.
proof fn lemma_was_asked(seen: Seq<Sight>)
    ensures
        seen.len() > 0 ==> stage_after(seen) != UnmountStage::Start,
        (stage_after(seen) is Releasing || stage_after(seen) is Exiting || stage_after(
            seen,
        ) is Exited) ==> seen.len() > 0 && action_at(seen, 0) == UnmountAction::Terminate,
    decreases seen.len(),
{
    if seen.len() > 0 {
        let before = seen.drop_last();
        lemma_was_asked(before);
        if before.len() > 0 {
            assert(before.take(0) =~= seen.take(0));
            assert(action_at(before, 0) == action_at(seen, 0));
        } else {
            assert(seen.take(0) =~= before);
        }
    }
}

/// An unmount takes a mount away by force exactly where it ends and the kernel still has it, and
/// so never says that a mount is gone that the kernel has.
pub proof fn law_ends_are_true(stage: UnmountStage, s: Sight)
    ensures
        (match step_of(stage, s).1 {
            UnmountAction::Finish(end) => end == UnmountEnd::Force <==> s.mounted,
            _ => true,
        }),
{
}

/// How a run ends is told by what there was to see: a process that gave the mount back, a mount
/// that the kernel still has, a record that a crash left behind, or nothing at all. What is known
/// of a mount is forgotten before it is taken away by force or is said to have been left behind.
pub proof fn law_how_it_ends(stage: UnmountStage, s: Sight)
    ensures
        (match step_of(stage, s) {
            (next, UnmountAction::Finish(end)) => {
                &&& next == UnmountStage::Over
                &&& stage is Exited || stage is Ending || stage is Over
                &&& end == UnmountEnd::Released <==> stage is Exited
                &&& end == UnmountEnd::CleanedUp ==> s.known && !s.mounted
                &&& end == UnmountEnd::NotMounted ==> !s.known && !s.mounted
            },
            (next, UnmountAction::Forget) => stage is Start && next == UnmountStage::Ending && !(
            s.known && s.alive),
            (next, UnmountAction::Insist) => stage is Exited && next == UnmountStage::Ending
                && s.mounted,
            (next, _) => !(next is Ending) && !(next is Over),
        }),
        stage is Start && !(s.known && s.alive) ==> step_of(stage, s).1 == UnmountAction::Forget,
{
}

/// A process that was told to end is given its time: while it holds the mount, the kernel's list
/// is looked at fifty times, and a process that still runs then is looked at twenty times before
/// it is killed.
pub proof fn law_processes_are_given_time(stage: UnmountStage, s: Sight)
    ensures
        stage is Start && s.known && s.alive ==> step_of(stage, s).0 == (UnmountStage::Releasing {
            looks: 50,
        }),
        stage matches UnmountStage::Releasing { looks } ==> {
            &&& s.mounted && looks > 0 ==> step_of(stage, s) == (
                UnmountStage::Releasing { looks: (looks - 1) as u32 },
                UnmountAction::Wait,
            )
            &&& !s.mounted || looks == 0 ==> step_of(stage, s) == (
                UnmountStage::Exiting { looks: 20 },
                UnmountAction::Proceed,
            )
        },
        stage matches UnmountStage::Exiting { looks } ==> {
            &&& s.alive && looks > 0 ==> step_of(stage, s) == (
                UnmountStage::Exiting { looks: (looks - 1) as u32 },
                UnmountAction::Wait,
            )
            &&& s.alive && looks == 0 ==> step_of(stage, s).1 == UnmountAction::Kill
            &&& !s.alive ==> step_of(stage, s) == (UnmountStage::Exited, UnmountAction::Proceed)
        },
{
}

} // verus!
