//! The state on disk: how it is loaded and how it is replaced.

use crate::state::{FollowState, FollowView};
use vstd::prelude::*;

verus! {

/// What was found where the state is stored.
#[derive(Debug)]
pub enum Stored {
    /// A state.
    State(FollowState),
    /// Something that is no state.
    Invalid,
    /// Nothing.
    Missing,
    /// Something that cannot be read.
    Unreadable,
}

/// The state to go on with: the stored one, or a fresh one where none is stored. Where the stored
/// one is invalid or cannot be read, the followers pause.
pub fn initial_state(stored: Stored) -> (r: Option<FollowState>)
    ensures
        match stored {
            Stored::State(state) => r == Some(state),
            Stored::Missing => r is Some && r->0@ == FollowView::fresh(),
            Stored::Invalid | Stored::Unreadable => r is None,
        },
{
    match stored {
        Stored::State(state) => Some(state),
        Stored::Missing => Some(FollowState::default()),
        Stored::Invalid | Stored::Unreadable => None,
    }
}

/// How the stored state is replaced, step by step.
#[derive(Clone, Copy, PartialEq, Eq, Structural, Debug)]
pub enum SaveStep {
    /// Write the new state to a temporary file beside the stored one.
    WriteTemporary,
    /// Rename the temporary file to the stored one.
    Rename,
    /// See whether there is a stored file.
    LookForTarget,
    /// Remove the stored file.
    RemoveTarget,
    /// Rename the temporary file once more.
    RenameAgain,
    /// Nothing: the state is stored.
    Saved,
    /// Nothing: the state could not be stored.
    Failed,
}

/// The step after one that succeeded or failed; to look for the target succeeds where there is
/// one.
pub open spec fn save_step_after(step: SaveStep, success: bool) -> SaveStep {
    match (step, success) {
        (SaveStep::WriteTemporary, true) => SaveStep::Rename,
        (SaveStep::Rename, true) => SaveStep::Saved,
        (SaveStep::Rename, false) => SaveStep::LookForTarget,
        (SaveStep::LookForTarget, true) => SaveStep::RemoveTarget,
        (SaveStep::RemoveTarget, true) => SaveStep::RenameAgain,
        (SaveStep::RenameAgain, true) => SaveStep::Saved,
        (SaveStep::Saved, _) => SaveStep::Saved,
        _ => SaveStep::Failed,
    }
}

impl SaveStep {
    /// The step after this one has succeeded or failed.
    pub fn next(&self, success: bool) -> (r: SaveStep)
        ensures
            r == save_step_after(*self, success),
    {
        match (*self, success) {
            (SaveStep::WriteTemporary, true) => SaveStep::Rename,
            (SaveStep::Rename, true) => SaveStep::Saved,
            (SaveStep::Rename, false) => SaveStep::LookForTarget,
            (SaveStep::LookForTarget, true) => SaveStep::RemoveTarget,
            (SaveStep::RemoveTarget, true) => SaveStep::RenameAgain,
            (SaveStep::RenameAgain, true) => SaveStep::Saved,
            (SaveStep::Saved, _) => SaveStep::Saved,
            _ => SaveStep::Failed,
        }
    }
}

/// The stored file and the temporary one, where they are there, by their contents.
#[verifier::ext_equal]
pub struct Files {
    /// The stored file.
    pub target: Option<Seq<u8>>,
    /// The temporary file.
    pub temporary: Option<Seq<u8>>,
}

/// The files may be `after` once a step was carried out on `before` to store `contents`. A write
/// that fails may leave anything in the temporary file; any other step that fails changes
/// nothing.
pub open spec fn carried_out(
    step: SaveStep,
    success: bool,
    contents: Seq<u8>,
    before: Files,
    after: Files,
) -> bool {
    match step {
        SaveStep::WriteTemporary => {
            &&& after.target == before.target
            &&& success ==> after.temporary == Some(contents)
        },
        SaveStep::Rename | SaveStep::RenameAgain => if success {
            before.temporary is Some && after == (Files {
                target: before.temporary,
                temporary: None,
            })
        } else {
            after == before
        },
        SaveStep::LookForTarget => after == before && success == (before.target is Some),
        SaveStep::RemoveTarget => after == (if success {
            Files { target: None, ..before }
        } else {
            before
        }),
        SaveStep::Saved | SaveStep::Failed => after == before,
    }
}

/// What holds of the files while `contents` replaces `old`: as long as the stored file is not
/// removed it holds the old state, from then on the temporary file holds the new one, and in the
/// end the stored file holds the new one and no temporary file is left.
pub open spec fn save_safe(
    step: SaveStep,
    old_contents: Option<Seq<u8>>,
    contents: Seq<u8>,
    files: Files,
) -> bool {
    match step {
        SaveStep::WriteTemporary => files.target == old_contents,
        SaveStep::Rename | SaveStep::LookForTarget | SaveStep::RemoveTarget => files.target
            == old_contents && files.temporary == Some(contents),
        SaveStep::RenameAgain => files.target is None && files.temporary == Some(contents),
        SaveStep::Saved => files.target == Some(contents) && files.temporary is None,
        SaveStep::Failed => files.target == old_contents || files.temporary == Some(contents),
    }
}

/// Whichever steps fail, the old state or the new one is still on disk, complete; and where the
/// replacement ends well the stored file holds the new one and no temporary file is left.
pub proof fn law_save_keeps_a_state(
    step: SaveStep,
    success: bool,
    old_contents: Option<Seq<u8>>,
    contents: Seq<u8>,
    before: Files,
    after: Files,
)
    requires
        save_safe(step, old_contents, contents, before),
        carried_out(step, success, contents, before, after),
    ensures
        save_safe(save_step_after(step, success), old_contents, contents, after),
        after.target == old_contents || after.target == Some(contents) || after.temporary == Some(
            contents,
        ),
{
}

/// What came of a step: whether it succeeded, and the files after it.
pub struct Outcome {
    /// Whether the step succeeded.
    pub success: bool,
    /// The files after it.
    pub files: Files,
}

/// The step that a replacement comes to, and the files, after a list of outcomes.
pub open spec fn save_run(files: Files, outcomes: Seq<Outcome>) -> (SaveStep, Files)
    decreases outcomes.len(),
{
    if outcomes.len() == 0 {
        (SaveStep::WriteTemporary, files)
    } else {
        let (step, _) = save_run(files, outcomes.drop_last());
        (save_step_after(step, outcomes.last().success), outcomes.last().files)
    }
}

/// The outcomes can come about, one after the other, while `contents` is stored.
pub open spec fn save_possible(files: Files, contents: Seq<u8>, outcomes: Seq<Outcome>) -> bool
    decreases outcomes.len(),
{
    outcomes.len() == 0 || {
        let (step, before) = save_run(files, outcomes.drop_last());
        &&& save_possible(files, contents, outcomes.drop_last())
        &&& carried_out(step, outcomes.last().success, contents, before, outcomes.last().files)
    }
}

/// A replacement that ends well leaves the new contents where the state is stored, whatever was
/// stored there before, and no temporary file. One that ends otherwise leaves the old contents
/// stored, or the new ones complete in the temporary file; and where the temporary file cannot be
/// written the stored file is unchanged.
pub proof fn law_save(files: Files, contents: Seq<u8>, outcomes: Seq<Outcome>)
    requires
        save_possible(files, contents, outcomes),
    ensures
        ({
            let (step, after) = save_run(files, outcomes);
            &&& save_safe(step, files.target, contents, after)
            &&& step == SaveStep::Saved ==> after == (Files {
                target: Some(contents),
                temporary: None,
            })
            &&& step == SaveStep::Failed ==> after.target == files.target || after.temporary
                == Some(contents)
            &&& outcomes.len() > 0 && !outcomes[0].success ==> step == SaveStep::Failed
                && after.target == files.target
        }),
    decreases outcomes.len(),
{
    if outcomes.len() > 0 {
        let front = outcomes.drop_last();
        law_save(files, contents, front);
        let (step, before) = save_run(files, front);
        law_save_keeps_a_state(
            step,
            outcomes.last().success,
            files.target,
            contents,
            before,
            outcomes.last().files,
        );
        if front.len() == 0 {
            assert(save_run(files, front) == (SaveStep::WriteTemporary, files));
        } else {
            assert(front[0] == outcomes[0]);
        }
    }
}

/// A replacement comes to its end after five steps at most. It ends well just where the temporary
/// file is written and renamed, at once or, where there is a stored file, after that was removed.
pub proof fn law_save_comes_to_its_end(files: Files, outcomes: Seq<Outcome>)
    ensures
        ({
            let step = save_run(files, outcomes).0;
            &&& outcomes.len() >= 5 ==> step == SaveStep::Saved || step == SaveStep::Failed
            &&& outcomes.len() >= 5 ==> (step == SaveStep::Saved <==> outcomes[0].success && (
            outcomes[1].success || (outcomes[2].success && outcomes[3].success
                && outcomes[4].success)))
            &&& outcomes.len() == 2 && outcomes[0].success && outcomes[1].success ==> step
                == SaveStep::Saved
            &&& outcomes.len() == 3 && outcomes[0].success && !outcomes[1].success ==> step == (if
                outcomes[2].success {
                SaveStep::RemoveTarget
            } else {
                SaveStep::Failed
            })
        }),
    decreases outcomes.len(),
{
    if outcomes.len() > 5 {
        law_save_comes_to_its_end(files, outcomes.drop_last());
    } else {
        let a = outcomes.drop_last();
        let b = a.drop_last();
        let c = b.drop_last();
        let d = c.drop_last();
        if outcomes.len() == 5 {
            assert(a.last() == outcomes[3] && b.last() == outcomes[2] && c.last() == outcomes[1]
                && d.last() == outcomes[0]);
        }
        if outcomes.len() == 3 {
            assert(a.last() == outcomes[1] && b.last() == outcomes[0]);
        }
        if outcomes.len() == 2 {
            assert(a.last() == outcomes[0]);
        }
        reveal_with_fuel(save_run, 6);
    }
}

} // verus!
