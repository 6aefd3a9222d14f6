//! Saving dictionaries safely: a single rolling `<file>.backup` is written before the file
//! itself is replaced, and a group save puts back the files it already replaced when a later
//! one fails.
use vstd::prelude::*;
use crate::deployer::Platform;
use crate::paths::{dictionary_file_name, has_dictionary_file_name, same_path, paths_equal, string_texts};
use crate::text::{concat, copy_string};

verus! {

/// One dictionary to save: its path and its new text.
pub struct DictionaryWrite {
    pub path: String,
    pub content: String,
}

/// The path of a dictionary's rolling backup: `<path>.backup`.
pub open spec fn backup_path_of(path: Seq<char>) -> Seq<char> {
    path + ".backup"@
}

/// The path of the rolling backup of `path`.
pub fn backup_path(path: &str) -> (r: String)
    ensures
        r@ == backup_path_of(path@),
{
    concat(path, ".backup")
}

/// One step of a single-file save.
pub enum SaveStep {
    /// Copy the file at `from` to `to`, replacing it.
    CopyFile { from: String, to: String },
    /// Replace the file at `path` with `text`, atomically.
    WriteText { path: String, text: String },
}

/// The error for a save target that is not an existing `.dict.yaml` file.
pub open spec fn invalid_target_text() -> Seq<char> {
    "目标必须是现有的 .dict.yaml 文件"@
}

/// The steps that save `content` to the dictionary at `path`: copy it to `<path>.backup`,
/// then replace it atomically. The target must be an existing file (which the caller looked
/// up) whose name ends with `.dict.yaml`; otherwise nothing is done and the save fails.
/// The caller runs the steps in order and stops at the first that fails, with its error.
pub fn safe_save(platform: Platform, path: &str, content: String, path_is_file: bool) -> (r: Result<Vec<SaveStep>, String>)
    ensures
        r is Ok <==> path_is_file && has_dictionary_file_name(platform, path@),
        r matches Err(e) ==> e@ == invalid_target_text(),
        r matches Ok(steps) ==> {
            &&& steps@.len() == 2
            &&& steps@[0] matches SaveStep::CopyFile { from, to } && from@ == path@ && to@
                == backup_path_of(path@)
            &&& steps@[1] matches SaveStep::WriteText { path: p, text } && p@ == path@ && text
                == content
        },
{
    if !path_is_file || !dictionary_file_name(platform, path) {
        proof {
            reveal_strlit("目标必须是现有的 .dict.yaml 文件");
        }
        return Err(String::from_str("目标必须是现有的 .dict.yaml 文件"));
    }
    let mut steps: Vec<SaveStep> = Vec::new();
    steps.push(SaveStep::CopyFile { from: String::from_str(path), to: backup_path(path) });
    steps.push(SaveStep::WriteText { path: String::from_str(path), text: content });
    Ok(steps)
}

/// Where a group save stands.
#[derive(Clone, Copy, Debug, PartialEq, Eq, Structural)]
pub enum SavePhase {
    /// Checking the target at `index` and reading its current bytes.
    Checking,
    /// Waiting for the current bytes of the target at `index`.
    Reading,
    /// Writing the backup of the target at `index`.
    BackingUp,
    /// Writing the new text of the target at `index`.
    Writing,
    /// Putting back the original bytes of the target at `index`, after a failed write.
    RollingBack,
    /// The save is over.
    Finished,
}

/// What the caller must do next for a group save.
pub enum SaveAction {
    /// Find out whether `path` is a file.
    CheckTarget { path: String },
    /// Read the bytes of the file at `path`.
    ReadOriginal { path: String },
    /// Write `bytes` to `path` with the save's writer.
    WriteBytes { path: String, bytes: Vec<u8> },
    /// Write `text` to `path` with the save's writer.
    WriteText { path: String, text: String },
    /// The save is over, with this result.
    Finish { result: Result<(), String> },
}

/// What the caller learned by doing the last action.
pub enum SaveEvent {
    /// Whether the target is a file.
    TargetChecked { is_file: bool },
    /// The bytes of the target, or the error of reading it.
    OriginalRead { result: Result<Vec<u8>, String> },
    /// The result of the last write.
    Written { outcome: Result<(), String> },
}

/// A group save in progress.
pub struct SaveMany {
    pub platform: Platform,
    pub writes: Vec<DictionaryWrite>,
    pub originals: Vec<Vec<u8>>,
    pub phase: SavePhase,
    pub index: usize,
    pub failed_at: usize,
    pub failure: String,
    pub rollback_errors: Vec<String>,
    pub backups_done: Ghost<nat>,
    pub texts_done: Ghost<nat>,
    pub restored: Ghost<nat>,
}

/// The error for a group save with a target that is not an existing `.dict.yaml` file, or
/// that is named twice.
pub open spec fn invalid_group_target_text() -> Seq<char> {
    "invalid-or-duplicate-dictionary-path"@
}

/// `parts` joined with `sep`.
pub open spec fn join_with(parts: Seq<Seq<char>>, sep: Seq<char>) -> Seq<char>
    decreases parts.len(),
{
    if parts.len() == 0 {
        seq![]
    } else if parts.len() == 1 {
        parts[0]
    } else {
        join_with(parts.drop_last(), sep) + sep + parts.last()
    }
}

/// The error of a group save whose write failed with `failure`, when putting back the
/// earlier files failed with `rollback_errors`: the failure alone when nothing else failed,
/// otherwise `<failure>; rollback-failed: <errors joined with ", ">`.
pub open spec fn rollback_message(failure: Seq<char>, rollback_errors: Seq<Seq<char>>) -> Seq<char> {
    if rollback_errors.len() == 0 {
        failure
    } else {
        failure + "; rollback-failed: "@ + join_with(rollback_errors, ", "@)
    }
}

/// Whether the target at `i` may be saved, given whether it is a file: its name ends with
/// `.dict.yaml` and no earlier target is the same path.
pub open spec fn valid_target(platform: Platform, writes: Seq<DictionaryWrite>, i: int, is_file: bool) -> bool {
    &&& is_file
    &&& has_dictionary_file_name(platform, writes[i].path@)
    &&& forall|k: int| 0 <= k < i ==> !same_path(platform, #[trigger] writes[k].path@, writes[i].path@)
}

impl SaveMany {
    /// The targets of the save.
    pub open spec fn targets(&self) -> Seq<DictionaryWrite> {
        self.writes@
    }

    /// The bytes of the targets read so far, before the save wrote anything.
    pub open spec fn original_bytes(&self) -> Seq<Seq<u8>> {
        self.originals@.map_values(|b: Vec<u8>| b@)
    }

    /// Where the save stands.
    pub open spec fn phase_of(&self) -> SavePhase {
        self.phase
    }

    /// The target the save is at.
    pub open spec fn at(&self) -> int {
        self.index as int
    }

    /// The target whose write failed, during a rollback.
    pub open spec fn failed_index(&self) -> int {
        self.failed_at as int
    }

    /// How many backups were written successfully.
    pub open spec fn backups_written(&self) -> nat {
        self.backups_done@
    }

    /// How many new texts were written successfully.
    pub open spec fn texts_written(&self) -> nat {
        self.texts_done@
    }

    /// How many targets were sent their original bytes back.
    pub open spec fn restored_count(&self) -> nat {
        self.restored@
    }

    /// The state is consistent: the originals read so far match the targets checked so far,
    /// and the index stays within the targets.
    pub open spec fn wf(&self) -> bool {
        let n = self.writes@.len();
        &&& self.index <= n
        &&& (self.phase == SavePhase::Checking || self.phase == SavePhase::Reading) ==> {
            &&& self.originals@.len() == self.index
            &&& self.index < n
            &&& self.backups_done@ == 0
            &&& self.texts_done@ == 0
        }
        &&& self.phase == SavePhase::BackingUp ==> {
            &&& self.originals@.len() == n
            &&& self.index < n
            &&& self.backups_done@ == self.index
            &&& self.texts_done@ == 0
        }
        &&& self.phase == SavePhase::Writing ==> {
            &&& self.originals@.len() == n
            &&& self.index < n
            &&& self.backups_done@ == n
            &&& self.texts_done@ == self.index
        }
        &&& self.phase == SavePhase::RollingBack ==> {
            &&& self.originals@.len() == n
            &&& self.index < self.failed_at
            &&& self.failed_at < n
            &&& self.backups_done@ == n
            &&& self.texts_done@ == self.failed_at
            &&& self.restored@ == self.index
        }
    }

    /// Whether the save waits for `event`.
    pub open spec fn expects(&self, event: SaveEvent) -> bool {
        match self.phase {
            SavePhase::Checking => event is TargetChecked,
            SavePhase::Reading => event is OriginalRead,
            SavePhase::BackingUp | SavePhase::Writing | SavePhase::RollingBack => event is Written,
            SavePhase::Finished => false,
        }
    }

    /// Whether `action` is what a save in state `s` asks for: check the target at the index;
    /// read it; write its backup; write its new text; put back its original bytes; or, once
    /// over, finish.
    pub open spec fn asks(s: SaveMany, action: SaveAction) -> bool {
        let i = s.index as int;
        match s.phase {
            SavePhase::Checking => action matches SaveAction::CheckTarget { path } && path@ == s.writes@[i].path@,
            SavePhase::Reading => action matches SaveAction::ReadOriginal { path } && path@ == s.writes@[i].path@,
            SavePhase::BackingUp => action matches SaveAction::WriteBytes { path, bytes } && path@
                == backup_path_of(s.writes@[i].path@) && bytes@ == s.originals@[i]@,
            SavePhase::Writing => action matches SaveAction::WriteText { path, text } && path@
                == s.writes@[i].path@ && text@ == s.writes@[i].content@,
            SavePhase::RollingBack => action matches SaveAction::WriteBytes { path, bytes } && path@
                == s.writes@[i].path@ && bytes@ == s.originals@[i]@,
            SavePhase::Finished => action is Finish,
        }
    }

    /// Where a save continues when it is ready for `phase` at `index`: the phase itself
    /// while it has a target at `index` (a rollback only up to the failed target), else the
    /// next phase from its first target (checking, then backing up, then writing), else
    /// the end.
    pub open spec fn settle(n: int, failed_at: int, phase: SavePhase, index: int) -> (SavePhase, int) {
        match phase {
            SavePhase::Checking => if index < n {
                (SavePhase::Checking, index)
            } else if 0 < n {
                (SavePhase::BackingUp, 0)
            } else {
                (SavePhase::Finished, 0)
            },
            SavePhase::BackingUp => if index < n {
                (SavePhase::BackingUp, index)
            } else if 0 < n {
                (SavePhase::Writing, 0)
            } else {
                (SavePhase::Finished, 0)
            },
            SavePhase::Writing => if index < n {
                (SavePhase::Writing, index)
            } else {
                (SavePhase::Finished, 0)
            },
            SavePhase::RollingBack => if index < failed_at {
                (SavePhase::RollingBack, index)
            } else {
                (SavePhase::Finished, 0)
            },
            _ => (SavePhase::Finished, 0),
        }
    }

    /// Whether the save went from `old` to `new`, answering `action`, when it became ready
    /// for `phase` at `index`, with these originals, this failure and these rollback errors:
    /// it settles where `settle` says and asks for that target's step; at the end it
    /// finishes, with `Ok` unless it was rolling back, and then with the rollback message.
    pub open spec fn proceeded(
        old: SaveMany,
        phase: SavePhase,
        index: int,
        originals: Seq<Vec<u8>>,
        failed_at: int,
        failure: Seq<char>,
        rollback_errors: Seq<String>,
        new: SaveMany,
        action: SaveAction,
    ) -> bool {
        let n = old.writes@.len() as int;
        let (p, i) = SaveMany::settle(n, failed_at, phase, index);
        &&& new.platform == old.platform
        &&& new.writes == old.writes
        &&& new.originals@ == originals
        &&& new.failed_at == failed_at
        &&& new.failure@ == failure
        &&& new.rollback_errors@ == rollback_errors
        &&& new.phase == p
        &&& p != SavePhase::Finished ==> new.index == i && SaveMany::asks(new, action)
        &&& p == SavePhase::Finished ==> (action matches SaveAction::Finish { result } && if phase
            == SavePhase::RollingBack {
            result matches Err(e) && e@ == rollback_message(failure, string_texts(rollback_errors))
        } else {
            result is Ok
        })
    }

    /// Whether the save went from `old` to `new`, answering `action`, on `event`:
    /// - a target that is not a file, whose name does not end with `.dict.yaml`, or that is
    ///   the same path as an earlier target ends the save with
    ///   `invalid-or-duplicate-dictionary-path`; a valid one is read;
    /// - a read error ends the save with it; the bytes read are kept, and the next target is
    ///   checked; after the last, the backups are written;
    /// - a failed backup ends the save with its error; after the last backup, the new texts
    ///   are written;
    /// - a failed text write starts the rollback of the targets before it; after the last
    ///   text, the save succeeds;
    /// - a failed rollback write adds `<path>: <error>` to the rollback errors; after the last
    ///   one, the save fails with the rollback message.
    pub open spec fn after_event(old: SaveMany, event: SaveEvent, new: SaveMany, action: SaveAction) -> bool {
        let i = old.index as int;
        let errs = old.rollback_errors@;
        &&& new.backups_done@ == old.backups_done@ + (if old.phase == SavePhase::BackingUp && event matches SaveEvent::Written { outcome: Ok(()) } { 1nat } else { 0nat })
        &&& new.texts_done@ == old.texts_done@ + (if old.phase == SavePhase::Writing && event matches SaveEvent::Written { outcome: Ok(()) } { 1nat } else { 0nat })
        &&& new.restored@ == if old.phase == SavePhase::Writing && event matches SaveEvent::Written { outcome: Err(_) } {
            0nat
        } else {
            old.restored@ + (if old.phase == SavePhase::RollingBack { 1nat } else { 0nat })
        }
        &&& match event {
            SaveEvent::TargetChecked { is_file } => if valid_target(old.platform, old.writes@, i, is_file) {
                &&& new.platform == old.platform
                &&& new.writes == old.writes
                &&& new.originals == old.originals
                &&& new.rollback_errors == old.rollback_errors
                &&& new.phase == SavePhase::Reading
                &&& new.index == old.index
                &&& SaveMany::asks(new, action)
            } else {
                &&& new.phase == SavePhase::Finished
                &&& action matches SaveAction::Finish { result: Err(e) } && e@ == invalid_group_target_text()
            },
            SaveEvent::OriginalRead { result: Err(e) } => {
                &&& new.phase == SavePhase::Finished
                &&& action matches SaveAction::Finish { result: Err(m) } && m@ == e@
            },
            SaveEvent::OriginalRead { result: Ok(bytes) } => SaveMany::proceeded(
                old,
                SavePhase::Checking,
                i + 1,
                old.originals@.push(bytes),
                old.failed_at as int,
                old.failure@,
                errs,
                new,
                action,
            ),
            SaveEvent::Written { outcome } => match old.phase {
                SavePhase::BackingUp => match outcome {
                    Err(e) => {
                        &&& new.phase == SavePhase::Finished
                        &&& action matches SaveAction::Finish { result: Err(m) } && m@ == e@
                    },
                    Ok(()) => SaveMany::proceeded(old, SavePhase::BackingUp, i + 1, old.originals@, old.failed_at as int, old.failure@, errs, new, action),
                },
                SavePhase::Writing => match outcome {
                    Err(e) => SaveMany::proceeded(old, SavePhase::RollingBack, 0, old.originals@, i, e@, errs, new, action),
                    Ok(()) => SaveMany::proceeded(old, SavePhase::Writing, i + 1, old.originals@, old.failed_at as int, old.failure@, errs, new, action),
                },
                _ => match outcome {
                    Err(e) => exists|text: String|
                        text@ == old.writes@[i].path@ + ": "@ + e@ && SaveMany::proceeded(
                            old,
                            SavePhase::RollingBack,
                            i + 1,
                            old.originals@,
                            old.failed_at as int,
                            old.failure@,
                            errs.push(text),
                            new,
                            action,
                        ),
                    Ok(()) => SaveMany::proceeded(old, SavePhase::RollingBack, i + 1, old.originals@, old.failed_at as int, old.failure@, errs, new, action),
                },
            },
        }
    }

    /// A copy of the original bytes of the target at `i`.
    fn original_copy(&self, i: usize) -> (r: Vec<u8>)
        requires
            i < self.originals@.len(),
        ensures
            r@ == self.originals@[i as int]@,
    {
        let src = &self.originals[i];
        let mut out: Vec<u8> = Vec::new();
        let mut k: usize = 0;
        while k < src.len()
            invariant
                k <= src.len(),
                out@ == src@.take(k as int),
            decreases src.len() - k,
        {
            out.push(src[k]);
            assert(out@ =~= src@.take(k + 1));
            k = k + 1;
        }
        assert(src@.take(src@.len() as int) =~= src@);
        out
    }

    /// `parts` joined with `sep`.
    fn join_errors(parts: &Vec<String>, sep: &str) -> (r: String)
        ensures
            r@ == join_with(string_texts(parts@), sep@),
    {
        let mut out = String::new();
        let mut i: usize = 0;
        while i < parts.len()
            invariant
                i <= parts.len(),
                out@ == join_with(string_texts(parts@).take(i as int), sep@),
            decreases parts.len() - i,
        {
            let ghost before = out@;
            if i == 0 {
                out = copy_string(&parts[0]);
                assert(string_texts(parts@).take(1) =~= seq![parts@[0]@]);
            } else {
                let with_sep = concat(out.as_str(), sep);
                out = concat(with_sep.as_str(), parts[i].as_str());
                assert(string_texts(parts@).take(i + 1).drop_last() =~= string_texts(parts@).take(i as int));
            }
            i = i + 1;
        }
        assert(string_texts(parts@).take(parts@.len() as int) =~= string_texts(parts@));
        out
    }

    /// Goes on from `phase` at `index`.
    fn proceed(&mut self, phase: SavePhase, index: usize) -> (action: SaveAction)
        requires
            index <= old(self).writes@.len(),
            phase != SavePhase::Finished,
            phase != SavePhase::Reading,
            phase == SavePhase::Checking ==> old(self).originals@.len() == index,
            phase != SavePhase::Checking ==> old(self).originals@.len() == old(self).writes@.len(),
            phase == SavePhase::RollingBack ==> old(self).failed_at < old(self).writes@.len(),
            phase == SavePhase::Checking ==> old(self).backups_done@ == 0 && old(self).texts_done@ == 0,
            phase == SavePhase::BackingUp ==> old(self).backups_done@ == index && old(self).texts_done@ == 0,
            phase == SavePhase::Writing ==> old(self).backups_done@ == old(self).writes@.len() && old(self).texts_done@ == index,
            phase == SavePhase::RollingBack ==> old(self).backups_done@ == old(self).writes@.len() && old(self).texts_done@ == old(self).failed_at && old(self).restored@ == index,
        ensures
            final(self).wf(),
            SaveMany::proceeded(
                *old(self),
                phase,
                index as int,
                old(self).originals@,
                old(self).failed_at as int,
                old(self).failure@,
                old(self).rollback_errors@,
                *final(self),
                action,
            ),
            final(self).backups_done == old(self).backups_done,
            final(self).texts_done == old(self).texts_done,
            final(self).restored == old(self).restored,
    {
        let n = self.writes.len();
        let (p, i) = if phase == SavePhase::Checking {
            if index < n {
                (SavePhase::Checking, index)
            } else if 0 < n {
                (SavePhase::BackingUp, 0)
            } else {
                (SavePhase::Finished, 0)
            }
        } else if phase == SavePhase::BackingUp {
            if index < n {
                (SavePhase::BackingUp, index)
            } else if 0 < n {
                (SavePhase::Writing, 0)
            } else {
                (SavePhase::Finished, 0)
            }
        } else if phase == SavePhase::Writing {
            if index < n {
                (SavePhase::Writing, index)
            } else {
                (SavePhase::Finished, 0)
            }
        } else {
            if index < self.failed_at {
                (SavePhase::RollingBack, index)
            } else {
                (SavePhase::Finished, 0)
            }
        };
        self.phase = p;
        self.index = i;
        assert(p == SavePhase::Checking ==> self.originals@.len() == i && i < n);
        match p {
            SavePhase::Checking => SaveAction::CheckTarget { path: copy_string(&self.writes[i].path) },
            SavePhase::BackingUp => SaveAction::WriteBytes {
                path: backup_path(self.writes[i].path.as_str()),
                bytes: self.original_copy(i),
            },
            SavePhase::Writing => SaveAction::WriteText {
                path: copy_string(&self.writes[i].path),
                text: copy_string(&self.writes[i].content),
            },
            SavePhase::RollingBack => SaveAction::WriteBytes {
                path: copy_string(&self.writes[i].path),
                bytes: self.original_copy(i),
            },
            _ => {
                if phase == SavePhase::RollingBack {
                    if self.rollback_errors.len() == 0 {
                        SaveAction::Finish { result: Err(copy_string(&self.failure)) }
                    } else {
                        let joined = SaveMany::join_errors(&self.rollback_errors, ", ");
                        let head = concat(self.failure.as_str(), "; rollback-failed: ");
                        let text = concat(head.as_str(), joined.as_str());
                        proof {
                            reveal_strlit("; rollback-failed: ");
                            reveal_strlit(", ");
                        }
                        SaveAction::Finish { result: Err(text) }
                    }
                } else {
                    SaveAction::Finish { result: Ok(()) }
                }
            },
        }
    }

    /// Whether the save waits for `event`.
    pub fn expects_event(&self, event: &SaveEvent) -> (r: bool)
        ensures
            r == self.expects(*event),
    {
        match self.phase {
            SavePhase::Checking => matches!(event, SaveEvent::TargetChecked { .. }),
            SavePhase::Reading => matches!(event, SaveEvent::OriginalRead { .. }),
            SavePhase::BackingUp | SavePhase::Writing | SavePhase::RollingBack => matches!(event, SaveEvent::Written { .. }),
            SavePhase::Finished => false,
        }
    }

    /// Takes in what the last action found out, and says what to do next.
    pub fn advance(&mut self, event: SaveEvent) -> (action: SaveAction)
        requires
            old(self).wf(),
            old(self).expects(event),
        ensures
            final(self).wf(),
            SaveMany::after_event(*old(self), event, *final(self), action),
            final(self).targets() == old(self).targets(),
            // nothing is written before every target was checked and read
            action is WriteBytes || action is WriteText ==> final(self).original_bytes().len()
                == final(self).targets().len(),
            // no new text is written before every backup was
            action is WriteText ==> final(self).backups_written() == final(self).targets().len(),
            // a save succeeds only when every new text was written
            action matches SaveAction::Finish { result: Ok(()) } ==> final(self).texts_written()
                == final(self).targets().len(),
            // after a failed text write, every target before it gets its bytes back before the
            // save ends, and the save fails
            (old(self).phase_of() == SavePhase::RollingBack || (old(self).phase_of()
                == SavePhase::Writing && event matches SaveEvent::Written { outcome: Err(_) }))
                && action is Finish ==> final(self).restored_count() == final(self).failed_index()
                && action matches SaveAction::Finish { result: Err(_) },
            // a group save writes nothing but its targets, each its own new text or its
            // original bytes, and their backups, each the target's original bytes
            action matches SaveAction::WriteText { path, text } ==> exists|k: int|
                0 <= k < final(self).targets().len() && #[trigger] final(self).targets()[k].path@ == path@
                    && text@ == final(self).targets()[k].content@,
            action matches SaveAction::WriteBytes { path, bytes } ==> exists|k: int|
                0 <= k < final(self).targets().len() && bytes@ == #[trigger] final(self).original_bytes()[k]
                    && (path@ == final(self).targets()[k].path@ || path@ == backup_path_of(
                    final(self).targets()[k].path@,
                )),
    {
        let action = self.step(event);
        proof {
            SaveMany::lemma_write_asks(*old(self), event, *self, action);
            if action is WriteBytes || action is WriteText {
                let k = self.index as int;
                assert(self.original_bytes()[k] == self.originals@[k]@);
            }
        }
        action
    }

    proof fn lemma_write_asks(old: SaveMany, event: SaveEvent, new: SaveMany, action: SaveAction)
        requires
            SaveMany::after_event(old, event, new, action),
        ensures
            action is WriteBytes || action is WriteText ==> SaveMany::asks(new, action) && (new.phase
                == SavePhase::BackingUp || new.phase == SavePhase::Writing || new.phase
                == SavePhase::RollingBack),
    {
        if let SaveEvent::Written { outcome: Err(e) } = event {
            if old.phase != SavePhase::BackingUp && old.phase != SavePhase::Writing {
                let text = choose|text: String|
                    text@ == old.writes@[old.index as int].path@ + ": "@ + e@ && SaveMany::proceeded(
                        old,
                        SavePhase::RollingBack,
                        old.index + 1,
                        old.originals@,
                        old.failed_at as int,
                        old.failure@,
                        old.rollback_errors@.push(text),
                        new,
                        action,
                    );
            }
        }
    }

    /// One step of the save: the state machine itself.
    fn step(&mut self, event: SaveEvent) -> (action: SaveAction)
        requires
            old(self).wf(),
            old(self).expects(event),
        ensures
            final(self).wf(),
            SaveMany::after_event(*old(self), event, *final(self), action),
            final(self).targets() == old(self).targets(),
            // nothing is written before every target was checked and read
            action is WriteBytes || action is WriteText ==> final(self).original_bytes().len()
                == final(self).targets().len(),
            // no new text is written before every backup was
            action is WriteText ==> final(self).backups_written() == final(self).targets().len(),
            // a save succeeds only when every new text was written
            action matches SaveAction::Finish { result: Ok(()) } ==> final(self).texts_written()
                == final(self).targets().len(),
            // after a failed text write, every target before it gets its bytes back before the
            // save ends, and the save fails
            (old(self).phase_of() == SavePhase::RollingBack || (old(self).phase_of()
                == SavePhase::Writing && event matches SaveEvent::Written { outcome: Err(_) }))
                && action is Finish ==> final(self).restored_count() == final(self).failed_index()
                && action matches SaveAction::Finish { result: Err(_) },
    {
        let i = self.index;
        let n = self.writes.len();
        assert(i < n || self.phase == SavePhase::Finished);
        match event {
            SaveEvent::TargetChecked { is_file } => {
                let mut valid = is_file && dictionary_file_name(self.platform, self.writes[i].path.as_str());
                let mut k: usize = 0;
                while valid && k < i
                    invariant
                        k <= i,
                        i < self.writes@.len(),
                        valid ==> forall|q: int| 0 <= q < k ==> !same_path(self.platform, #[trigger] self.writes@[q].path@, self.writes@[i as int].path@),
                        !valid ==> !valid_target(self.platform, self.writes@, i as int, is_file),
                        valid ==> is_file && has_dictionary_file_name(self.platform, self.writes@[i as int].path@),
                    decreases i - k,
                {
                    if paths_equal(self.platform, self.writes[k].path.as_str(), self.writes[i].path.as_str()) {
                        valid = false;
                    }
                    k = k + 1;
                }
                if valid {
                    self.phase = SavePhase::Reading;
                    SaveAction::ReadOriginal { path: copy_string(&self.writes[i].path) }
                } else {
                    self.phase = SavePhase::Finished;
                    proof {
                        reveal_strlit("invalid-or-duplicate-dictionary-path");
                    }
                    SaveAction::Finish { result: Err(String::from_str("invalid-or-duplicate-dictionary-path")) }
                }
            },
            SaveEvent::OriginalRead { result } => match result {
                Err(e) => {
                    self.phase = SavePhase::Finished;
                    SaveAction::Finish { result: Err(e) }
                },
                Ok(bytes) => {
                    self.originals.push(bytes);
                    self.proceed(SavePhase::Checking, i + 1)
                },
            },
            SaveEvent::Written { outcome } => {
                if self.phase == SavePhase::BackingUp {
                    match outcome {
                        Err(e) => {
                            self.phase = SavePhase::Finished;
                            SaveAction::Finish { result: Err(e) }
                        },
                        Ok(()) => {
                            self.backups_done = Ghost((self.backups_done@ + 1) as nat);
                            self.proceed(SavePhase::BackingUp, i + 1)
                        },
                    }
                } else if self.phase == SavePhase::Writing {
                    match outcome {
                        Err(e) => {
                            self.failed_at = i;
                            self.failure = e;
                            self.restored = Ghost(0);
                            self.proceed(SavePhase::RollingBack, 0)
                        },
                        Ok(()) => {
                            self.texts_done = Ghost((self.texts_done@ + 1) as nat);
                            self.proceed(SavePhase::Writing, i + 1)
                        },
                    }
                } else {
                    match outcome {
                        Err(e) => {
                            let head = concat(self.writes[i].path.as_str(), ": ");
                            let text = concat(head.as_str(), e.as_str());
                            proof {
                                reveal_strlit(": ");
                            }
                            let ghost t = text;
                            self.rollback_errors.push(text);
                            self.restored = Ghost((self.restored@ + 1) as nat);
                            let action = self.proceed(SavePhase::RollingBack, i + 1);
                            assert(SaveMany::proceeded(
                                *old(self),
                                SavePhase::RollingBack,
                                i + 1,
                                old(self).originals@,
                                old(self).failed_at as int,
                                old(self).failure@,
                                old(self).rollback_errors@.push(t),
                                *self,
                                action,
                            ));
                            action
                        },
                        Ok(()) => {
                            self.restored = Ghost((self.restored@ + 1) as nat);
                            self.proceed(SavePhase::RollingBack, i + 1)
                        },
                    }
                }
            },
        }
    }
}

/// Starts saving `writes` as a group: every target is checked and read first, then every
/// backup is written, then every new text; when a text write fails, the targets before it
/// get their original bytes back and the save fails.
pub fn safe_save_many(platform: Platform, writes: Vec<DictionaryWrite>) -> (r: (SaveMany, SaveAction))
    ensures
        r.0.wf(),
        r.0.targets() == writes@,
        writes@.len() > 0 ==> (r.1 matches SaveAction::CheckTarget { path } && path@ == writes@[0].path@),
        writes@.len() == 0 ==> (r.1 matches SaveAction::Finish { result: Ok(()) }),
        r.0.platform == platform,
        r.0.writes@ == writes@,
        r.0.originals@.len() == 0,
        r.0.failed_at == 0,
        r.0.rollback_errors@.len() == 0,
        r.0.backups_done@ == 0,
        r.0.texts_done@ == 0,
        r.0.restored@ == 0,
        writes@.len() > 0 ==> r.0.phase == SavePhase::Checking && r.0.index == 0,
        writes@.len() == 0 ==> r.0.phase == SavePhase::Finished,
{
    let mut save = SaveMany {
        platform,
        writes,
        originals: Vec::new(),
        phase: SavePhase::Checking,
        index: 0,
        failed_at: 0,
        failure: String::new(),
        rollback_errors: Vec::new(),
        backups_done: Ghost(0),
        texts_done: Ghost(0),
        restored: Ghost(0),
    };
    let action = save.proceed(SavePhase::Checking, 0);
    (save, action)
}

} // verus!
