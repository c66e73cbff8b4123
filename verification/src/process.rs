//! The process manager: a table of process handles and the lifecycle state
//! machine of each.
//!
//! The manager decides every transition; actually starting, signalling and
//! waiting on operating-system processes is the caller's side of the
//! protocol, which reports outcomes back as events (`handle_spawn_outcome`,
//! `notify_exited`, `push_output`). Captured output is buffered up to a
//! fixed cap per handle; past the cap the oldest chunk is discarded, and a
//! counter records how many were lost.
use vstd::prelude::*;
use crate::errors::McliError;

verus! {

/// The lifecycle of one managed process.
#[derive(Debug, PartialEq, Eq)]
pub enum ProcState {
    /// Created; the spawn has not been attempted or reported yet.
    Pending,
    /// The operating-system process is running.
    Running { pid: u64 },
    /// Graceful termination was requested; the process has not exited yet.
    Terminating { pid: u64 },
    /// The process exited with this status code.
    Exited { code: i32 },
    /// The spawn failed; the cause is kept for diagnostics.
    Failed { cause: String },
}

/// What the caller must do after asking for termination.
#[derive(Debug, PartialEq, Eq)]
pub enum TermAction {
    /// Send the graceful termination signal to this pid.
    SendTerm { pid: u64 },
    /// The grace period is the caller's clock: on a second request,
    /// kill this pid forcefully.
    ForceKill { pid: u64 },
    /// The process is already finished; nothing to do.
    NoOp,
}

/// One row of the handle table.
#[derive(Debug)]
pub struct ProcEntry {
    /// The handle this manager issued.
    pub handle: u64,
    /// The catalog entry that caused the spawn, if any; diagnostics only.
    pub command_id: Option<String>,
    /// The executable to run.
    pub executable: String,
    /// Its arguments.
    pub args: Vec<String>,
    /// The working directory.
    pub workdir: String,
    /// Where the process stands.
    pub state: ProcState,
    /// Captured output chunks, oldest first, at most `cap` of them.
    pub output: Vec<Vec<u8>>,
    /// How many chunks were discarded because the buffer was full.
    pub dropped: u64,
}

/// A state from which no transition leaves.
pub open spec fn is_terminal(s: ProcState) -> bool {
    match s {
        ProcState::Exited { .. } => true,
        ProcState::Failed { .. } => true,
        _ => false,
    }
}

/// The pid recorded in a live state.
pub open spec fn state_pid(s: ProcState) -> u64 {
    match s {
        ProcState::Running { pid } => pid,
        ProcState::Terminating { pid } => pid,
        _ => 0,
    }
}

/// The first index of handle `h` in the table, or the table's length.
pub open spec fn find_handle(t: Seq<ProcEntry>, h: u64) -> int
    decreases t.len(),
{
    if t.len() == 0 {
        0
    } else if t[0].handle == h {
        0
    } else {
        1 + find_handle(t.drop_first(), h)
    }
}

/// `find_handle` stays in range and names `h` when it hits.
pub proof fn lemma_find_handle_range(t: Seq<ProcEntry>, h: u64)
    ensures
        0 <= find_handle(t, h) <= t.len(),
        find_handle(t, h) < t.len() ==> t[find_handle(t, h)].handle == h,
    decreases t.len(),
{
    if t.len() > 0 && t[0].handle != h {
        lemma_find_handle_range(t.drop_first(), h);
    }
}

/// The table of live process handles.
#[derive(Debug)]
pub struct ProcessManager {
    next_id: u64,
    cap: usize,
    table: Vec<ProcEntry>,
}

impl ProcessManager {
    /// The table's rows, as the contracts speak of them.
    pub closed spec fn rows(&self) -> Seq<ProcEntry> {
        self.table@
    }

    /// The next handle to be issued.
    pub closed spec fn spec_next_id(&self) -> u64 {
        self.next_id
    }

    /// The output-buffer cap.
    pub closed spec fn spec_cap(&self) -> usize {
        self.cap
    }

    /// Internal soundness: handles strictly increase along the table and
    /// stay below `next_id`, and no buffer exceeds the cap.
    pub open spec fn wf(&self) -> bool {
        &&& self.spec_cap() >= 1
        &&& forall|k: int| 0 <= k < self.rows().len() ==> (#[trigger] self.rows()[k]).handle
            < self.spec_next_id()
        &&& forall|k: int| 0 <= k && k + 1 < self.rows().len()
            ==> (#[trigger] self.rows()[k]).handle < self.rows()[k + 1].handle
        &&& forall|k: int| 0 <= k < self.rows().len() ==> (#[trigger] self.rows()[k]).output@.len()
            <= self.spec_cap()
    }

    /// An empty manager whose output buffers hold at most `cap` chunks.
    pub fn new(cap: usize) -> (r: ProcessManager)
        requires
            cap >= 1,
        ensures
            r.wf(),
            r.rows().len() == 0,
            r.spec_next_id() == 0,
            r.spec_cap() == cap,
    {
        ProcessManager { next_id: 0, cap, table: Vec::new() }
    }

    /// The next handle value this manager would issue.
    pub fn next_handle(&self) -> (r: u64)
        ensures
            r == self.spec_next_id(),
    {
        self.next_id
    }

    /// How many handles the table holds.
    pub fn handle_count(&self) -> (r: usize)
        ensures
            r == self.rows().len(),
    {
        self.table.len()
    }

    /// Where handle `h` sits in the table, if anywhere.
    fn index_of(&self, h: u64) -> (r: Option<usize>)
        ensures
            match r {
                Some(i) => i < self.rows().len() && i as int == find_handle(self.rows(), h),
                None => find_handle(self.rows(), h) == self.rows().len(),
            },
    {
        let ghost t = self.rows();
        let mut i: usize = 0;
        proof {
            assert(t.skip(0) =~= t);
        }
        while i < self.table.len()
            invariant
                i <= t.len(),
                t == self.rows(),
                find_handle(t, h) == i + find_handle(t.skip(i as int), h),
            decreases t.len() - i,
        {
            let ghost s = t.skip(i as int);
            proof {
                assert(s[0] == t[i as int]);
                assert(s.drop_first() =~= t.skip(i as int + 1));
                lemma_find_handle_range(s.drop_first(), h);
            }
            if self.table[i].handle == h {
                assert(find_handle(s, h) == 0);
                return Some(i);
            }
            proof {
                assert(find_handle(s, h) == 1 + find_handle(s.drop_first(), h));
            }
            i = i + 1;
        }
        proof {
            assert(t.skip(t.len() as int) =~= Seq::<ProcEntry>::empty());
        }
        None
    }

    /// Register a new process in `Pending` and hand out its handle. The
    /// caller then attempts the spawn and reports with
    /// `handle_spawn_outcome`.
    pub fn spawn_request(
        &mut self,
        command_id: Option<String>,
        executable: String,
        args: Vec<String>,
        workdir: String,
    ) -> (h: u64)
        requires
            old(self).wf(),
            old(self).spec_next_id() < u64::MAX,
        ensures
            final(self).wf(),
            h == old(self).spec_next_id(),
            final(self).spec_next_id() == old(self).spec_next_id() + 1,
            final(self).spec_cap() == old(self).spec_cap(),
            final(self).rows().len() == old(self).rows().len() + 1,
            final(self).rows().take(old(self).rows().len() as int) == old(self).rows(),
            final(self).rows().last().handle == h,
            final(self).rows().last().command_id == command_id,
            final(self).rows().last().executable == executable,
            final(self).rows().last().args == args,
            final(self).rows().last().workdir == workdir,
            final(self).rows().last().state == ProcState::Pending,
            final(self).rows().last().output@.len() == 0,
            final(self).rows().last().dropped == 0,
    {
        let ghost t0 = self.rows();
        let h = self.next_id;
        let entry = ProcEntry {
            handle: h,
            command_id,
            executable,
            args,
            workdir,
            state: ProcState::Pending,
            output: Vec::new(),
            dropped: 0,
        };
        self.table.push(entry);
        self.next_id = self.next_id + 1;
        proof {
            assert(self.rows().take(t0.len() as int) =~= t0);
            assert forall|k: int| 0 <= k && k + 1 < self.rows().len() implies (
            #[trigger] self.rows()[k]).handle < self.rows()[k + 1].handle by {
                assert(self.rows()[k] == t0[k]);
                if k + 1 < t0.len() {
                    assert(self.rows()[k + 1] == t0[k + 1]);
                }
            };
            assert forall|k: int| 0 <= k < self.rows().len() implies (
            #[trigger] self.rows()[k]).output@.len() <= self.spec_cap() by {
                if k < t0.len() {
                    assert(self.rows()[k] == t0[k]);
                }
            };
        }
        h
    }

    /// Report how the spawn attempt went: success moves the handle from
    /// `Pending` to `Running` with its pid; failure moves it to `Failed`
    /// and the error is also returned synchronously, so the caller learns
    /// of it immediately.
    pub fn handle_spawn_outcome(&mut self, h: u64, outcome: Result<u64, String>) -> (r: Result<
        (),
        McliError,
    >)
        requires
            old(self).wf(),
        ensures
            final(self).wf(),
            final(self).spec_next_id() == old(self).spec_next_id(),
            final(self).spec_cap() == old(self).spec_cap(),
            ({
                let i = find_handle(old(self).rows(), h);
                if i == old(self).rows().len() {
                    r == Err::<(), McliError>(McliError::NotFound) && final(self).rows() == old(self).rows()
                } else if !(old(self).rows()[i].state is Pending) {
                    r == Err::<(), McliError>(McliError::InvalidState) && final(self).rows()
                        == old(self).rows()
                } else {
                    match outcome {
                        Ok(pid) => r == Ok::<(), McliError>(()) && final(self).rows() == old(self).rows().update(
                            i,
                            ProcEntry { state: ProcState::Running { pid }, ..old(self).rows()[i] },
                        ),
                        Err(cause) => r == Err::<(), McliError>(
                            McliError::SpawnFailure { cause },
                        ) && final(self).rows() == old(self).rows().update(
                            i,
                            ProcEntry {
                                state: ProcState::Failed { cause },
                                ..old(self).rows()[i]
                            },
                        ),
                    }
                }
            }),
    {
        let ghost t0 = self.rows();
        let i = match self.index_of(h) {
            None => {
                return Err(McliError::NotFound);
            },
            Some(i) => i,
        };
        let mut e = self.table.remove(i);
        match &e.state {
            ProcState::Pending => {},
            _ => {
                self.table.insert(i, e);
                proof {
                    assert(self.rows() =~= t0);
                }
                return Err(McliError::InvalidState);
            },
        }
        let r;
        match outcome {
            Ok(pid) => {
                e.state = ProcState::Running { pid };
                r = Ok(());
            },
            Err(cause) => {
                let c2 = clone_cause(&cause);
                e.state = ProcState::Failed { cause };
                r = Err(McliError::SpawnFailure { cause: c2 });
            },
        }
        self.table.insert(i, e);
        proof {
            assert(self.rows() =~= t0.update(i as int, self.rows()[i as int]));
            lemma_update_wf(t0, i as int, self.rows()[i as int], self.spec_next_id(),
                self.spec_cap());
        }
        r
    }

    /// The current state of a handle, without blocking.
    pub fn status(&self, h: u64) -> (r: Result<ProcState, McliError>)
        requires
            self.wf(),
        ensures
            ({
                let i = find_handle(self.rows(), h);
                if i == self.rows().len() {
                    r == Err::<ProcState, McliError>(McliError::NotFound)
                } else {
                    r == Ok::<ProcState, McliError>(self.rows()[i].state)
                }
            }),
    {
        match self.index_of(h) {
            None => Err(McliError::NotFound),
            Some(i) => Ok(clone_state(&self.table[i].state)),
        }
    }

    /// Ask for termination. On a `Running` handle the state moves to
    /// `Terminating` and the caller must send the graceful signal; on a
    /// handle already `Terminating` the caller is told to kill forcefully
    /// (its grace period has passed); on a finished handle this is a no-op
    /// that still succeeds; a `Pending` handle has no process to signal.
    pub fn terminate(&mut self, h: u64) -> (r: Result<TermAction, McliError>)
        requires
            old(self).wf(),
        ensures
            final(self).wf(),
            final(self).spec_next_id() == old(self).spec_next_id(),
            final(self).spec_cap() == old(self).spec_cap(),
            ({
                let i = find_handle(old(self).rows(), h);
                if i == old(self).rows().len() {
                    r == Err::<TermAction, McliError>(McliError::NotFound) && final(self).rows()
                        == old(self).rows()
                } else {
                    let s = old(self).rows()[i].state;
                    if s is Pending {
                        r == Err::<TermAction, McliError>(McliError::InvalidState) && final(self).rows() == old(self).rows()
                    } else if s is Running {
                        r == Ok::<TermAction, McliError>(
                            TermAction::SendTerm { pid: state_pid(s) },
                        ) && final(self).rows() == old(self).rows().update(
                            i,
                            ProcEntry {
                                state: ProcState::Terminating { pid: state_pid(s) },
                                ..old(self).rows()[i]
                            },
                        )
                    } else if s is Terminating {
                        r == Ok::<TermAction, McliError>(
                            TermAction::ForceKill { pid: state_pid(s) },
                        ) && final(self).rows() == old(self).rows()
                    } else {
                        r == Ok::<TermAction, McliError>(TermAction::NoOp) && final(self).rows()
                            == old(self).rows()
                    }
                }
            }),
    {
        let ghost t0 = self.rows();
        let i = match self.index_of(h) {
            None => {
                return Err(McliError::NotFound);
            },
            Some(i) => i,
        };
        let mut e = self.table.remove(i);
        let r;
        match &e.state {
            ProcState::Pending => {
                self.table.insert(i, e);
                proof {
                    assert(self.rows() =~= t0);
                }
                return Err(McliError::InvalidState);
            },
            ProcState::Running { pid } => {
                let p = *pid;
                e.state = ProcState::Terminating { pid: p };
                r = Ok(TermAction::SendTerm { pid: p });
            },
            ProcState::Terminating { pid } => {
                r = Ok(TermAction::ForceKill { pid: *pid });
            },
            _ => {
                r = Ok(TermAction::NoOp);
            },
        }
        self.table.insert(i, e);
        proof {
            assert(self.rows() =~= t0.update(i as int, self.rows()[i as int]));
            lemma_update_wf(t0, i as int, self.rows()[i as int], self.spec_next_id(),
                self.spec_cap());
            if !(t0[i as int].state is Running) {
                assert(self.rows() =~= t0);
            }
        }
        r
    }

    /// Record that the process behind `h` exited with `code`. Legal only
    /// from `Running` or `Terminating`.
    pub fn notify_exited(&mut self, h: u64, code: i32) -> (r: Result<(), McliError>)
        requires
            old(self).wf(),
        ensures
            final(self).wf(),
            final(self).spec_next_id() == old(self).spec_next_id(),
            final(self).spec_cap() == old(self).spec_cap(),
            ({
                let i = find_handle(old(self).rows(), h);
                if i == old(self).rows().len() {
                    r == Err::<(), McliError>(McliError::NotFound) && final(self).rows() == old(self).rows()
                } else if old(self).rows()[i].state is Running || old(self).rows()[i].state
                    is Terminating {
                    r == Ok::<(), McliError>(()) && final(self).rows() == old(self).rows().update(
                        i,
                        ProcEntry { state: ProcState::Exited { code }, ..old(self).rows()[i] },
                    )
                } else {
                    r == Err::<(), McliError>(McliError::InvalidState) && final(self).rows()
                        == old(self).rows()
                }
            }),
    {
        let ghost t0 = self.rows();
        let i = match self.index_of(h) {
            None => {
                return Err(McliError::NotFound);
            },
            Some(i) => i,
        };
        let mut e = self.table.remove(i);
        match &e.state {
            ProcState::Running { .. } => {},
            ProcState::Terminating { .. } => {},
            _ => {
                self.table.insert(i, e);
                proof {
                    assert(self.rows() =~= t0);
                }
                return Err(McliError::InvalidState);
            },
        }
        e.state = ProcState::Exited { code };
        self.table.insert(i, e);
        proof {
            assert(self.rows() =~= t0.update(i as int, self.rows()[i as int]));
            lemma_update_wf(t0, i as int, self.rows()[i as int], self.spec_next_id(),
                self.spec_cap());
        }
        Ok(())
    }

    /// Append one captured output chunk. When the buffer already holds
    /// `cap` chunks, the oldest is discarded first and the loss is counted:
    /// memory stays bounded at the documented cost of losing the oldest
    /// output.
    pub fn push_output(&mut self, h: u64, chunk: Vec<u8>) -> (r: Result<(), McliError>)
        requires
            old(self).wf(),
        ensures
            final(self).wf(),
            final(self).spec_next_id() == old(self).spec_next_id(),
            final(self).spec_cap() == old(self).spec_cap(),
            ({
                let i = find_handle(old(self).rows(), h);
                if i == old(self).rows().len() {
                    r == Err::<(), McliError>(McliError::NotFound) && final(self).rows() == old(self).rows()
                } else {
                    let e = old(self).rows()[i];
                    r == Ok::<(), McliError>(()) && final(self).rows()[i].output@ == (
                    if e.output@.len() < old(self).spec_cap() {
                        e.output@.push(chunk)
                    } else {
                        e.output@.skip(1).push(chunk)
                    }) && final(self).rows()[i].dropped == (
                    if e.output@.len() < old(self).spec_cap() {
                        e.dropped
                    } else {
                        crate::vectorizer::sat_inc(e.dropped)
                    }) && final(self).rows() == old(self).rows().update(i, final(self).rows()[i])
                        && final(self).rows()[i] == (ProcEntry {
                        output: final(self).rows()[i].output,
                        dropped: final(self).rows()[i].dropped,
                        ..e
                    })
                }
            }),
    {
        let ghost t0 = self.rows();
        let i = match self.index_of(h) {
            None => {
                return Err(McliError::NotFound);
            },
            Some(i) => i,
        };
        let mut e = self.table.remove(i);
        if e.output.len() >= self.cap {
            let _oldest = e.output.remove(0);
            e.dropped = if e.dropped < u64::MAX {
                e.dropped + 1
            } else {
                e.dropped
            };
            e.output.push(chunk);
            proof {
                assert(e.output@ =~= t0[i as int].output@.skip(1).push(chunk));
            }
        } else {
            e.output.push(chunk);
        }
        self.table.insert(i, e);
        proof {
            assert(self.rows() =~= t0.update(i as int, self.rows()[i as int]));
            lemma_update_wf(t0, i as int, self.rows()[i as int], self.spec_next_id(),
                self.spec_cap());
        }
        Ok(())
    }

    /// Take every buffered output chunk, leaving the buffer empty. The
    /// caller polls this; once the handle is terminal the stream is finite.
    pub fn read_output(&mut self, h: u64) -> (r: Result<Vec<Vec<u8>>, McliError>)
        requires
            old(self).wf(),
        ensures
            final(self).wf(),
            final(self).spec_next_id() == old(self).spec_next_id(),
            final(self).spec_cap() == old(self).spec_cap(),
            ({
                let i = find_handle(old(self).rows(), h);
                if i == old(self).rows().len() {
                    r == Err::<Vec<Vec<u8>>, McliError>(McliError::NotFound) && final(self).rows()
                        == old(self).rows()
                } else {
                    r matches Ok(v) && v@ == old(self).rows()[i].output@ && final(self).rows()
                        == old(self).rows().update(
                        i,
                        ProcEntry {
                            output: final(self).rows()[i].output,
                            ..old(self).rows()[i]
                        },
                    ) && final(self).rows()[i].output@.len() == 0
                }
            }),
    {
        let ghost t0 = self.rows();
        let i = match self.index_of(h) {
            None => {
                return Err(McliError::NotFound);
            },
            Some(i) => i,
        };
        let mut e = self.table.remove(i);
        let mut taken: Vec<Vec<u8>> = Vec::new();
        core::mem::swap(&mut taken, &mut e.output);
        self.table.insert(i, e);
        proof {
            assert(self.rows() =~= t0.update(i as int, self.rows()[i as int]));
            lemma_update_wf(t0, i as int, self.rows()[i as int], self.spec_next_id(),
                self.spec_cap());
        }
        Ok(taken)
    }

    /// How many output chunks were discarded for this handle because its
    /// buffer was full.
    pub fn dropped_count(&self, h: u64) -> (r: Result<u64, McliError>)
        ensures
            ({
                let i = find_handle(self.rows(), h);
                if i == self.rows().len() {
                    r == Err::<u64, McliError>(McliError::NotFound)
                } else {
                    r == Ok::<u64, McliError>(self.rows()[i].dropped)
                }
            }),
    {
        match self.index_of(h) {
            None => Err(McliError::NotFound),
            Some(i) => Ok(self.table[i].dropped),
        }
    }

    /// Remove a finished handle from the table and return its final state.
    /// A handle that is not terminal cannot be reaped: `InvalidState`.
    pub fn reap(&mut self, h: u64) -> (r: Result<ProcState, McliError>)
        requires
            old(self).wf(),
        ensures
            final(self).wf(),
            final(self).spec_next_id() == old(self).spec_next_id(),
            final(self).spec_cap() == old(self).spec_cap(),
            ({
                let i = find_handle(old(self).rows(), h);
                if i == old(self).rows().len() {
                    r == Err::<ProcState, McliError>(McliError::NotFound) && final(self).rows()
                        == old(self).rows()
                } else if is_terminal(old(self).rows()[i].state) {
                    r == Ok::<ProcState, McliError>(old(self).rows()[i].state) && final(self).rows() == old(self).rows().remove(i)
                } else {
                    r == Err::<ProcState, McliError>(McliError::InvalidState) && final(self).rows() == old(self).rows()
                }
            }),
    {
        let ghost t0 = self.rows();
        let i = match self.index_of(h) {
            None => {
                return Err(McliError::NotFound);
            },
            Some(i) => i,
        };
        let terminal = match &self.table[i].state {
            ProcState::Exited { .. } => true,
            ProcState::Failed { .. } => true,
            _ => false,
        };
        if !terminal {
            return Err(McliError::InvalidState);
        }
        let e = self.table.remove(i);
        proof {
            assert(self.rows() =~= t0.remove(i as int));
            lemma_remove_wf(t0, i as int, self.spec_next_id(), self.spec_cap());
        }
        Ok(e.state)
    }
}

/// A copy of a process state, character for character in the `Failed` case.
fn clone_state(s: &ProcState) -> (r: ProcState)
    ensures
        r == *s,
{
    match s {
        ProcState::Pending => ProcState::Pending,
        ProcState::Running { pid } => ProcState::Running { pid: *pid },
        ProcState::Terminating { pid } => ProcState::Terminating { pid: *pid },
        ProcState::Exited { code } => ProcState::Exited { code: *code },
        ProcState::Failed { cause } => ProcState::Failed { cause: clone_cause(cause) },
    }
}

/// A copy of a failure cause.
fn clone_cause(s: &String) -> (r: String)
    ensures
        r@ == s@,
        r == *s,
{
    s.clone()
}

/// Updating one row without changing its handle or overfilling its buffer
/// keeps the table well-formed.
proof fn lemma_update_wf(t: Seq<ProcEntry>, i: int, e: ProcEntry, next_id: u64, cap: usize)
    requires
        0 <= i < t.len(),
        e.handle == t[i].handle,
        e.output@.len() <= cap,
        forall|k: int| 0 <= k < t.len() ==> (#[trigger] t[k]).handle < next_id,
        forall|k: int| 0 <= k && k + 1 < t.len() ==> (#[trigger] t[k]).handle < t[k + 1].handle,
        forall|k: int| 0 <= k < t.len() ==> (#[trigger] t[k]).output@.len() <= cap,
    ensures
        forall|k: int| 0 <= k < t.update(i, e).len() ==> (#[trigger] t.update(i, e)[k]).handle
            < next_id,
        forall|k: int| 0 <= k && k + 1 < t.update(i, e).len() ==> (#[trigger] t.update(i,
        e)[k]).handle < t.update(i, e)[k + 1].handle,
        forall|k: int| 0 <= k < t.update(i, e).len() ==> (#[trigger] t.update(i,
        e)[k]).output@.len() <= cap,
{
    let u = t.update(i, e);
    assert forall|k: int| 0 <= k < u.len() implies (#[trigger] u[k]).handle < next_id by {
        if k != i {
            assert(u[k] == t[k]);
        }
    };
    assert forall|k: int| 0 <= k && k + 1 < u.len() implies (#[trigger] u[k]).handle < u[k
        + 1].handle by {
        assert(u[k].handle == t[k].handle && u[k + 1].handle == t[k + 1].handle);
    };
    assert forall|k: int| 0 <= k < u.len() implies (#[trigger] u[k]).output@.len() <= cap by {
        if k != i {
            assert(u[k] == t[k]);
        }
    };
}

/// Removing one row keeps the table well-formed.
proof fn lemma_remove_wf(t: Seq<ProcEntry>, i: int, next_id: u64, cap: usize)
    requires
        0 <= i < t.len(),
        forall|k: int| 0 <= k < t.len() ==> (#[trigger] t[k]).handle < next_id,
        forall|k: int| 0 <= k && k + 1 < t.len() ==> (#[trigger] t[k]).handle < t[k + 1].handle,
        forall|k: int| 0 <= k < t.len() ==> (#[trigger] t[k]).output@.len() <= cap,
    ensures
        forall|k: int| 0 <= k < t.remove(i).len() ==> (#[trigger] t.remove(i)[k]).handle < next_id,
        forall|k: int| 0 <= k && k + 1 < t.remove(i).len() ==> (#[trigger] t.remove(i)[k]).handle
            < t.remove(i)[k + 1].handle,
        forall|k: int| 0 <= k < t.remove(i).len() ==> (#[trigger] t.remove(i)[k]).output@.len()
            <= cap,
{
    let u = t.remove(i);
    assert forall|k: int| 0 <= k < u.len() implies (#[trigger] u[k]).handle < next_id by {
        if k < i {
            assert(u[k] == t[k]);
        } else {
            assert(u[k] == t[k + 1]);
        }
    };
    assert forall|k: int| 0 <= k && k + 1 < u.len() implies (#[trigger] u[k]).handle < u[k
        + 1].handle by {
        if k + 1 < i {
            assert(u[k] == t[k] && u[k + 1] == t[k + 1]);
        } else if k < i {
            assert(u[k] == t[k] && u[k + 1] == t[k + 2]);
            assert(t[k].handle < t[k + 1].handle);
            assert(t[k + 1].handle < t[k + 2].handle);
        } else {
            assert(u[k] == t[k + 1] && u[k + 1] == t[k + 2]);
        }
    };
    assert forall|k: int| 0 <= k < u.len() implies (#[trigger] u[k]).output@.len() <= cap by {
        if k < i {
            assert(u[k] == t[k]);
        } else {
            assert(u[k] == t[k + 1]);
        }
    };
}

} // verus!
