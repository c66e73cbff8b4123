use mcli_core::errors::McliError;
use mcli_core::process::{ProcState, ProcessManager, TermAction};

fn spawn_false(pm: &mut ProcessManager) -> u64 {
    pm.spawn_request(
        Some("false-cmd".to_string()),
        "/bin/false".to_string(),
        Vec::new(),
        ".".to_string(),
    )
}

#[test]
fn lifecycle_pending_running_exited() {
    let mut pm = ProcessManager::new(16);
    let h = spawn_false(&mut pm);
    assert_eq!(pm.status(h), Ok(ProcState::Pending));
    pm.handle_spawn_outcome(h, Ok(4242)).unwrap();
    assert_eq!(pm.status(h), Ok(ProcState::Running { pid: 4242 }));
    pm.notify_exited(h, 1).unwrap();
    match pm.status(h) {
        Ok(ProcState::Exited { code }) => assert_ne!(code, 0),
        other => panic!("unexpected state: {:?}", other),
    }
    // Terminating an already-exited handle is a no-op that succeeds.
    assert_eq!(pm.terminate(h), Ok(TermAction::NoOp));
    match pm.status(h) {
        Ok(ProcState::Exited { code }) => assert_eq!(code, 1),
        other => panic!("unexpected state: {:?}", other),
    }
}

#[test]
fn reap_running_is_invalid_state() {
    let mut pm = ProcessManager::new(16);
    let h = spawn_false(&mut pm);
    pm.handle_spawn_outcome(h, Ok(77)).unwrap();
    assert_eq!(pm.reap(h), Err(McliError::InvalidState));
    assert_eq!(pm.handle_count(), 1);
}

#[test]
fn reap_removes_terminal_handles() {
    let mut pm = ProcessManager::new(16);
    let h = spawn_false(&mut pm);
    pm.handle_spawn_outcome(h, Ok(77)).unwrap();
    pm.notify_exited(h, 0).unwrap();
    assert_eq!(pm.reap(h), Ok(ProcState::Exited { code: 0 }));
    assert_eq!(pm.handle_count(), 0);
    assert_eq!(pm.status(h), Err(McliError::NotFound));
    assert_eq!(pm.reap(h), Err(McliError::NotFound));
}

#[test]
fn spawn_failure_is_reported_synchronously() {
    let mut pm = ProcessManager::new(16);
    let h = spawn_false(&mut pm);
    let r = pm.handle_spawn_outcome(h, Err("no such file".to_string()));
    assert_eq!(r, Err(McliError::SpawnFailure { cause: "no such file".to_string() }));
    assert_eq!(
        pm.status(h),
        Ok(ProcState::Failed { cause: "no such file".to_string() })
    );
    // A failed handle is terminal and can be reaped.
    assert!(pm.reap(h).is_ok());
}

#[test]
fn terminate_escalates_on_second_request() {
    let mut pm = ProcessManager::new(16);
    let h = spawn_false(&mut pm);
    pm.handle_spawn_outcome(h, Ok(99)).unwrap();
    assert_eq!(pm.terminate(h), Ok(TermAction::SendTerm { pid: 99 }));
    assert_eq!(pm.status(h), Ok(ProcState::Terminating { pid: 99 }));
    assert_eq!(pm.terminate(h), Ok(TermAction::ForceKill { pid: 99 }));
    pm.notify_exited(h, 137).unwrap();
    assert_eq!(pm.status(h), Ok(ProcState::Exited { code: 137 }));
}

#[test]
fn terminate_pending_is_invalid_state() {
    let mut pm = ProcessManager::new(16);
    let h = spawn_false(&mut pm);
    assert_eq!(pm.terminate(h), Err(McliError::InvalidState));
}

#[test]
fn unknown_handles_are_not_found() {
    let mut pm = ProcessManager::new(16);
    assert_eq!(pm.status(123), Err(McliError::NotFound));
    assert_eq!(pm.terminate(123), Err(McliError::NotFound));
    assert_eq!(pm.notify_exited(123, 0), Err(McliError::NotFound));
    assert_eq!(pm.read_output(123), Err(McliError::NotFound));
    assert_eq!(pm.push_output(123, b"x".to_vec()), Err(McliError::NotFound));
    assert_eq!(pm.dropped_count(123), Err(McliError::NotFound));
}

#[test]
fn exited_cannot_exit_twice() {
    let mut pm = ProcessManager::new(16);
    let h = spawn_false(&mut pm);
    pm.handle_spawn_outcome(h, Ok(5)).unwrap();
    pm.notify_exited(h, 0).unwrap();
    assert_eq!(pm.notify_exited(h, 1), Err(McliError::InvalidState));
    assert_eq!(pm.handle_spawn_outcome(h, Ok(6)), Err(McliError::InvalidState));
}

#[test]
fn output_buffer_drops_oldest_beyond_cap() {
    let mut pm = ProcessManager::new(2);
    let h = spawn_false(&mut pm);
    pm.handle_spawn_outcome(h, Ok(7)).unwrap();
    pm.push_output(h, b"one".to_vec()).unwrap();
    pm.push_output(h, b"two".to_vec()).unwrap();
    pm.push_output(h, b"three".to_vec()).unwrap();
    assert_eq!(pm.dropped_count(h), Ok(1));
    let out = pm.read_output(h).unwrap();
    assert_eq!(out, vec![b"two".to_vec(), b"three".to_vec()]);
    // The buffer was drained.
    let again = pm.read_output(h).unwrap();
    assert!(again.is_empty());
}

#[test]
fn handles_are_unique_and_increasing() {
    let mut pm = ProcessManager::new(4);
    let h1 = spawn_false(&mut pm);
    let h2 = spawn_false(&mut pm);
    let h3 = spawn_false(&mut pm);
    assert!(h1 < h2 && h2 < h3);
    assert_eq!(pm.handle_count(), 3);
}
