use portslayer::kill::{
    collect_kill_targets, kill_all_port_processes, kill_begin, kill_step, KillError, KillEvent,
    KillOutcome, KillPhase,
};
use portslayer::records::PortInfo;

fn record(protocol: &str, port: u16, pid: u32, name: &str) -> PortInfo {
    PortInfo {
        protocol: protocol.to_string(),
        port,
        local_address: "0.0.0.0".to_string(),
        pid,
        process_name: name.to_string(),
    }
}

#[test]
fn test_kill_begin_rejects_pid_zero() {
    // pid 0 always fails as an invalid target, before any command runs
    assert!(matches!(kill_begin(0), Err(KillError::InvalidTarget)));
    assert!(matches!(kill_begin(1234), Ok(KillPhase::Unprivileged(1234))));
}

#[test]
fn test_kill_step_transitions() {
    // a successful unprivileged attempt finishes the run
    let done = kill_step(KillPhase::Unprivileged(5), KillEvent::Exited(true, String::new()));
    assert!(matches!(done, KillOutcome::Done));

    // a failed unprivileged attempt escalates
    let next = kill_step(KillPhase::Unprivileged(5), KillEvent::Exited(false, String::new()));
    assert!(matches!(next, KillOutcome::Continue(KillPhase::Elevated(5))));

    // a failed elevated attempt reports permission denied with stderr
    let denied = kill_step(
        KillPhase::Elevated(5),
        KillEvent::Exited(false, "auth failed".to_string()),
    );
    match denied {
        KillOutcome::Failed(KillError::PermissionDenied(pid, detail)) => {
            assert_eq!(pid, 5);
            assert_eq!(detail, "auth failed");
        }
        other => panic!("unexpected outcome: {:?}", other),
    }

    // a successful elevated attempt finishes the run
    let done = kill_step(KillPhase::Elevated(5), KillEvent::Exited(true, String::new()));
    assert!(matches!(done, KillOutcome::Done));

    // a command that cannot even start aborts at once
    let aborted = kill_step(
        KillPhase::Unprivileged(5),
        KillEvent::SpawnFailed("not found".to_string()),
    );
    match aborted {
        KillOutcome::Failed(KillError::CommandFailed(m)) => {
            assert_eq!(m, "Error ejecutando kill: not found");
        }
        other => panic!("unexpected outcome: {:?}", other),
    }
    let aborted = kill_step(
        KillPhase::Elevated(5),
        KillEvent::SpawnFailed("not found".to_string()),
    );
    match aborted {
        KillOutcome::Failed(KillError::CommandFailed(m)) => {
            assert_eq!(m, "Error ejecutando pkexec: not found");
        }
        other => panic!("unexpected outcome: {:?}", other),
    }
}

#[test]
fn test_kill_error_messages() {
    assert_eq!(
        KillError::InvalidTarget.message(),
        "No se puede matar un proceso con PID desconocido (0)"
    );
    assert_eq!(KillError::CommandFailed("boom".to_string()).message(), "boom");
    assert_eq!(
        KillError::PermissionDenied(17, "denied".to_string()).message(),
        "No se pudo matar el proceso 17: denied"
    );
}

#[test]
fn test_collect_kill_targets() {
    let ports = vec![
        record("tcp", 80, 9, "a"),
        record("udp", 53, 0, "desconocido"),
        record("tcp", 81, 3, "b"),
        record("tcp", 82, 9, "a"),
    ];
    // unknown owners are skipped; duplicates collapse; the result is sorted
    assert_eq!(collect_kill_targets(&ports), vec![3, 9]);
    assert!(collect_kill_targets(&Vec::new()).is_empty());
}

#[test]
fn test_kill_all_empty_scan() {
    let r = kill_all_port_processes(&Vec::new(), &Vec::new());
    assert_eq!(r.unwrap(), 0);
}

#[test]
fn test_kill_all_no_known_pids() {
    let ports = vec![record("tcp", 80, 0, "desconocido")];
    let r = kill_all_port_processes(&ports, &Vec::new());
    assert_eq!(r.unwrap_err(), "No hay procesos con PID conocido que cerrar");
}

#[test]
fn test_kill_all_partial_success() {
    let ports = vec![record("tcp", 80, 1, "a"), record("tcp", 81, 2, "b")];
    let outcomes = vec![Ok(()), Err("one failed".to_string())];
    // partial success is a valid, reported outcome
    assert_eq!(kill_all_port_processes(&ports, &outcomes).unwrap(), 1);
}

#[test]
fn test_kill_all_success() {
    let ports = vec![record("tcp", 80, 1, "a"), record("tcp", 81, 2, "b")];
    let outcomes = vec![Ok(()), Ok(())];
    assert_eq!(kill_all_port_processes(&ports, &outcomes).unwrap(), 2);
}

#[test]
fn test_kill_all_total_failure_joins_errors() {
    let ports = vec![record("tcp", 80, 1, "a"), record("tcp", 81, 2, "b")];
    let outcomes = vec![Err("first".to_string()), Err("second".to_string())];
    assert_eq!(
        kill_all_port_processes(&ports, &outcomes).unwrap_err(),
        "first; second"
    );
}
