use portprobe::inspect::{classify, ExecEvent, InspectionResult};
use portprobe::scan::{attach_inspection, Port, Status};

#[test]
fn clean_exit_is_success_with_output() {
    let r = classify(ExecEvent::Finished {
        success: true,
        code: Some(0),
        stdout: Some("nginx 1234 root".to_string()),
        stderr: Some("".to_string()),
    });
    match r {
        InspectionResult::Success(text) => assert_eq!(text, "nginx 1234 root"),
        _ => panic!("expected Success"),
    }
}

#[test]
fn nonzero_exit_is_command_failed() {
    let r = classify(ExecEvent::Finished {
        success: false,
        code: Some(1),
        stdout: Some("".to_string()),
        stderr: Some("permission denied".to_string()),
    });
    match r {
        InspectionResult::CommandFailed(code, text) => {
            assert_eq!(code, 1);
            assert_eq!(text, "permission denied");
        },
        _ => panic!("expected CommandFailed"),
    }
}

#[test]
fn launch_failure_is_execution_error() {
    let r = classify(ExecEvent::LaunchFailed("no such file or directory".to_string()));
    match r {
        InspectionResult::ExecutionError(text) => {
            assert_eq!(text, "no such file or directory")
        },
        _ => panic!("expected ExecutionError"),
    }
}

#[test]
fn signal_termination_is_execution_error() {
    let r = classify(ExecEvent::Finished {
        success: false,
        code: None,
        stdout: None,
        stderr: None,
    });
    match r {
        InspectionResult::ExecutionError(text) => {
            assert_eq!(text, "process terminated by signal")
        },
        _ => panic!("expected ExecutionError"),
    }
}

#[test]
fn undecodable_output_is_execution_error() {
    let r = classify(ExecEvent::Finished {
        success: true,
        code: Some(0),
        stdout: None,
        stderr: None,
    });
    match r {
        InspectionResult::ExecutionError(text) => {
            assert_eq!(text, "inspection output was not valid text")
        },
        _ => panic!("expected ExecutionError"),
    }
}

#[test]
fn undecodable_stderr_on_failure_is_execution_error() {
    let r = classify(ExecEvent::Finished {
        success: false,
        code: Some(2),
        stdout: None,
        stderr: None,
    });
    assert!(matches!(r, InspectionResult::ExecutionError(_)));
}

#[test]
fn inspection_failure_never_downgrades_open() {
    let mut p = Port { num: 80, stat: Status::Open, meta: None };
    let failure = classify(ExecEvent::Finished {
        success: false,
        code: Some(1),
        stdout: None,
        stderr: Some("boom".to_string()),
    });
    attach_inspection(&mut p, failure);
    assert!(matches!(p.stat, Status::Open));
    assert!(matches!(p.meta, Some(InspectionResult::CommandFailed(1, _))));
}

#[test]
fn execution_error_attaches_without_status_change() {
    let mut p = Port { num: 443, stat: Status::Open, meta: None };
    let err = classify(ExecEvent::LaunchFailed("spawn failed".to_string()));
    attach_inspection(&mut p, err);
    assert!(matches!(p.stat, Status::Open));
    assert!(matches!(p.meta, Some(InspectionResult::ExecutionError(_))));
    assert_eq!(p.num, 443);
}
