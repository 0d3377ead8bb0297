use sget::codec::{canonical_policy, load};
use sget::pipeline::{
    exit_code, plan_options, Disposition, FetchError, Gate, GateAction, GateError, GateEvent,
    GateOutcome, IoMode, Request, RunError,
};
use sget::policy::{Key, Policy, RoleKeys, Signature, Signed, SigstoreOidcKey};

fn request(execute: bool, out_file: Option<&str>, print: bool, interactive: bool) -> Request {
    Request {
        execute,
        out_file: out_file.map(|s| s.to_string()),
        print,
        interactive,
    }
}

fn unsigned_policy() -> Policy {
    Policy {
        signatures: vec![Signature {
            keyid: "k1".to_string(),
            sig: "c2ln".to_string(),
            cert: "Y2VydA==".to_string(),
        }],
        signed: Signed {
            consistent_snapshot: false,
            expires: 2000000000,
            keys: vec![(
                "k1".to_string(),
                Key::SigstoreOidc {
                    keyval: SigstoreOidcKey {
                        identity: "dev@example.com".to_string(),
                        issuer: "Example Root".to_string(),
                    },
                    scheme: "https://fulcio.sigstore.dev".to_string(),
                },
            )],
            namespace: "example".to_string(),
            roles: vec![(
                "root".to_string(),
                RoleKeys {
                    keyids: vec!["k1".to_string()],
                    threshold: 1,
                },
            )],
            spec_version: "1.0".to_string(),
            version: 1,
        },
    }
}

fn loaded_policy() -> Policy {
    // Gate construction wants a policy the store vouches for.
    let doc = canonical_policy(&unsigned_policy());
    load(doc.as_str()).expect("canonical text must load")
}

#[test]
fn two_dispositions_are_rejected_before_any_fetch() {
    let r = plan_options(request(true, Some("/tmp/out"), false, false), false);
    assert!(matches!(r, Err(GateError::ConfigConflict)));
    let r = plan_options(request(true, None, true, false), false);
    assert!(matches!(r, Err(GateError::ConfigConflict)));
    let r = plan_options(request(false, Some("/tmp/out"), true, false), false);
    assert!(matches!(r, Err(GateError::ConfigConflict)));
    // No gate exists for a conflicting request, so nothing was fetched:
    // the pipeline starts only from validated options.
}

#[test]
fn no_disposition_defaults_to_print() {
    let opts = plan_options(request(false, None, false, false), false).unwrap();
    assert!(matches!(opts.disposition, Disposition::Print));
    assert!(matches!(opts.io_mode, IoMode::Piped));
    assert!(!opts.enforce_policy);
}

#[test]
fn single_selections_map_to_their_disposition() {
    let opts = plan_options(request(true, None, false, true), true).unwrap();
    assert!(matches!(opts.disposition, Disposition::Execute));
    assert!(matches!(opts.io_mode, IoMode::Interactive));
    assert!(opts.enforce_policy);
    let opts = plan_options(request(false, Some("a.sh"), false, false), false).unwrap();
    match opts.disposition {
        Disposition::WriteFile(path) => assert_eq!(path, "a.sh"),
        _ => panic!("expected the write disposition"),
    }
}

#[test]
fn rejected_verification_never_reaches_the_runner() {
    // Policy-enforced mode; the fetch succeeds; the policy carries no
    // valid signature, so verification rejects. The runner action is never
    // issued, hence no ephemeral file is ever created for the bytes.
    let opts = plan_options(request(true, None, false, false), true).unwrap();
    let (mut gate, first) = Gate::new(opts, Some(loaded_policy()), "root".to_string(), 1700000000);
    assert!(matches!(first, GateAction::Fetch));
    let action = gate.step(GateEvent::Fetched(Ok(b"#!/bin/sh\nexit 0\n".to_vec())));
    match action {
        GateAction::Finish(GateOutcome::Failed(GateError::InsufficientSignatures {
            have,
            need,
        })) => {
            assert_eq!((have, need), (0, 1));
        }
        GateAction::Run(..) => panic!("rejected content must never reach the runner"),
        _ => panic!("expected the run to finish rejected"),
    }
}

#[test]
fn expired_policy_rejects_the_run() {
    let opts = plan_options(request(true, None, false, false), true).unwrap();
    let (mut gate, _) = Gate::new(opts, Some(loaded_policy()), "root".to_string(), 2100000000);
    let action = gate.step(GateEvent::Fetched(Ok(vec![1, 2, 3])));
    match action {
        GateAction::Finish(GateOutcome::Failed(GateError::PolicyExpired)) => {}
        _ => panic!("expected rejection for the expired policy"),
    }
}

#[test]
fn unverified_mode_is_an_explicit_choice() {
    // No policy supplied: enforcement is visibly off and the bytes go to
    // the chosen disposition directly.
    let opts = plan_options(request(false, None, true, false), false).unwrap();
    let (mut gate, _) = Gate::new(opts, None, "root".to_string(), 1700000000);
    let action = gate.step(GateEvent::Fetched(Ok(vec![7, 8])));
    match action {
        GateAction::Emit(bytes) => assert_eq!(bytes, vec![7, 8]),
        _ => panic!("expected the bytes on standard output"),
    }
    let done = gate.step(GateEvent::Emitted(Ok(())));
    match done {
        GateAction::Finish(GateOutcome::Completed(0)) => {}
        _ => panic!("expected a completed run"),
    }
}

#[test]
fn executed_script_exit_code_is_mirrored() {
    let opts = plan_options(request(true, None, false, false), false).unwrap();
    let (mut gate, _) = Gate::new(opts, None, "root".to_string(), 1700000000);
    let action = gate.step(GateEvent::Fetched(Ok(vec![9])));
    let (bytes, mode) = match action {
        GateAction::Run(bytes, mode) => (bytes, mode),
        _ => panic!("expected the run action"),
    };
    assert_eq!(bytes, vec![9]);
    assert!(matches!(mode, IoMode::Piped));
    let done = gate.step(GateEvent::Ran(Ok(42)));
    match done {
        GateAction::Finish(outcome) => assert_eq!(exit_code(&outcome), 42),
        _ => panic!("expected a finished run"),
    }
}

#[test]
fn fetch_failure_fails_the_run() {
    let cases = [
        (FetchError::NotFound, GateError::FetchNotFound),
        (FetchError::Network, GateError::FetchNetwork),
        (FetchError::InvalidReference, GateError::InvalidReference),
        (FetchError::MediaTypeMismatch, GateError::MediaTypeMismatch),
    ];
    for (fetch_err, gate_err) in cases {
        let opts = plan_options(request(false, None, false, false), false).unwrap();
        let (mut gate, _) = Gate::new(opts, None, "root".to_string(), 1700000000);
        let action = gate.step(GateEvent::Fetched(Err(fetch_err)));
        match action {
            GateAction::Finish(GateOutcome::Failed(e)) => assert_eq!(e, gate_err),
            _ => panic!("expected the fetch failure to surface"),
        }
    }
}

#[test]
fn launch_failure_maps_to_launch_error() {
    let opts = plan_options(request(true, None, false, false), false).unwrap();
    let (mut gate, _) = Gate::new(opts, None, "root".to_string(), 1700000000);
    let action = gate.step(GateEvent::Fetched(Ok(vec![1])));
    assert!(matches!(action, GateAction::Run(..)));
    let done = gate.step(GateEvent::Ran(Err(RunError::Launch)));
    match done {
        GateAction::Finish(outcome) => {
            assert!(matches!(
                outcome,
                GateOutcome::Failed(GateError::LaunchError)
            ));
            assert_eq!(exit_code(&outcome), 5);
        }
        _ => panic!("expected the launch failure to surface"),
    }
}

#[test]
fn write_failure_maps_to_io_error() {
    let opts = plan_options(request(false, Some("out.sh"), false, false), false).unwrap();
    let (mut gate, _) = Gate::new(opts, None, "root".to_string(), 1700000000);
    let action = gate.step(GateEvent::Fetched(Ok(vec![1])));
    match action {
        GateAction::Write(path, bytes) => {
            assert_eq!(path, "out.sh");
            assert_eq!(bytes, vec![1]);
        }
        _ => panic!("expected the write action"),
    }
    let done = gate.step(GateEvent::Wrote(Err(RunError::Io)));
    match done {
        GateAction::Finish(GateOutcome::Failed(GateError::IoError)) => {}
        _ => panic!("expected the write failure to surface"),
    }
}

#[test]
fn exit_codes_separate_failure_classes() {
    assert_eq!(exit_code(&GateOutcome::Completed(0)), 0);
    assert_eq!(exit_code(&GateOutcome::Completed(7)), 7);
    let config = exit_code(&GateOutcome::Failed(GateError::ConfigConflict));
    let fetch = exit_code(&GateOutcome::Failed(GateError::FetchNetwork));
    let policy = exit_code(&GateOutcome::Failed(GateError::PolicyExpired));
    let run = exit_code(&GateOutcome::Failed(GateError::LaunchError));
    assert!(config != 0 && fetch != 0 && policy != 0 && run != 0);
    assert_ne!(fetch, run);
    assert_ne!(policy, run);
    assert_ne!(config, fetch);
    assert_eq!(
        exit_code(&GateOutcome::Failed(GateError::InvalidReference)),
        fetch
    );
    assert_eq!(
        exit_code(&GateOutcome::Failed(GateError::UnknownRole)),
        policy
    );
}
