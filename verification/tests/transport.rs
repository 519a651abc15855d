use atomic_git::error::CliError;
use atomic_git::transport::{
    admit_transfer_ref, after_transfer_push, configure_fetch_refspecs, degraded_push_arguments,
    observe_remote_ref, queue_order, remote_lease_refspec, served_nothing, transfer_push_arguments,
    transfer_ref, verify_remote_binding_refs, CarrierEvidence, CarrierState, QueueAction,
    QueueItemOutcome, QueueOutcome, TransferAction, TransferRef, BINDING_REFSPEC,
    QUEUE_MAX_DEFAULT, VIEWS_REFSPEC,
};

fn message(error: CliError) -> String {
    match error {
        CliError::GitError { message } => message,
        CliError::InvalidOperation { message } => message,
        CliError::ViewNotFound { name } => name,
        CliError::Internal { message } => message,
    }
}

#[test]
fn lease_refspec_pins_the_expected_old_value() {
    let lease = remote_lease_refspec(Some("abc123"), "refs/heads/main");
    assert_eq!(lease.as_deref(), Some("--force-with-lease=refs/heads/main:abc123"));
}

#[test]
fn lease_refspec_is_none_without_an_observation() {
    assert!(remote_lease_refspec(None, "refs/heads/main").is_none());
    assert!(remote_lease_refspec(Some("   "), "refs/heads/main").is_none());
}

#[test]
fn create_only_refspecs_are_exact() {
    assert_eq!(BINDING_REFSPEC, "+refs/atomic/bindings/*:refs/atomic/bindings/*");
    assert_eq!(VIEWS_REFSPEC, "+refs/atomic/views/*:refs/atomic/views/*");
    assert_eq!(QUEUE_MAX_DEFAULT, 64);
}

#[test]
fn fetch_refspecs_are_added_once() {
    let mut existing = vec!["+refs/heads/*:refs/remotes/origin/*".to_string()];
    let added = configure_fetch_refspecs(&existing);
    assert_eq!(added, vec![BINDING_REFSPEC.to_string(), VIEWS_REFSPEC.to_string()]);
    existing.push(VIEWS_REFSPEC.to_string());
    assert_eq!(configure_fetch_refspecs(&existing), vec![BINDING_REFSPEC.to_string()]);
    existing.push(BINDING_REFSPEC.to_string());
    assert!(configure_fetch_refspecs(&existing).is_empty());
}

#[test]
fn a_queue_run_counts_every_outcome() {
    let mut q = QueueOutcome::new();
    assert_eq!(q.take_up("r1".to_string(), true, 1), QueueAction::InspectCarrier);
    assert_eq!(q.inspect("r1", "1", &CarrierState::Identical).unwrap(), QueueAction::Next);
    assert_eq!(q.take_up("r2".to_string(), false, 1), QueueAction::Next);
    assert_eq!(q.take_up("r3".to_string(), true, 1), QueueAction::InspectCarrier);
    assert_eq!(q.inspect("r3", "3", &CarrierState::Absent).unwrap(), QueueAction::Publish);
    assert_eq!(q.publication(true), QueueItemOutcome::Published);
    assert_eq!(q.take_up("r4".to_string(), true, 1), QueueAction::Stop);
    assert_eq!((q.published, q.already_present, q.unresolvable), (1, 1, 1));
    assert_eq!(q.refs, vec!["r1".to_string(), "r2".to_string(), "r3".to_string()]);
    assert!(!q.all_local_ok());
    assert!(QueueOutcome::new().all_local_ok());
}

#[test]
fn a_second_run_finds_every_ref_in_place() {
    let mut q = QueueOutcome::new();
    for (name, id) in [("r1", "1"), ("r2", "2"), ("r3", "3")] {
        assert_eq!(q.take_up(name.to_string(), true, 1), QueueAction::InspectCarrier);
        assert_eq!(q.inspect(name, id, &CarrierState::Identical).unwrap(), QueueAction::Next);
    }
    assert_eq!((q.published, q.already_present, q.unresolvable), (0, 3, 0));
    assert!(q.all_local_ok());
}

#[test]
fn an_idempotent_publication_is_present_already() {
    let mut q = QueueOutcome::new();
    q.take_up("r".to_string(), true, 4);
    assert_eq!(q.publication(false), QueueItemOutcome::AlreadyPresent);
    assert_eq!(q.already_present, 1);
}

#[test]
fn a_foreign_carrier_ends_the_run() {
    let mut q = QueueOutcome::new();
    q.take_up("refs/x".to_string(), true, 4);
    let error = q.inspect("refs/x", "ab", &CarrierState::Differing).unwrap_err();
    assert_eq!(
        message(error),
        "binding ref 'refs/x' publishes binding ab with bytes differing from the stored binding; refusing to treat it as present or to transfer it"
    );
    let error = q
        .inspect("refs/x", "ab", &CarrierState::Unverifiable("broken".to_string()))
        .unwrap_err();
    assert_eq!(
        message(error),
        "binding ref 'refs/x' exists but is not a verifiable carrier of stored binding ab (create-only violation, refusing to transfer or overwrite): broken"
    );
}

#[test]
fn bindings_are_taken_up_in_the_order_of_their_ids() {
    let ids = vec!["b2".to_string(), "a".to_string(), "b1".to_string(), "a".to_string()];
    assert_eq!(queue_order(ids), vec!["a", "a", "b1", "b2"]);
}

#[test]
fn only_canonical_backed_refs_transfer() {
    let stored = vec!["aa".to_string()];
    assert!(admit_transfer_ref("n", Some("aa"), "n", &stored).is_ok());
    assert!(message(admit_transfer_ref("n", None, "n", &stored).unwrap_err())
        .contains("unregistered refs never transfer"));
    assert!(message(admit_transfer_ref("n", Some("aa"), "m", &stored).unwrap_err())
        .contains("('m'); re-shaped"));
    assert!(message(admit_transfer_ref("n", Some("bb"), "n", &stored).unwrap_err())
        .contains("not backed by a stored binding"));
    let carrier = CarrierEvidence { same_bytes: true, oid: "0123".to_string() };
    assert_eq!(transfer_ref("n", "aa", true, Some(&carrier)).unwrap().oid, "0123");
    assert!(message(transfer_ref("n", "aa", false, Some(&carrier)).unwrap_err())
        .contains("disappeared"));
    assert!(message(transfer_ref("n", "aa", true, None).unwrap_err()).contains("vanished"));
    let foreign = CarrierEvidence { same_bytes: false, oid: "0123".to_string() };
    assert!(message(transfer_ref("n", "aa", true, Some(&foreign)).unwrap_err())
        .contains("the published bytes never transfer"));
}

#[test]
fn transfers_are_create_only() {
    let refs = vec![TransferRef {
        name: "refs/atomic/bindings/ab/abcd".to_string(),
        oid: "0123".to_string(),
    }];
    assert_eq!(
        transfer_push_arguments("origin", &refs),
        vec![
            "push",
            "origin",
            "--force-with-lease=refs/atomic/bindings/ab/abcd:",
            "0123:refs/atomic/bindings/ab/abcd",
        ]
    );
    assert_eq!(
        degraded_push_arguments("origin", &refs[0]),
        vec![
            "push",
            "origin",
            "--force-with-lease=refs/heads/atomic/bindings/ab/abcd:",
            "0123:refs/heads/atomic/bindings/ab/abcd",
        ]
    );
    assert_eq!(after_transfer_push(true, true), TransferAction::VerifyRemote);
    assert_eq!(after_transfer_push(false, true), TransferAction::Degrade);
    assert_eq!(after_transfer_push(false, false), TransferAction::Refuse);
}

#[test]
fn remote_verification_names_every_gap() {
    let refs = vec![
        TransferRef { name: "r1".to_string(), oid: "1".to_string() },
        TransferRef { name: "r2".to_string(), oid: "2".to_string() },
        TransferRef { name: "r3".to_string(), oid: "3".to_string() },
    ];
    let complete = "1\tr1\n2\tr2\nbroken\n3\tr3\n";
    let verified: Vec<(String, String)> = verify_remote_binding_refs(complete, &refs)
        .unwrap()
        .into_iter()
        .map(|t| (t.name, t.oid))
        .collect();
    let pair = |name: &str, oid: &str| (name.to_string(), oid.to_string());
    assert_eq!(verified, vec![pair("r1", "1"), pair("r2", "2"), pair("r3", "3")]);
    let gaps = "1\tr1\n9\tr2\n";
    assert_eq!(
        message(verify_remote_binding_refs(gaps, &refs).unwrap_err()),
        "binding transfer verification FAILED — publication not reported: ref 'r2' holds 9 but the local binding commit is 2; ref 'r3' is absent from the remote after transfer"
    );
}

#[test]
fn a_remote_ref_is_observed_at_its_first_line() {
    let output = "aaa\trefs/heads/main\nbbb refs/heads/dev\nccc\trefs/heads/main\n";
    assert_eq!(observe_remote_ref(output, "refs/heads/main"), Some("aaa".to_string()));
    assert_eq!(observe_remote_ref(output, "refs/heads/dev"), Some("bbb".to_string()));
    assert_eq!(observe_remote_ref(output, "refs/heads/x"), None);
}

#[test]
fn a_remote_that_serves_nothing_fails_the_fetch() {
    assert!(served_nothing(2, 0));
    assert!(!served_nothing(2, 1));
    assert!(!served_nothing(0, 0));
}
