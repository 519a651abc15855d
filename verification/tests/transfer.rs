use atomic_git::error::CliError;
use atomic_git::transfer_run::{TransferRun, TransferStage, TransferStep};
use atomic_git::transport::{CarrierEvidence, DEGRADED_HEAD_BINDING_PREFIX};

fn failure(step: TransferStep) -> String {
    match step {
        TransferStep::Fail { error: CliError::GitError { message } } => message,
        other => panic!("expected a failure, got {:?}", other),
    }
}

const ONE: &str = "refs/atomic/bindings/aa/aa01";
const TWO: &str = "refs/atomic/bindings/bb/bb02";

fn begin(degraded: bool) -> TransferRun {
    let (run, first) = TransferRun::begin(
        "origin".to_string(),
        degraded,
        vec![ONE.to_string(), TWO.to_string()],
        vec!["aa01".to_string(), "bb02".to_string()],
    );
    assert!(matches!(first, TransferStep::Identify { name } if name == ONE));
    run
}

fn carrier(oid: &str) -> CarrierEvidence {
    CarrierEvidence { same_bytes: true, oid: oid.to_string() }
}

/// A transfer up to its push.
fn admitted(degraded: bool) -> TransferRun {
    let mut run = begin(degraded);
    assert!(matches!(
        run.identified(Some("aa01"), ONE),
        TransferStep::LoadCarrier { name, id } if name == ONE && id == "aa01"
    ));
    assert!(matches!(
        run.carrier_loaded(true, Some(&carrier("O1"))),
        TransferStep::Identify { name } if name == TWO
    ));
    run.identified(Some("bb02"), TWO);
    match run.carrier_loaded(true, Some(&carrier("O2"))) {
        TransferStep::RunGit { arguments } => assert_eq!(
            arguments,
            vec![
                "push".to_string(),
                "origin".to_string(),
                format!("--force-with-lease={}:", ONE),
                format!("O1:{}", ONE),
                format!("--force-with-lease={}:", TWO),
                format!("O2:{}", TWO),
            ]
        ),
        other => panic!("unexpected {:?}", other),
    }
    run
}

#[test]
fn a_transfer_is_reported_once_the_remote_holds_it() {
    let mut run = admitted(false);
    assert!(matches!(run.listed(true, "", ""), TransferStep::OutOfTurn));
    assert!(matches!(
        run.sent(true),
        TransferStep::ListRefs { arguments }
            if arguments == ["ls-remote", "origin", "refs/atomic/bindings/*"]
    ));
    match run.listed(true, "", &format!("O1\t{}\nO2\t{}\nX\trefs/other\n", ONE, TWO)) {
        TransferStep::Finish { verified, notice } => {
            let found: Vec<(String, String)> =
                verified.into_iter().map(|t| (t.name, t.oid)).collect();
            assert_eq!(
                found,
                vec![
                    (ONE.to_string(), "O1".to_string()),
                    (TWO.to_string(), "O2".to_string()),
                ]
            );
            assert_eq!(notice, None);
        }
        other => panic!("unexpected {:?}", other),
    }
    assert_eq!(run.stage, TransferStage::Done);
    assert!(matches!(run.sent(true), TransferStep::OutOfTurn));
}

#[test]
fn gaps_at_the_remote_are_not_reported_as_a_publication() {
    let mut run = admitted(false);
    run.sent(true);
    assert_eq!(
        failure(run.listed(true, "", &format!("X1\t{}\n", ONE))),
        format!(
            "binding transfer verification FAILED — publication not reported: ref '{}' holds X1 \
             but the local binding commit is O1; ref '{}' is absent from the remote after transfer",
            ONE, TWO
        )
    );
    let mut run = admitted(false);
    run.sent(true);
    assert_eq!(
        failure(run.listed(false, "exit status: 2", "")),
        "remote verification of the binding namespace failed (ls-remote exited exit status: 2); \
         publication is NOT reported"
    );
}

#[test]
fn a_refused_namespace_is_degraded_only_on_request() {
    let mut run = admitted(false);
    assert_eq!(
        failure(run.sent(false)),
        "git push of the binding namespace to 'origin' failed; hosts that reject custom \
         namespaces must not be silently degraded"
    );
    let mut run = admitted(true);
    assert_eq!(
        run.refusal(),
        "git push of the binding namespace to 'origin' failed; hosts that reject custom \
         namespaces must not be silently degraded"
    );
    let one = format!("{}aa/aa01", DEGRADED_HEAD_BINDING_PREFIX);
    match run.sent(false) {
        TransferStep::RunGit { arguments } => assert_eq!(
            arguments,
            vec![
                "push".to_string(),
                "origin".to_string(),
                format!("--force-with-lease={}:", one),
                format!("O1:{}", one),
            ]
        ),
        other => panic!("unexpected {:?}", other),
    }
    assert!(matches!(run.mirror_sent(true), TransferStep::RunGit { .. }));
    // A mirror that was refused is not expected at the remote.
    assert!(matches!(
        run.mirror_sent(false),
        TransferStep::ListRefs { arguments }
            if arguments == ["ls-remote", "origin", "refs/heads/atomic/bindings/*"]
    ));
    match run.listed(true, "", &format!("O1\t{}\n", one)) {
        TransferStep::Finish { verified, notice } => {
            assert_eq!(verified.len(), 1);
            assert_eq!(verified[0].name, one);
            assert_eq!(verified[0].oid, "O1");
            assert!(notice.unwrap().starts_with("DEGRADED publication: binding refs were mirrored"));
        }
        other => panic!("unexpected {:?}", other),
    }
}

#[test]
fn only_registered_refs_with_their_own_bytes_travel() {
    let mut run = begin(false);
    assert!(failure(run.identified(None, "")).contains("unregistered refs never transfer"));
    let mut run = begin(false);
    assert!(failure(run.identified(Some("aa01"), TWO)).contains("re-shaped binding refs"));
    let mut run = begin(false);
    assert!(failure(run.identified(Some("zz09"), ONE)).contains("not backed by a stored binding"));
    let mut run = begin(false);
    run.identified(Some("aa01"), ONE);
    assert_eq!(
        failure(run.carrier_loaded(false, None)),
        "stored binding aa01 disappeared between enumeration and transfer"
    );
    let mut run = begin(false);
    run.identified(Some("aa01"), ONE);
    assert_eq!(
        failure(run.carrier_loaded(true, None)),
        format!("binding ref '{}' vanished during carrier validation", ONE)
    );
    let mut run = begin(false);
    run.identified(Some("aa01"), ONE);
    let foreign = CarrierEvidence { same_bytes: false, oid: "O1".to_string() };
    assert!(failure(run.carrier_loaded(true, Some(&foreign)))
        .contains("the published bytes never transfer"));
    assert!(run.refs.is_empty());
    let (run, first) =
        TransferRun::begin("origin".to_string(), false, vec![], vec!["aa01".to_string()]);
    assert!(matches!(first, TransferStep::Finish { verified, .. } if verified.is_empty()));
    assert_eq!(run.stage, TransferStage::Done);
    let mut run = begin(true);
    assert_eq!(failure(run.failed(CliError::GitError { message: "no".to_string() })), "no");
}
