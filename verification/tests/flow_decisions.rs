use adb_qr::adb::MdnsService;
use adb_qr::cli::{Cli, Commands, PairArgs, QrArgs};
use adb_qr::error::{AppError, ErrorKind};
use adb_qr::qr::PairingPayload;
use adb_qr::workflow::{
    after_connect, after_connect_lookup, after_device_check, after_pair_attempt, after_pairing,
    exit_code_for, pair_summary, pairing_timeout, qr_report, LinkAction, PairingStep,
};

fn service(name: &str, endpoint: &str) -> MdnsService {
    MdnsService {
        name: name.to_string(),
        service_type: "_adb-tls-pairing._tcp".to_string(),
        endpoint: endpoint.to_string(),
    }
}

#[test]
fn exit_codes_follow_error_kinds() {
    assert_eq!(ErrorKind::Unsupported.exit_code(), 4);
    assert_eq!(ErrorKind::Timeout.exit_code(), 3);
    assert_eq!(ErrorKind::Adb.exit_code(), 5);
    assert_eq!(ErrorKind::Internal.exit_code(), 1);
    assert_eq!(exit_code_for(&Ok(0)), 0);
    assert_eq!(exit_code_for(&Err(AppError::timeout("late".to_string()))), 3);
    assert_eq!(exit_code_for(&Err(AppError::adb("x".to_string()))), 5);
    let e = AppError::new(ErrorKind::Internal, "boom".to_string());
    assert_eq!(e.clone().message, "boom");
    assert_eq!(AppError::unsupported("u".to_string()).exit_code(), 4);
    assert_eq!(AppError::internal("i".to_string()).kind, ErrorKind::Internal);
}

#[test]
fn timeout_message_names_the_service() {
    let e = pairing_timeout("adb-qr-testsvc");
    assert_eq!(e.kind, ErrorKind::Timeout);
    assert_eq!(
        e.message,
        "timed out waiting for pairing service `adb-qr-testsvc` to appear in adb mDNS discovery"
    );
}

#[test]
fn pairing_attempt_outcomes() {
    match after_pair_attempt("want", service("want", "1.1.1.1:1"), Ok(()), Vec::new()) {
        PairingStep::Paired(s) => assert_eq!(s.endpoint, "1.1.1.1:1"),
        _ => panic!("expected paired"),
    }
    match after_pair_attempt(
        "want",
        service("other", "1.1.1.1:1"),
        Err(AppError::adb("wrong secret".to_string())),
        vec!["stale".to_string()],
    ) {
        PairingStep::KeepWaiting(b) => assert_eq!(b, vec!["stale".to_string(), "other".to_string()]),
        _ => panic!("expected to keep waiting"),
    }
    match after_pair_attempt(
        "want",
        service("want", "1.1.1.1:1"),
        Err(AppError::adb("wrong secret".to_string())),
        Vec::new(),
    ) {
        PairingStep::Failed(e) => {
            assert_eq!(e.kind, ErrorKind::Adb);
            assert_eq!(e.message, "wrong secret");
        }
        _ => panic!("expected failure"),
    }
}

#[test]
fn linking_after_pairing() {
    assert!(matches!(
        after_pairing(),
        LinkAction::WaitForDevice { seconds: 2, final_check: false }
    ));
    assert!(matches!(
        after_device_check(Ok(true), false),
        LinkAction::Done { connected: true, warning: None }
    ));
    assert!(matches!(
        after_device_check(Ok(false), false),
        LinkAction::FindConnectService { seconds: 8 }
    ));
    assert!(matches!(
        after_device_check(Ok(false), true),
        LinkAction::Done { connected: false, warning: None }
    ));
    assert!(matches!(
        after_device_check(Err(AppError::adb("x".to_string())), true),
        LinkAction::Abort(_)
    ));
    match after_connect_lookup(Ok(Some(service("c", "1.1.1.1:5555")))) {
        LinkAction::Connect { endpoint } => assert_eq!(endpoint, "1.1.1.1:5555"),
        _ => panic!("expected connect"),
    }
    assert!(matches!(
        after_connect_lookup(Ok(None)),
        LinkAction::Done { connected: false, warning: None }
    ));
    match after_connect_lookup(Err(AppError::adb("mdns broken".to_string()))) {
        LinkAction::Done { connected: false, warning: Some(w) } => assert_eq!(w, "mdns broken"),
        _ => panic!("expected warning"),
    }
    assert!(matches!(
        after_connect(Ok(())),
        LinkAction::WaitForDevice { seconds: 5, final_check: true }
    ));
    match after_connect(Err(AppError::adb("refused".to_string()))) {
        LinkAction::Done { connected: false, warning: Some(w) } => assert_eq!(w, "refused"),
        _ => panic!("expected warning"),
    }
}

#[test]
fn summaries_report_partial_success() {
    assert_eq!(pair_summary(true), vec!["Pairing succeeded and the device is visible in adb."]);
    let partial = pair_summary(false);
    assert_eq!(partial.len(), 3);
    assert_eq!(partial[0], "Pairing succeeded, but the device is not visible in adb yet.");
}

#[test]
fn qr_report_lines() {
    let payload = PairingPayload::generate(
        Some("adb-qr-testsvc".to_string()),
        Some("Secret123456789".to_string()),
    );
    let lines = qr_report(&payload, None, false, None, Some("/tmp/p.png".to_string()));
    assert_eq!(
        lines,
        vec![
            "Service name: adb-qr-testsvc".to_string(),
            "Secret: Secret123456789".to_string(),
            "Terminal QR output is not supported on this stdout target.".to_string(),
            "Payload: WIFI:T:ADB;S:adb-qr-testsvc;P:Secret123456789;;".to_string(),
            "Wrote PNG: /tmp/p.png".to_string(),
        ]
    );
    let lines = qr_report(&payload, Some("PIC".to_string()), false, Some("a.svg".to_string()), None);
    assert_eq!(lines[2], "PIC");
    assert_eq!(lines[3], "Wrote SVG: a.svg");
    assert_eq!(lines.len(), 4);
    let lines = qr_report(&payload, Some("PIC".to_string()), true, None, None);
    assert!(lines[3].starts_with("Payload: WIFI:T:ADB;S:adb-qr-testsvc;"));
}

#[test]
fn default_command_is_pairing() {
    let cli = Cli { command: None, pair: PairArgs { timeout: 90, adb_path: None } };
    match cli.into_command() {
        Commands::Pair(args) => assert_eq!(args.timeout, 90),
        Commands::Qr(_) => panic!("expected pairing"),
    }
    let cli = Cli {
        command: Some(Commands::Qr(QrArgs { svg: None, png: None, print_payload: true })),
        pair: PairArgs { timeout: 90, adb_path: None },
    };
    assert!(matches!(cli.into_command(), Commands::Qr(QrArgs { print_payload: true, .. })));
}
