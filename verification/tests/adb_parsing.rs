use adb_qr::adb::{
    adb_binary_name, common_adb_paths, endpoint_host, find_connect_service, has_new_device,
    pairing_service_names, pairing_services, parse_devices, parse_mdns_services,
    select_pairing_service, Adb, AdbCommand, AdbLocation, CommandOutput, MdnsService,
    ADB_NOT_FOUND, MDNS_CONNECT_SERVICE, MDNS_PAIRING_SERVICE,
};
use adb_qr::error::ErrorKind;

fn service(name: &str, service_type: &str, endpoint: &str) -> MdnsService {
    MdnsService {
        name: name.to_string(),
        service_type: service_type.to_string(),
        endpoint: endpoint.to_string(),
    }
}

fn output(stdout: &str, stderr: &str, success: bool) -> CommandOutput {
    CommandOutput { stdout: stdout.to_string(), stderr: stderr.to_string(), success }
}

fn strings(items: &[&str]) -> Vec<String> {
    items.iter().map(|s| s.to_string()).collect()
}

#[test]
fn parses_mdns_services_output() {
    let services = parse_mdns_services(
        "List of discovered mdns services\nadb-qr-test\t_adb-tls-pairing._tcp\t192.168.0.5:37123\nignored\t_adb-tls-connect._tcp\t192.168.0.5:43210\n",
    );

    assert_eq!(services.len(), 2);
    assert_eq!(services[0].name, "adb-qr-test");
    assert_eq!(services[0].endpoint, "192.168.0.5:37123");
}

#[test]
fn parses_devices_output() {
    let devices = parse_devices(
        "List of devices attached\nadb-ABC123._adb-tls-connect._tcp\tdevice\nemulator-5554\tdevice\n\n",
    );

    assert_eq!(devices.len(), 2);
    assert!(devices[0].contains("adb-ABC123"));
}

#[test]
fn extracts_ipv4_and_ipv6_endpoint_hosts() {
    assert_eq!(endpoint_host("192.168.0.5:37123"), "192.168.0.5");
    assert_eq!(endpoint_host("[fe80::1234]:37123"), "fe80::1234");
}

#[test]
fn mdns_lines_without_port_or_fields_are_skipped() {
    let services = parse_mdns_services(
        "  name-only\nno-port _adb-tls-pairing._tcp 10.0.0.1\r\n   spaced   _adb-tls-connect._tcp   10.0.0.2:5555  extra \r\nList of discovered mdns services\n",
    );
    assert_eq!(services.len(), 1);
    assert_eq!(services[0].name, "spaced");
    assert_eq!(services[0].service_type, MDNS_CONNECT_SERVICE);
    assert_eq!(services[0].endpoint, "10.0.0.2:5555");
    assert!(parse_mdns_services("").is_empty());
}

#[test]
fn device_lines_are_trimmed_and_notices_dropped() {
    let devices = parse_devices(
        "* daemon not running; starting now at tcp:5037\r\n* daemon started successfully\r\nList of devices attached\r\n  serial-1\tdevice  \r\n\t\nserial-2\toffline",
    );
    assert_eq!(devices, strings(&["serial-1\tdevice", "serial-2\toffline"]));
}

#[test]
fn endpoints_without_colon_are_their_own_host() {
    assert_eq!(endpoint_host("localhost"), "localhost");
    assert_eq!(endpoint_host("[::1]:5555"), "::1");
    assert_eq!(endpoint_host(":5555"), "");
}

#[test]
fn command_arguments() {
    assert_eq!(AdbCommand::Version.args(), strings(&["version"]));
    assert_eq!(AdbCommand::MdnsCheck.args(), strings(&["mdns", "check"]));
    assert_eq!(AdbCommand::MdnsServices.args(), strings(&["mdns", "services"]));
    assert_eq!(
        AdbCommand::Pair { endpoint: "1.2.3.4:5".to_string(), code: "abc".to_string() }.args(),
        strings(&["pair", "1.2.3.4:5", "abc"])
    );
    assert_eq!(
        AdbCommand::Connect { endpoint: "1.2.3.4:5".to_string() }.args(),
        strings(&["connect", "1.2.3.4:5"])
    );
    assert_eq!(AdbCommand::Devices.args(), strings(&["devices"]));
}

#[test]
fn run_text_joins_streams_and_trims() {
    let adb = Adb::from_path("/usr/bin/adb".to_string());
    let text = adb.run_text(&AdbCommand::Version, &output("  out", "err  \n", true)).unwrap();
    assert_eq!(text, "out\nerr");
    let text = adb.run_text(&AdbCommand::Version, &output("out\n", "err", true)).unwrap();
    assert_eq!(text, "out\nerr");
    let text = adb.run_text(&AdbCommand::Version, &output("", "err", true)).unwrap();
    assert_eq!(text, "err");
    let text = adb.version_text(&output("Android Debug Bridge version 1.0.41\n", "", true)).unwrap();
    assert_eq!(text, "Android Debug Bridge version 1.0.41");
}

#[test]
fn failed_command_names_its_arguments() {
    let adb = Adb::from_path("adb".to_string());
    let err = adb.mdns_check(&output("", "unsupported command\n", false)).unwrap_err();
    assert_eq!(err.kind, ErrorKind::Adb);
    assert_eq!(err.message, "adb mdns check failed: unsupported command");
    let err = adb.pair("10.0.0.1:1", "secret", &output("bad", "", false)).unwrap_err();
    assert_eq!(err.message, "adb pair 10.0.0.1:1 secret failed: bad");
    assert!(adb.pair("10.0.0.1:1", "secret", &output("Successfully paired", "", true)).is_ok());
}

#[test]
fn connect_accepts_only_connected_replies() {
    let adb = Adb::from_path("adb".to_string());
    assert!(adb.connect("10.0.0.1:5555", &output("connected to 10.0.0.1:5555\n", "", true)).is_ok());
    assert!(adb
        .connect("10.0.0.1:5555", &output("already connected to 10.0.0.1:5555", "", true))
        .is_ok());
    let err = adb
        .connect("10.0.0.1:5555", &output("failed to connect to 10.0.0.1:5555\n", "", true))
        .unwrap_err();
    assert_eq!(err.kind, ErrorKind::Adb);
    assert_eq!(err.message, "adb connect 10.0.0.1:5555 failed: failed to connect to 10.0.0.1:5555");
}

#[test]
fn service_listings_through_adb() {
    let adb = Adb::from_path("adb".to_string());
    let out = output(
        "List of discovered mdns services\na\t_adb-tls-pairing._tcp\t1.1.1.1:1\nb\t_adb-tls-connect._tcp\t1.1.1.1:2\nc\t_adb-tls-pairing._tcp\t1.1.1.1:3\n",
        "",
        true,
    );
    assert_eq!(adb.list_mdns_services(&out).unwrap().len(), 3);
    let pairing = adb.list_pairing_services(&out).unwrap();
    assert_eq!(pairing.len(), 2);
    assert_eq!(pairing[0].name, "a");
    assert_eq!(pairing[1].name, "c");
    assert!(adb.list_pairing_services(&output("", "", false)).is_err());
}

#[test]
fn device_set_holds_each_device_once() {
    let adb = Adb::from_path("adb".to_string());
    let out = output("List of devices attached\nx\tdevice\ny\tdevice\nx\tdevice\n", "", true);
    assert_eq!(adb.device_set(&out).unwrap(), strings(&["x\tdevice", "y\tdevice"]));
}

#[test]
fn new_device_detection() {
    let baseline = strings(&["old\tdevice"]);
    assert!(!has_new_device(&strings(&["old\tdevice"]), &baseline));
    assert!(!has_new_device(&strings(&["new\toffline"]), &baseline));
    assert!(has_new_device(&strings(&["old\tdevice", "new\tdevice"]), &baseline));
}

#[test]
fn pairing_selection_prefers_expected_name() {
    let services = vec![
        service("other", MDNS_PAIRING_SERVICE, "1.1.1.1:1"),
        service("wanted", MDNS_CONNECT_SERVICE, "1.1.1.1:2"),
        service("wanted", MDNS_PAIRING_SERVICE, "1.1.1.1:3"),
    ];
    let chosen = select_pairing_service(&services, "wanted", &Vec::new()).unwrap();
    assert_eq!(chosen.endpoint, "1.1.1.1:3");
}

#[test]
fn pairing_selection_falls_back_to_new_services() {
    let services = vec![
        service("stale", MDNS_PAIRING_SERVICE, "1.1.1.1:1"),
        service("fresh", MDNS_PAIRING_SERVICE, "1.1.1.1:2"),
    ];
    let chosen = select_pairing_service(&services, "wanted", &strings(&["stale"])).unwrap();
    assert_eq!(chosen.name, "fresh");
    assert!(select_pairing_service(&services, "wanted", &strings(&["stale", "fresh"])).is_none());
    assert_eq!(pairing_service_names(&services), strings(&["stale", "fresh"]));
    assert_eq!(pairing_services(&services).len(), 2);
}

#[test]
fn connect_service_matches_pairing_host() {
    let services = vec![
        service("a", MDNS_CONNECT_SERVICE, "10.0.0.9:4000"),
        service("b", MDNS_PAIRING_SERVICE, "[fe80::1]:4001"),
        service("c", MDNS_CONNECT_SERVICE, "[fe80::1]:4002"),
    ];
    let found = find_connect_service(&services, "[fe80::1]:37000").unwrap();
    assert_eq!(found.name, "c");
    assert!(find_connect_service(&services, "192.168.1.1:1").is_none());
}

#[test]
fn resolve_prefers_explicit_then_path_then_candidates() {
    let explicit = AdbLocation { path: "/opt/adb".to_string(), exists: true };
    let adb = Adb::resolve(Some(explicit), Some("/usr/bin/adb".to_string()), &Vec::new()).unwrap();
    assert_eq!(adb.executable(), "/opt/adb");

    let missing = AdbLocation { path: "/definitely/missing/adb".to_string(), exists: false };
    let err = Adb::resolve(Some(missing), Some("/usr/bin/adb".to_string()), &Vec::new()).unwrap_err();
    assert_eq!(err.kind, ErrorKind::Unsupported);
    assert_eq!(err.exit_code(), 4);
    assert_eq!(err.message, "adb was not found at /definitely/missing/adb");

    let adb = Adb::resolve(None, Some("/usr/bin/adb".to_string()), &Vec::new()).unwrap();
    assert_eq!(adb.executable(), "/usr/bin/adb");

    let candidates = vec![
        AdbLocation { path: "/a/adb".to_string(), exists: false },
        AdbLocation { path: "/b/adb".to_string(), exists: true },
        AdbLocation { path: "/c/adb".to_string(), exists: true },
    ];
    let adb = Adb::resolve(None, None, &candidates).unwrap();
    assert_eq!(adb.executable(), "/b/adb");

    let err = Adb::resolve(None, None, &candidates[..1].iter().map(|c| AdbLocation { path: c.path.clone(), exists: c.exists }).collect()).unwrap_err();
    assert_eq!(err.message, ADB_NOT_FOUND);
}

#[test]
fn launch_failure_message() {
    let adb = Adb::from_path("/x/adb".to_string());
    let err = adb.launch_failure("No such file or directory");
    assert_eq!(err.kind, ErrorKind::Adb);
    assert_eq!(err.message, "failed to execute adb at /x/adb: No such file or directory");
}

#[test]
fn common_install_locations() {
    let pairs = common_adb_paths(Some("/sdk"), None, Some("/home/u/"), Some(""));
    let expected: Vec<(String, String)> = [
        ("/sdk", "platform-tools"),
        ("/home/u/", "Library/Android/sdk/platform-tools"),
        ("/home/u/", "Android/Sdk/platform-tools"),
        ("/home/u/", "AppData/Local/Android/Sdk/platform-tools"),
        ("", "Android/Sdk/platform-tools"),
    ]
    .iter()
    .map(|(r, d)| (r.to_string(), d.to_string()))
    .collect();
    assert_eq!(pairs, expected);
    assert!(common_adb_paths(None, None, None, None).is_empty());
    let both = common_adb_paths(Some("a"), Some("b"), None, None);
    assert_eq!(both[0].0, "a");
    assert_eq!(both[1], ("b".to_string(), "platform-tools".to_string()));
    assert_eq!(adb_binary_name(true), "adb.exe");
    assert_eq!(adb_binary_name(false), "adb");
}
