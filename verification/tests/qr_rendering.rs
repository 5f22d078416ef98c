use adb_qr::error::ErrorKind;
use adb_qr::qr::{
    build_payload, encode, png_pixels, random_string, render_svg, render_svg_matrix,
    render_terminal, render_terminal_matrix, PairingPayload, QrMatrix, SECRET_ALPHABET,
    SERVICE_ALPHABET, SVG_BODY, SVG_HEAD, SVG_TAIL, TERMINAL_BORDER, TERMINAL_DARK,
    TERMINAL_DARK_BOTTOM, TERMINAL_DARK_TOP, TERMINAL_LIGHT, TERMINAL_RESET,
};

#[test]
fn builds_expected_payload() {
    assert_eq!(
        build_payload("adb-qr-test1234", "Secret123456789"),
        "WIFI:T:ADB;S:adb-qr-test1234;P:Secret123456789;;"
    );
}

#[test]
fn generated_payload_uses_expected_prefix() {
    let payload = PairingPayload::generate(None, None);
    assert!(payload.service_name.starts_with("studio-"));
    assert_eq!(payload.service_name.len(), "studio-".len() + 10);
    assert_eq!(payload.secret.len(), 16);
    assert!(payload.payload.contains(&payload.service_name));
}

#[test]
fn terminal_render_uses_explicit_black_and_white_cells() {
    let rendered = render_terminal("WIFI:T:ADB;S:studio-test1234;P:Secret123456789;;")
        .expect("terminal render");
    assert!(rendered.contains(TERMINAL_DARK));
    assert!(rendered.contains(TERMINAL_LIGHT));
    assert!(rendered.contains(TERMINAL_DARK_TOP));
    assert!(rendered.contains(TERMINAL_DARK_BOTTOM));
    assert!(rendered.contains(TERMINAL_RESET));
}

#[test]
fn terminal_render_packs_two_module_rows_per_line() {
    let payload = "WIFI:T:ADB;S:studio-test1234;P:Secret123456789;;";
    let size = encode(payload).expect("encode").size() + TERMINAL_BORDER * 2;
    let rendered = render_terminal(payload).expect("terminal render");

    assert_eq!(rendered.lines().count() as i32, (size + 1) / 2);
}

#[test]
fn pairing_payload_fits_compact_qr_version() {
    let payload = PairingPayload::generate(None, None);
    let qr = encode(&payload.payload).expect("encode");

    assert_eq!(qr.size(), 29);
}

#[test]
fn overrides_replace_generated_parts_unless_blank() {
    let payload =
        PairingPayload::generate(Some("adb-qr-testsvc".to_string()), Some("topsecret".to_string()));
    assert_eq!(payload.service_name, "adb-qr-testsvc");
    assert_eq!(payload.secret, "topsecret");
    assert_eq!(payload.payload, "WIFI:T:ADB;S:adb-qr-testsvc;P:topsecret;;");

    let payload = PairingPayload::generate(Some(" \t\u{3000}".to_string()), Some(String::new()));
    assert!(payload.service_name.starts_with("studio-"));
    assert!(payload.service_name["studio-".len()..].chars().all(|c| SERVICE_ALPHABET.contains(c)));
    assert_eq!(payload.secret.chars().count(), 16);
    assert!(payload.secret.chars().all(|c| SECRET_ALPHABET.contains(c)));
}

#[test]
fn random_strings_draw_from_the_alphabet() {
    let s = random_string(200, "xy");
    assert_eq!(s.chars().count(), 200);
    assert!(s.chars().all(|c| c == 'x' || c == 'y'));
    assert!(s.contains('x') && s.contains('y'));
    assert_eq!(random_string(0, "ab"), "");
    assert_eq!(random_string(0, ""), "");
}

#[test]
fn encoder_produces_a_real_symbol() {
    let qr = encode("hello").expect("encode");
    assert_eq!(qr.size(), 21);
    // Finder pattern corner is dark, the separator next to it is light.
    assert!(qr.get_module(0, 0));
    assert!(!qr.get_module(7, 0));
    assert!(!qr.get_module(-1, 0));
    assert!(!qr.get_module(21, 0));
}

#[test]
fn oversized_payload_is_an_internal_error() {
    let text = "a".repeat(3000);
    let err = encode(&text).err().expect("too long");
    assert_eq!(err.kind, ErrorKind::Internal);
    assert!(err.message.starts_with("failed to encode QR payload: "));
    assert_eq!(err.exit_code(), 1);
    assert!(render_terminal(&text).is_err());
    assert!(render_svg(&text).is_err());
}

fn single_dark_module() -> QrMatrix {
    QrMatrix::from_modules(1, vec![true]).expect("matrix")
}

#[test]
fn matrix_shape_is_checked() {
    assert!(QrMatrix::from_modules(2, vec![true, false, false]).is_none());
    assert!(QrMatrix::from_modules(-1, vec![]).is_none());
    assert!(QrMatrix::from_modules(178, vec![false; 178 * 178]).is_none());
    let m = QrMatrix::from_modules(2, vec![true, false, false, true]).expect("matrix");
    assert!(m.get_module(0, 0));
    assert!(!m.get_module(1, 0));
    assert!(m.get_module(1, 1));
}

#[test]
fn terminal_picture_of_one_module() {
    let rendered = render_terminal_matrix(&single_dark_module());
    let blank = format!("{}{}\n", TERMINAL_LIGHT.repeat(9), TERMINAL_RESET);
    let middle = format!(
        "{}{}{}{}\n",
        TERMINAL_LIGHT.repeat(4),
        TERMINAL_DARK_TOP,
        TERMINAL_LIGHT.repeat(4),
        TERMINAL_RESET
    );
    let expected = format!("{blank}{blank}{middle}{blank}{blank}");
    assert_eq!(rendered, expected);
    assert_eq!(rendered.lines().count(), 5);
}

#[test]
fn terminal_picture_pairs_rows() {
    let m = QrMatrix::from_modules(2, vec![false, true, true, true]).expect("matrix");
    let rendered = render_terminal_matrix(&m);
    let lines: Vec<&str> = rendered.lines().collect();
    assert_eq!(lines.len(), 5);
    let expected_middle = format!(
        "{}{}{}{}{}",
        TERMINAL_LIGHT.repeat(4),
        TERMINAL_DARK_BOTTOM,
        TERMINAL_DARK,
        TERMINAL_LIGHT.repeat(4),
        TERMINAL_RESET
    );
    assert_eq!(lines[2], expected_middle);
}

#[test]
fn svg_of_one_module() {
    let svg = render_svg_matrix(&single_dark_module());
    let expected = format!("{SVG_HEAD}72 72{SVG_BODY}M32,32h8v8h-8z{SVG_TAIL}");
    assert_eq!(svg, expected);
    assert!(svg.starts_with("<?xml version=\"1.0\" encoding=\"UTF-8\"?>\n<svg"));
    assert!(svg.ends_with("</svg>\n"));
}

#[test]
fn svg_of_payload_has_view_box() {
    let svg = render_svg("WIFI:T:ADB;S:a;P:b;;").expect("svg");
    let size = encode("WIFI:T:ADB;S:a;P:b;;").expect("encode").size();
    let dimension = (size + 8) * 8;
    assert!(svg.contains(&format!("viewBox=\"0 0 {dimension} {dimension}\"")));
    assert!(svg.contains("M32,32h8v8h-8z"));
}

#[test]
fn png_pixels_of_one_module() {
    let (dimension, pixels) = png_pixels(&single_dark_module());
    assert_eq!(dimension, 72);
    assert_eq!(pixels.len(), 72 * 72);
    for y in 0..72usize {
        for x in 0..72usize {
            let dark = (32..40).contains(&x) && (32..40).contains(&y);
            assert_eq!(pixels[y * 72 + x], if dark { 0 } else { 255 }, "pixel {x},{y}");
        }
    }
}

#[test]
fn joined_mdns_outputs_parse_in_order() {
    let a = "List of discovered mdns services\na\t_adb-tls-pairing._tcp\t1.1.1.1:1\r";
    let b = "b\t_adb-tls-connect._tcp\t2.2.2.2:2\n";
    let joined = adb_qr::adb::parse_mdns_services(&format!("{a}\n{b}"));
    let first = adb_qr::adb::parse_mdns_services(a);
    let second = adb_qr::adb::parse_mdns_services(b);
    assert_eq!(joined.len(), first.len() + second.len());
    assert_eq!(joined[0].name, "a");
    assert_eq!(joined[1].endpoint, "2.2.2.2:2");
}

#[test]
fn device_entries_read_back_unchanged() {
    let devices = adb_qr::adb::parse_devices("List of devices attached\r\n  x\tdevice \r\n* note\ny\toffline");
    assert_eq!(adb_qr::adb::parse_devices(&devices.join("\n")), devices);
}

#[test]
fn payload_splits_back_into_name_and_secret() {
    let p = build_payload("svc-1", "se;P:cret");
    let body = p.strip_prefix("WIFI:T:ADB;S:").unwrap().strip_suffix(";;").unwrap();
    assert_eq!(body.split_once(";P:"), Some(("svc-1", "se;P:cret")));
}
