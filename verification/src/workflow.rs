//! The decisions of the pairing flow and the text it reports.
//!
//! The flow alternates `adb` commands, waiting and printing with decisions.
//! The commands, the clock and the terminal belong to the caller; each step
//! here takes what the previous outside action produced and says what to do
//! next.

use vstd::prelude::*;

use crate::adb::MdnsService;
use crate::error::{kind_exit_code, AppError, ErrorKind};
use crate::qr::PairingPayload;

verus! {

/// Seconds to wait for pairing when no timeout is given.
pub const DEFAULT_TIMEOUT_SECS: u64 = 90;

/// Seconds to wait for the device right after pairing.
pub const FIRST_DEVICE_WAIT_SECS: u64 = 2;

/// Seconds to look for the device's connection service.
pub const CONNECT_LOOKUP_SECS: u64 = 8;

/// Seconds to wait for the device after connecting.
pub const FINAL_DEVICE_WAIT_SECS: u64 = 5;

/// The message of a pairing service that did not show up in time.
pub open spec fn pairing_timeout_message(service_name: Seq<char>) -> Seq<char> {
    "timed out waiting for pairing service `"@ + service_name
        + "` to appear in adb mDNS discovery"@
}

/// The error for a pairing service that did not show up in time.
pub fn pairing_timeout(service_name: &str) -> (e: AppError)
    ensures
        e.kind == ErrorKind::Timeout,
        e.message@ == pairing_timeout_message(service_name@),
{
    let mut m = String::new();
    m.push_str("timed out waiting for pairing service `");
    m.push_str(service_name);
    m.push_str("` to appear in adb mDNS discovery");
    proof {
        assert(seq![] + "timed out waiting for pairing service `"@
            =~= "timed out waiting for pairing service `"@);
    }
    AppError::timeout(m)
}

/// What the pairing loop does after trying to pair with a service.
#[derive(Debug)]
pub enum PairingStep {
    /// Paired with this service.
    Paired(MdnsService),
    /// The service belongs to another pairing session: keep waiting, with
    /// its name added to the services to ignore.
    KeepWaiting(Vec<String>),
    /// Pairing with the expected service failed.
    Failed(AppError),
}

/// Decides after an attempt to pair with `service`. A service other than the
/// expected one that rejects the secret is another pairing session (a
/// leftover pairing dialog, an abandoned scan): it is ignored from then on
/// and the loop keeps waiting for the expected one.
pub fn after_pair_attempt(
    expected: &str,
    service: MdnsService,
    outcome: Result<(), AppError>,
    baseline: Vec<String>,
) -> (r: PairingStep)
    ensures
        match outcome {
            Ok(_) => r matches PairingStep::Paired(s) && s@ == service@,
            Err(e) => if service.name@ == expected@ {
                r matches PairingStep::Failed(f) && f.kind == e.kind && f.message@ == e.message@
            } else {
                r matches PairingStep::KeepWaiting(b) && b.deep_view() == baseline.deep_view().push(
                    service.name@,
                )
            },
        },
{
    match outcome {
        Ok(()) => PairingStep::Paired(service),
        Err(e) => {
            if crate::text::same_text(service.name.as_str(), expected) {
                PairingStep::Failed(e)
            } else {
                let mut b = baseline;
                let ghost before = b.deep_view();
                b.push(service.name);
                proof {
                    assert(b.deep_view() =~= before.push(service.name@));
                }
                PairingStep::KeepWaiting(b)
            }
        },
    }
}

/// What to do next once the device is paired.
#[derive(Debug)]
pub enum LinkAction {
    /// Wait up to this long for the device to show up in `adb devices`;
    /// `final_check` tells whether this is the last wait of the flow.
    WaitForDevice { seconds: u64, final_check: bool },
    /// Look up to this long for the device's connection service.
    FindConnectService { seconds: u64 },
    /// Run `adb connect` on this endpoint.
    Connect { endpoint: String },
    /// Stop: whether the device is visible, and a warning to show.
    Done { connected: bool, warning: Option<String> },
    /// Stop with this error.
    Abort(AppError),
}

/// `a` ends the flow, with or without the device visible, and with the
/// given warning.
pub open spec fn stops(a: LinkAction, visible: bool, warning: Option<Seq<char>>) -> bool {
    match a {
        LinkAction::Done { connected, warning: w } => connected == visible && opt_text(w)
            == warning,
        _ => false,
    }
}

/// The first action after pairing.
pub fn after_pairing() -> (a: LinkAction)
    ensures
        a matches LinkAction::WaitForDevice { seconds, final_check } && seconds
            == FIRST_DEVICE_WAIT_SECS && !final_check,
{
    LinkAction::WaitForDevice { seconds: FIRST_DEVICE_WAIT_SECS, final_check: false }
}

/// Decides after a wait for the device, given the `final_check` flag of the
/// [`LinkAction::WaitForDevice`] that asked for it. After the first wait a missing
/// device leads to looking for its connection service; after the final one
/// the flow ends either way. An `adb` error ends the flow with that error.
pub fn after_device_check(seen: Result<bool, AppError>, final_check: bool) -> (a: LinkAction)
    ensures
        match seen {
            Ok(true) => stops(a, true, None),
            Ok(false) => if final_check {
                stops(a, false, None)
            } else {
                a matches LinkAction::FindConnectService { seconds } && seconds
                    == CONNECT_LOOKUP_SECS
            },
            Err(e) => a matches LinkAction::Abort(f) && f.kind == e.kind && f.message@
                == e.message@,
        },
{
    match seen {
        Ok(true) => LinkAction::Done { connected: true, warning: None },
        Ok(false) => {
            if final_check {
                LinkAction::Done { connected: false, warning: None }
            } else {
                LinkAction::FindConnectService { seconds: CONNECT_LOOKUP_SECS }
            }
        },
        Err(e) => LinkAction::Abort(e),
    }
}

/// Decides after looking for the connection service: connect to it when one
/// was found; otherwise stop unconnected, with a warning when the lookup
/// failed.
pub fn after_connect_lookup(found: Result<Option<MdnsService>, AppError>) -> (a: LinkAction)
    ensures
        match found {
            Ok(Some(s)) => a matches LinkAction::Connect { endpoint } && endpoint@ == s.endpoint@,
            Ok(None) => stops(a, false, None),
            Err(e) => stops(a, false, Some(e.message@)),
        },
{
    match found {
        Ok(Some(s)) => LinkAction::Connect { endpoint: s.endpoint },
        Ok(None) => LinkAction::Done { connected: false, warning: None },
        Err(e) => LinkAction::Done { connected: false, warning: Some(e.message) },
    }
}

/// Decides after `adb connect`: wait for the device when it worked, stop
/// unconnected with a warning when it did not.
pub fn after_connect(result: Result<(), AppError>) -> (a: LinkAction)
    ensures
        match result {
            Ok(_) => a matches LinkAction::WaitForDevice { seconds, final_check } && seconds
                == FINAL_DEVICE_WAIT_SECS && final_check,
            Err(e) => stops(a, false, Some(e.message@)),
        },
{
    match result {
        Ok(()) => LinkAction::WaitForDevice { seconds: FINAL_DEVICE_WAIT_SECS, final_check: true },
        Err(e) => LinkAction::Done { connected: false, warning: Some(e.message) },
    }
}

/// The lines printed when the pairing flow ends.
pub open spec fn pair_summary_lines(connected: bool) -> Seq<Seq<char>> {
    if connected {
        seq!["Pairing succeeded and the device is visible in adb."@]
    } else {
        seq![
            "Pairing succeeded, but the device is not visible in adb yet."@,
            "Keep Wireless Debugging enabled, then run `adb connect <device-ip>:<connection-port>`."@,
            "Use the IP address and port shown on the main Wireless Debugging screen, not the pairing port."@,
        ]
    }
}

/// The lines printed when the pairing flow ends.
pub fn pair_summary(connected: bool) -> (r: Vec<String>)
    ensures
        r.deep_view() == pair_summary_lines(connected),
{
    let mut r: Vec<String> = Vec::new();
    if connected {
        r.push("Pairing succeeded and the device is visible in adb.".to_owned());
    } else {
        r.push("Pairing succeeded, but the device is not visible in adb yet.".to_owned());
        r.push(
            "Keep Wireless Debugging enabled, then run `adb connect <device-ip>:<connection-port>`.".to_owned(),
        );
        r.push(
            "Use the IP address and port shown on the main Wireless Debugging screen, not the pairing port.".to_owned(),
        );
    }
    assert(r.deep_view() =~= pair_summary_lines(connected));
    r
}

/// The exit code of a run: its own code when it finished, the error's code
/// when it failed.
pub fn exit_code_for(result: &Result<i32, AppError>) -> (code: i32)
    ensures
        match result {
            Ok(c) => code == c,
            Err(e) => code == kind_exit_code(e.kind),
        },
{
    match result {
        Ok(c) => *c,
        Err(e) => e.exit_code(),
    }
}

/// The text of an optional string.
pub open spec fn opt_text(o: Option<String>) -> Option<Seq<char>> {
    match o {
        Some(s) => Some(s@),
        None => None,
    }
}

/// The lines that the `qr` command prints: service name and secret, the
/// terminal picture (or a note that the output is not a terminal), the
/// payload when asked for or when no picture was shown, and the files
/// written.
pub open spec fn qr_report_lines(
    service_name: Seq<char>,
    secret: Seq<char>,
    payload: Seq<char>,
    picture: Option<Seq<char>>,
    print_payload: bool,
    svg_path: Option<Seq<char>>,
    png_path: Option<Seq<char>>,
) -> Seq<Seq<char>> {
    seq!["Service name: "@ + service_name, "Secret: "@ + secret] + match picture {
        Some(p) => seq![p],
        None => seq!["Terminal QR output is not supported on this stdout target."@],
    } + if print_payload || picture is None {
        seq!["Payload: "@ + payload]
    } else {
        seq![]
    } + match svg_path {
        Some(p) => seq!["Wrote SVG: "@ + p],
        None => seq![],
    } + match png_path {
        Some(p) => seq!["Wrote PNG: "@ + p],
        None => seq![],
    }
}

fn labelled(label: &str, value: &str) -> (r: String)
    ensures
        r@ == label@ + value@,
{
    let mut r = String::new();
    r.push_str(label);
    r.push_str(value);
    proof {
        assert(seq![] + label@ =~= label@);
    }
    r
}

/// The lines that the `qr` command prints; see [`qr_report_lines`].
/// `picture` is the terminal rendering, given only when standard output is a
/// terminal.
pub fn qr_report(
    payload: &PairingPayload,
    picture: Option<String>,
    print_payload: bool,
    svg_path: Option<String>,
    png_path: Option<String>,
) -> (r: Vec<String>)
    ensures
        r.deep_view() == qr_report_lines(
            payload.service_name@,
            payload.secret@,
            payload.payload@,
            opt_text(picture),
            print_payload,
            opt_text(svg_path),
            opt_text(png_path),
        ),
{
    let ghost pic = opt_text(picture);
    let mut r: Vec<String> = Vec::new();
    r.push(labelled("Service name: ", payload.service_name.as_str()));
    r.push(labelled("Secret: ", payload.secret.as_str()));
    let shown = picture.is_some();
    match picture {
        Some(p) => r.push(p),
        None => r.push("Terminal QR output is not supported on this stdout target.".to_owned()),
    }
    if print_payload || !shown {
        r.push(labelled("Payload: ", payload.payload.as_str()));
    }
    match svg_path {
        Some(p) => r.push(labelled("Wrote SVG: ", p.as_str())),
        None => {},
    }
    match png_path {
        Some(p) => r.push(labelled("Wrote PNG: ", p.as_str())),
        None => {},
    }
    proof {
        assert(r.deep_view() =~= qr_report_lines(
            payload.service_name@,
            payload.secret@,
            payload.payload@,
            pic,
            print_payload,
            opt_text(svg_path),
            opt_text(png_path),
        ));
    }
    r
}

} // verus!
