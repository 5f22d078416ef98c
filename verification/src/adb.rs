//! The `adb` side of the pairing flow: what the tool asks `adb` to do, how it
//! reads `adb`'s answers, and the decisions it takes on them.
//!
//! Running the `adb` process is left to the caller: each operation here takes
//! the captured output of the command that [`AdbCommand::args`] names.

use vstd::prelude::*;

use crate::error::{AppError, ErrorKind};
use crate::text::{
    chars_to_string, contains_text, count_trailing, has_prefix_at, has_substring, in_class,
    is_plain_line, is_space, join, join_strings, last_colon, leading, lemma_leading,
    lemma_lines_append, lemma_lines_have_no_newline, lemma_lines_of_joined_lines,
    lemma_lines_then_newline, lemma_trailing_exact, lemma_trim_of_trimmed, lemma_trim_shape,
    lemma_trim_strip_cr, lines, same_text, strip_cr, split_lines, split_words, str_chars, strip,
    strip_bounds, trim, trim_start, words, CharClass,
};

verus! {

/// The mDNS service type under which a device offers QR pairing.
pub const MDNS_PAIRING_SERVICE: &'static str = "_adb-tls-pairing._tcp";

/// The mDNS service type under which a paired device accepts connections.
pub const MDNS_CONNECT_SERVICE: &'static str = "_adb-tls-connect._tcp";

/// How `adb mdns services` starts its listing.
pub const MDNS_HEADER: &'static str = "List of discovered";

/// How `adb devices` starts its listing.
pub const DEVICES_HEADER: &'static str = "List of devices attached";

// ---------------------------------------------------------------------------
// mDNS services
// ---------------------------------------------------------------------------

/// One line of `adb mdns services`.
#[derive(Debug, Clone)]
pub struct MdnsService {
    pub name: String,
    pub service_type: String,
    pub endpoint: String,
}

/// The text of an [`MdnsService`].
pub struct ServiceRecord {
    pub name: Seq<char>,
    pub service_type: Seq<char>,
    pub endpoint: Seq<char>,
}

impl View for MdnsService {
    type V = ServiceRecord;

    open spec fn view(&self) -> ServiceRecord {
        ServiceRecord {
            name: self.name@,
            service_type: self.service_type@,
            endpoint: self.endpoint@,
        }
    }
}

impl MdnsService {
    /// A copy of this service.
    pub fn duplicate(&self) -> (r: MdnsService)
        ensures
            r@ == self@,
    {
        MdnsService {
            name: self.name.clone(),
            service_type: self.service_type.clone(),
            endpoint: self.endpoint.clone(),
        }
    }
}

/// The views of a list of services.
pub open spec fn records(v: Seq<MdnsService>) -> Seq<ServiceRecord> {
    Seq::new(v.len(), |i: int| v[i]@)
}

/// The service that one line of `adb mdns services` describes, if any: the
/// trimmed line is neither empty nor the header, and its first three words
/// are name, type and an endpoint that holds a `':'`.
pub open spec fn service_in_line(line: Seq<char>) -> Option<ServiceRecord> {
    let t = trim(line);
    if t.len() == 0 || MDNS_HEADER@.is_prefix_of(t) {
        None
    } else {
        let w = words(t);
        if w.len() >= 3 && last_colon(w[2]) is Some {
            Some(ServiceRecord { name: w[0], service_type: w[1], endpoint: w[2] })
        } else {
            None
        }
    }
}

/// The services of a list of lines, in order.
pub open spec fn services_in_lines(ls: Seq<Seq<char>>) -> Seq<ServiceRecord>
    decreases ls.len(),
{
    if ls.len() == 0 {
        seq![]
    } else {
        let earlier = services_in_lines(ls.drop_last());
        match service_in_line(ls.last()) {
            Some(r) => earlier.push(r),
            None => earlier,
        }
    }
}

/// The services listed in the output of `adb mdns services`.
pub open spec fn mdns_services(output: Seq<char>) -> Seq<ServiceRecord> {
    services_in_lines(lines(output))
}

/// Reads one line; see [`service_in_line`].
fn parse_service_line(line: &Vec<char>, header: &Vec<char>) -> (r: Option<MdnsService>)
    requires
        header@ == MDNS_HEADER@,
    ensures
        match r {
            Some(s) => service_in_line(line@) == Some(s@),
            None => service_in_line(line@) is None,
        },
{
    let (a, b) = strip_bounds(line, 0, line.len(), CharClass::Space);
    proof {
        assert(line@.subrange(0, line@.len() as int) =~= line@);
    }
    if a == b || has_prefix_at(line, a, b, header) {
        return None;
    }
    let w = split_words(line, a, b);
    proof {
        assert(w.deep_view().len() == w@.len());
    }
    if w.len() < 3 {
        return None;
    }
    proof {
        assert(w.deep_view()[0] == w@[0]@);
        assert(w.deep_view()[1] == w@[1]@);
        assert(w.deep_view()[2] == w@[2]@);
        assert(w@[2]@.subrange(0, w@[2]@.len() as int) =~= w@[2]@);
    }
    let tail = count_trailing(&w[2], 0, w[2].len(), CharClass::NotColon);
    if tail == w[2].len() {
        return None;
    }
    let name = chars_to_string(&w[0], 0, w[0].len());
    let service_type = chars_to_string(&w[1], 0, w[1].len());
    let endpoint = chars_to_string(&w[2], 0, w[2].len());
    proof {
        assert(name@ =~= w@[0]@);
        assert(service_type@ =~= w@[1]@);
        assert(endpoint@ =~= w@[2]@);
    }
    Some(MdnsService { name, service_type, endpoint })
}

/// Reads the output of `adb mdns services`.
pub fn parse_mdns_services(output: &str) -> (r: Vec<MdnsService>)
    ensures
        records(r@) == mdns_services(output@),
{
    let chars = str_chars(output);
    let header = str_chars(MDNS_HEADER);
    let ls = split_lines(&chars);
    let ghost all = ls.deep_view();
    let mut r: Vec<MdnsService> = Vec::new();
    let mut i: usize = 0;
    while i < ls.len()
        invariant
            i <= ls.len(),
            all == ls.deep_view(),
            all == lines(output@),
            header@ == MDNS_HEADER@,
            records(r@) == services_in_lines(all.take(i as int)),
        decreases ls.len() - i,
    {
        let found = parse_service_line(&ls[i], &header);
        proof {
            assert(all.take(i + 1).drop_last() =~= all.take(i as int));
            assert(all.take(i + 1).last() == ls@[i as int]@);
        }
        match found {
            Some(s) => {
                let ghost before = r@;
                r.push(s);
                proof {
                    assert(records(r@) =~= records(before).push(s@));
                }
            },
            None => {},
        }
        i += 1;
    }
    proof {
        assert(all.take(ls.len() as int) =~= all);
    }
    r
}

// ---------------------------------------------------------------------------
// Devices
// ---------------------------------------------------------------------------

/// A trimmed line of `adb devices` that names a device: not empty, not the
/// header, and not a daemon notice starting with `'*'`.
pub open spec fn is_device_line(t: Seq<char>) -> bool {
    t.len() > 0 && !DEVICES_HEADER@.is_prefix_of(t) && t[0] != '*'
}

/// The device lines of a list of lines, trimmed, in order.
pub open spec fn devices_in_lines(ls: Seq<Seq<char>>) -> Seq<Seq<char>>
    decreases ls.len(),
{
    if ls.len() == 0 {
        seq![]
    } else {
        let earlier = devices_in_lines(ls.drop_last());
        let t = trim(ls.last());
        if is_device_line(t) {
            earlier.push(t)
        } else {
            earlier
        }
    }
}

/// The device lines in the output of `adb devices`.
pub open spec fn device_lines(output: Seq<char>) -> Seq<Seq<char>> {
    devices_in_lines(lines(output))
}

/// Reads the output of `adb devices`.
pub fn parse_devices(output: &str) -> (r: Vec<String>)
    ensures
        r.deep_view() == device_lines(output@),
{
    let chars = str_chars(output);
    let header = str_chars(DEVICES_HEADER);
    let ls = split_lines(&chars);
    let ghost all = ls.deep_view();
    let mut r: Vec<String> = Vec::new();
    let mut i: usize = 0;
    while i < ls.len()
        invariant
            i <= ls.len(),
            all == ls.deep_view(),
            all == lines(output@),
            header@ == DEVICES_HEADER@,
            r.deep_view() == devices_in_lines(all.take(i as int)),
        decreases ls.len() - i,
    {
        let line = &ls[i];
        let (a, b) = strip_bounds(line, 0, line.len(), CharClass::Space);
        proof {
            assert(line@.subrange(0, line@.len() as int) =~= line@);
            assert(all.take(i + 1).drop_last() =~= all.take(i as int));
            assert(all.take(i + 1).last() == line@);
        }
        if a < b && !has_prefix_at(line, a, b, &header) && line[a] != '*' {
            let t = chars_to_string(line, a, b);
            let ghost before = r.deep_view();
            r.push(t);
            proof {
                assert(line@.subrange(a as int, b as int)[0] == line@[a as int]);
                assert(r.deep_view() =~= before.push(t@));
            }
        }
        i += 1;
    }
    proof {
        assert(all.take(ls.len() as int) =~= all);
    }
    r
}

// ---------------------------------------------------------------------------
// Endpoints
// ---------------------------------------------------------------------------

/// The host part of an `host:port` endpoint: the text before the last `':'`
/// without surrounding brackets, or the whole endpoint if it has no `':'`.
pub open spec fn host_of(endpoint: Seq<char>) -> Seq<char> {
    match last_colon(endpoint) {
        Some(i) => strip(endpoint.take(i), CharClass::Bracket),
        None => endpoint,
    }
}

/// The host of an endpoint, as [`host_of`] describes it.
pub fn endpoint_host(endpoint: &str) -> (r: String)
    ensures
        r@ == host_of(endpoint@),
{
    let v = str_chars(endpoint);
    let tail = count_trailing(&v, 0, v.len(), CharClass::NotColon);
    proof {
        assert(v@.subrange(0, v@.len() as int) =~= v@);
    }
    if tail == v.len() {
        return chars_to_string(&v, 0, v.len());
    }
    let colon = v.len() - tail - 1;
    let (a, b) = strip_bounds(&v, 0, colon, CharClass::Bracket);
    proof {
        assert(v@.subrange(0, colon as int) =~= v@.take(colon as int));
    }
    chars_to_string(&v, a, b)
}

// ---------------------------------------------------------------------------
// Commands and their output
// ---------------------------------------------------------------------------

/// An `adb` invocation the tool makes.
#[derive(Debug)]
pub enum AdbCommand {
    /// `adb version`
    Version,
    /// `adb mdns check`
    MdnsCheck,
    /// `adb mdns services`
    MdnsServices,
    /// `adb pair <endpoint> <code>`
    Pair { endpoint: String, code: String },
    /// `adb connect <endpoint>`
    Connect { endpoint: String },
    /// `adb devices`
    Devices,
}

/// The arguments passed to `adb` for a command.
pub open spec fn command_args(c: AdbCommand) -> Seq<Seq<char>> {
    match c {
        AdbCommand::Version => seq!["version"@],
        AdbCommand::MdnsCheck => seq!["mdns"@, "check"@],
        AdbCommand::MdnsServices => seq!["mdns"@, "services"@],
        AdbCommand::Pair { endpoint, code } => seq!["pair"@, endpoint@, code@],
        AdbCommand::Connect { endpoint } => seq!["connect"@, endpoint@],
        AdbCommand::Devices => seq!["devices"@],
    }
}

impl AdbCommand {
    /// The arguments to run `adb` with.
    pub fn args(&self) -> (r: Vec<String>)
        ensures
            r.deep_view() == command_args(*self),
    {
        let mut r: Vec<String> = Vec::new();
        match self {
            AdbCommand::Version => {
                r.push("version".to_owned());
            },
            AdbCommand::MdnsCheck => {
                r.push("mdns".to_owned());
                r.push("check".to_owned());
            },
            AdbCommand::MdnsServices => {
                r.push("mdns".to_owned());
                r.push("services".to_owned());
            },
            AdbCommand::Pair { endpoint, code } => {
                r.push("pair".to_owned());
                r.push(endpoint.clone());
                r.push(code.clone());
            },
            AdbCommand::Connect { endpoint } => {
                r.push("connect".to_owned());
                r.push(endpoint.clone());
            },
            AdbCommand::Devices => {
                r.push("devices".to_owned());
            },
        }
        assert(r.deep_view() =~= command_args(*self));
        r
    }
}

/// What a finished `adb` process left behind, as text.
#[derive(Debug)]
pub struct CommandOutput {
    pub stdout: String,
    pub stderr: String,
    pub success: bool,
}

/// Standard output followed by standard error, with a line break between
/// them when the first does not end with one.
pub open spec fn combined_text(stdout: Seq<char>, stderr: Seq<char>) -> Seq<char> {
    if stderr.len() == 0 {
        stdout
    } else if stdout.len() > 0 && stdout.last() != '\n' {
        stdout + seq!['\n'] + stderr
    } else {
        stdout + stderr
    }
}

/// The text a command answered with, trimmed.
pub open spec fn reply_text(out: CommandOutput) -> Seq<char> {
    trim(combined_text(out.stdout@, out.stderr@))
}

/// The message of a failed command.
pub open spec fn failure_message(args: Seq<Seq<char>>, out: CommandOutput) -> Seq<char> {
    "adb "@ + join(args, " "@) + " failed: "@ + reply_text(out)
}

/// `e` is an `adb` error with message `m`.
pub open spec fn is_adb_error(e: AppError, m: Seq<char>) -> bool {
    e.kind == ErrorKind::Adb && e.message@ == m
}

/// The result of running `adb` with `args`: the reply when it succeeded, the
/// failure message when it did not.
pub open spec fn reply(args: Seq<Seq<char>>, out: CommandOutput) -> Result<Seq<char>, Seq<char>> {
    if out.success {
        Ok(reply_text(out))
    } else {
        Err(failure_message(args, out))
    }
}

/// The replies with which `adb connect` reports success.
pub open spec fn connected_reply(t: Seq<char>) -> bool {
    "connected to "@.is_prefix_of(t) || "already connected to "@.is_prefix_of(t)
}

/// First occurrences only, in order.
pub open spec fn distinct(s: Seq<Seq<char>>) -> Seq<Seq<char>>
    decreases s.len(),
{
    if s.len() == 0 {
        seq![]
    } else {
        let earlier = distinct(s.drop_last());
        if earlier.contains(s.last()) {
            earlier
        } else {
            earlier.push(s.last())
        }
    }
}

/// The `adb` executable the tool runs.
#[derive(Debug)]
pub struct Adb {
    executable: String,
}

/// Where to look for `adb`: a path and whether a file is there.
#[derive(Debug)]
pub struct AdbLocation {
    pub path: String,
    pub exists: bool,
}

/// Shown when no `adb` was found anywhere.
pub const ADB_NOT_FOUND: &'static str = "adb was not found. Install Android platform-tools, add adb to PATH, or pass --adb-path.";

impl Adb {
    /// The path of the executable.
    pub closed spec fn location(self) -> Seq<char> {
        self.executable@
    }

    /// An `adb` at the given path.
    pub fn from_path(executable: String) -> (r: Adb)
        ensures
            r.location() == executable@,
    {
        Adb { executable }
    }

    /// The path of the executable.
    pub fn executable(&self) -> (r: &str)
        ensures
            r@ == self.location(),
    {
        self.executable.as_str()
    }

    /// Picks the `adb` to run: the explicit path if one was given (an error if
    /// nothing is there), else the one found on `PATH`, else the first common
    /// install location that holds one.
    pub fn resolve(
        explicit: Option<AdbLocation>,
        on_path: Option<String>,
        candidates: &Vec<AdbLocation>,
    ) -> (r: Result<Adb, AppError>)
        ensures
            match explicit {
                Some(l) => if l.exists {
                    r matches Ok(a) && a.location() == l.path@
                } else {
                    r matches Err(e) && e.kind == ErrorKind::Unsupported && e.message@
                        == "adb was not found at "@ + l.path@
                },
                None => match on_path {
                    Some(p) => r matches Ok(a) && a.location() == p@,
                    None => match r {
                        Ok(a) => exists|i: int|
                            0 <= i < candidates@.len() && candidates@[i].exists
                                && a.location() == candidates@[i].path@ && forall|j: int|
                                0 <= j < i ==> !(#[trigger] candidates@[j]).exists,
                        Err(e) => e.kind == ErrorKind::Unsupported && e.message@
                            == ADB_NOT_FOUND@ && forall|j: int|
                            0 <= j < candidates@.len() ==> !(#[trigger] candidates@[j]).exists,
                    },
                },
            },
    {
        match explicit {
            Some(l) => {
                if l.exists {
                    return Ok(Adb { executable: l.path });
                }
                let mut m = String::new();
                m.push_str("adb was not found at ");
                m.push_str(l.path.as_str());
                proof {
                    assert(seq![] + "adb was not found at "@ =~= "adb was not found at "@);
                }
                return Err(AppError::unsupported(m));
            },
            None => {},
        }
        match on_path {
            Some(p) => {
                return Ok(Adb { executable: p });
            },
            None => {},
        }
        let mut i: usize = 0;
        #[verifier::loop_isolation(false)]
        while i < candidates.len()
            invariant
                i <= candidates.len(),
                forall|j: int| 0 <= j < i ==> !(#[trigger] candidates@[j]).exists,
            decreases candidates.len() - i,
        {
            if candidates[i].exists {
                return Ok(Adb { executable: candidates[i].path.clone() });
            }
            i += 1;
        }
        Err(AppError::unsupported(ADB_NOT_FOUND.to_owned()))
    }

    /// The error for an `adb` that could not be started.
    pub fn launch_failure(&self, detail: &str) -> (e: AppError)
        ensures
            e.kind == ErrorKind::Adb,
            e.message@ == "failed to execute adb at "@ + self.location() + ": "@ + detail@,
    {
        let mut m = String::new();
        m.push_str("failed to execute adb at ");
        m.push_str(self.executable.as_str());
        m.push_str(": ");
        m.push_str(detail);
        proof {
            assert(seq![] + "failed to execute adb at "@ =~= "failed to execute adb at "@);
        }
        AppError::adb(m)
    }

    /// The reply of a finished command: its trimmed text, or an `adb` error
    /// when the command failed.
    pub fn run_text(&self, command: &AdbCommand, output: &CommandOutput) -> (r: Result<
        String,
        AppError,
    >)
        ensures
            match (r, reply(command_args(*command), *output)) {
                (Ok(t), Ok(x)) => t@ == x,
                (Err(e), Err(m)) => is_adb_error(e, m),
                _ => false,
            },
    {
        let mut text = String::new();
        text.push_str(output.stdout.as_str());
        let err = str_chars(output.stderr.as_str());
        if err.len() > 0 {
            let out = str_chars(output.stdout.as_str());
            if out.len() > 0 && out[out.len() - 1] != '\n' {
                text.push('\n');
            }
            text.push_str(output.stderr.as_str());
        }
        proof {
            assert(seq![] + output.stdout@ =~= output.stdout@);
            assert(text@ =~= combined_text(output.stdout@, output.stderr@));
        }
        let chars = str_chars(text.as_str());
        let (a, b) = strip_bounds(&chars, 0, chars.len(), CharClass::Space);
        let trimmed = chars_to_string(&chars, a, b);
        proof {
            assert(chars@.subrange(0, chars@.len() as int) =~= chars@);
        }
        if output.success {
            Ok(trimmed)
        } else {
            let args = command.args();
            let joined = join_strings(&args, " ");
            let mut m = String::new();
            m.push_str("adb ");
            m.push_str(joined.as_str());
            m.push_str(" failed: ");
            m.push_str(trimmed.as_str());
            proof {
                assert(seq![] + "adb "@ =~= "adb "@);
            }
            Err(AppError::adb(m))
        }
    }

    /// The reply of `adb version`.
    pub fn version_text(&self, output: &CommandOutput) -> (r: Result<String, AppError>)
        ensures
            match (r, reply(seq!["version"@], *output)) {
                (Ok(t), Ok(x)) => t@ == x,
                (Err(e), Err(m)) => is_adb_error(e, m),
                _ => false,
            },
    {
        self.run_text(&AdbCommand::Version, output)
    }

    /// The reply of `adb mdns check`.
    pub fn mdns_check(&self, output: &CommandOutput) -> (r: Result<String, AppError>)
        ensures
            match (r, reply(seq!["mdns"@, "check"@], *output)) {
                (Ok(t), Ok(x)) => t@ == x,
                (Err(e), Err(m)) => is_adb_error(e, m),
                _ => false,
            },
    {
        self.run_text(&AdbCommand::MdnsCheck, output)
    }

    /// The services that `adb mdns services` lists.
    pub fn list_mdns_services(&self, output: &CommandOutput) -> (r: Result<
        Vec<MdnsService>,
        AppError,
    >)
        ensures
            match (r, reply(seq!["mdns"@, "services"@], *output)) {
                (Ok(v), Ok(x)) => records(v@) == mdns_services(x),
                (Err(e), Err(m)) => is_adb_error(e, m),
                _ => false,
            },
    {
        let text = self.run_text(&AdbCommand::MdnsServices, output)?;
        Ok(parse_mdns_services(text.as_str()))
    }

    /// The pairing services that `adb mdns services` lists, in order.
    pub fn list_pairing_services(&self, output: &CommandOutput) -> (r: Result<
        Vec<MdnsService>,
        AppError,
    >)
        ensures
            match (r, reply(seq!["mdns"@, "services"@], *output)) {
                (Ok(v), Ok(x)) => records(v@) == of_type(mdns_services(x), MDNS_PAIRING_SERVICE@),
                (Err(e), Err(m)) => is_adb_error(e, m),
                _ => false,
            },
    {
        let all = self.list_mdns_services(output)?;
        Ok(pairing_services(&all))
    }

    /// The outcome of `adb pair <endpoint> <code>`.
    pub fn pair(&self, endpoint: &str, code: &str, output: &CommandOutput) -> (r: Result<
        (),
        AppError,
    >)
        ensures
            match (r, reply(seq!["pair"@, endpoint@, code@], *output)) {
                (Ok(_), Ok(_)) => true,
                (Err(e), Err(m)) => is_adb_error(e, m),
                _ => false,
            },
    {
        let command = AdbCommand::Pair { endpoint: endpoint.to_owned(), code: code.to_owned() };
        self.run_text(&command, output)?;
        Ok(())
    }

    /// The outcome of `adb connect <endpoint>`: a success only when `adb`
    /// says it is (already) connected.
    pub fn connect(&self, endpoint: &str, output: &CommandOutput) -> (r: Result<(), AppError>)
        ensures
            match reply(seq!["connect"@, endpoint@], *output) {
                Ok(t) => if connected_reply(t) {
                    r is Ok
                } else {
                    r matches Err(e) && is_adb_error(
                        e,
                        "adb connect "@ + endpoint@ + " failed: "@ + t,
                    )
                },
                Err(m) => r matches Err(e) && is_adb_error(e, m),
            },
    {
        let command = AdbCommand::Connect { endpoint: endpoint.to_owned() };
        let text = self.run_text(&command, output)?;
        let chars = str_chars(text.as_str());
        let p1 = str_chars("connected to ");
        let p2 = str_chars("already connected to ");
        proof {
            assert(chars@.subrange(0, chars@.len() as int) =~= chars@);
        }
        if has_prefix_at(&chars, 0, chars.len(), &p1) || has_prefix_at(&chars, 0, chars.len(), &p2) {
            Ok(())
        } else {
            let mut m = String::new();
            m.push_str("adb connect ");
            m.push_str(endpoint);
            m.push_str(" failed: ");
            m.push_str(text.as_str());
            proof {
                assert(seq![] + "adb connect "@ =~= "adb connect "@);
            }
            Err(AppError::adb(m))
        }
    }

    /// The devices that `adb devices` lists, each once.
    pub fn device_set(&self, output: &CommandOutput) -> (r: Result<Vec<String>, AppError>)
        ensures
            match (r, reply(seq!["devices"@], *output)) {
                (Ok(v), Ok(x)) => v.deep_view() == distinct(device_lines(x)),
                (Err(e), Err(m)) => is_adb_error(e, m),
                _ => false,
            },
    {
        let text = self.run_text(&AdbCommand::Devices, output)?;
        let all = parse_devices(text.as_str());
        Ok(distinct_strings(&all))
    }
}

/// `v` holds `s`.
pub fn contains_string(v: &Vec<String>, s: &str) -> (r: bool)
    ensures
        r == v.deep_view().contains(s@),
{
    let mut i: usize = 0;
    while i < v.len()
        invariant
            i <= v.len(),
            forall|j: int| 0 <= j < i ==> v@[j]@ != s@,
        decreases v.len() - i,
    {
        if same_text(v[i].as_str(), s) {
            proof {
                assert(v.deep_view()[i as int] == s@);
            }
            return true;
        }
        i += 1;
    }
    proof {
        if v.deep_view().contains(s@) {
            let k = choose|k: int| 0 <= k < v.deep_view().len() && v.deep_view()[k] == s@;
            assert(v@[k]@ == s@);
        }
    }
    false
}

/// The strings of `v` without repeats, first occurrences in order.
pub fn distinct_strings(v: &Vec<String>) -> (r: Vec<String>)
    ensures
        r.deep_view() == distinct(v.deep_view()),
{
    let ghost all = v.deep_view();
    let mut r: Vec<String> = Vec::new();
    let mut i: usize = 0;
    while i < v.len()
        invariant
            i <= v.len(),
            all == v.deep_view(),
            r.deep_view() == distinct(all.take(i as int)),
        decreases v.len() - i,
    {
        proof {
            assert(all.take(i + 1).drop_last() =~= all.take(i as int));
            assert(all.take(i + 1).last() == v@[i as int]@);
        }
        if !contains_string(&r, v[i].as_str()) {
            let ghost before = r.deep_view();
            r.push(v[i].clone());
            proof {
                assert(r.deep_view() =~= before.push(v@[i as int]@));
            }
        }
        i += 1;
    }
    proof {
        assert(all.take(v.len() as int) =~= all);
    }
    r
}

/// The services of type `t`, in order.
pub open spec fn of_type(s: Seq<ServiceRecord>, t: Seq<char>) -> Seq<ServiceRecord>
    decreases s.len(),
{
    if s.len() == 0 {
        seq![]
    } else {
        let earlier = of_type(s.drop_last(), t);
        if s.last().service_type == t {
            earlier.push(s.last())
        } else {
            earlier
        }
    }
}

/// The pairing services among `services`, in order.
pub fn pairing_services(services: &Vec<MdnsService>) -> (r: Vec<MdnsService>)
    ensures
        records(r@) == of_type(records(services@), MDNS_PAIRING_SERVICE@),
{
    let ghost all = records(services@);
    let mut r: Vec<MdnsService> = Vec::new();
    let mut i: usize = 0;
    while i < services.len()
        invariant
            i <= services.len(),
            all == records(services@),
            records(r@) == of_type(all.take(i as int), MDNS_PAIRING_SERVICE@),
        decreases services.len() - i,
    {
        proof {
            assert(all.take(i + 1).drop_last() =~= all.take(i as int));
            assert(all.take(i + 1).last() == services@[i as int]@);
        }
        if same_text(services[i].service_type.as_str(), MDNS_PAIRING_SERVICE) {
            let ghost before = r@;
            r.push(services[i].duplicate());
            proof {
                assert(records(r@) =~= records(before).push(services@[i as int]@));
            }
        }
        i += 1;
    }
    proof {
        assert(all.take(services.len() as int) =~= all);
    }
    r
}

// ---------------------------------------------------------------------------
// Decisions taken while waiting for the device
// ---------------------------------------------------------------------------

/// The names of the pairing services among `services`, in order.
pub fn pairing_service_names(services: &Vec<MdnsService>) -> (r: Vec<String>)
    ensures
        r.deep_view() == names(of_type(records(services@), MDNS_PAIRING_SERVICE@)),
{
    let pairing = pairing_services(services);
    let mut r: Vec<String> = Vec::new();
    let mut i: usize = 0;
    while i < pairing.len()
        invariant
            i <= pairing.len(),
            r.deep_view() == names(records(pairing@)).take(i as int),
        decreases pairing.len() - i,
    {
        let ghost before = r.deep_view();
        r.push(pairing[i].name.clone());
        proof {
            assert(r.deep_view() =~= before.push(pairing@[i as int].name@));
            assert(names(records(pairing@))[i as int] == pairing@[i as int].name@);
            assert(names(records(pairing@)).take(i + 1) =~= names(records(pairing@)).take(
                i as int,
            ).push(pairing@[i as int].name@));
        }
        i += 1;
    }
    proof {
        assert(names(records(pairing@)).take(pairing.len() as int) =~= names(records(pairing@)));
    }
    r
}

/// The names of a list of services.
pub open spec fn names(s: Seq<ServiceRecord>) -> Seq<Seq<char>> {
    Seq::new(s.len(), |i: int| s[i].name)
}

/// A pairing service of the given name.
pub open spec fn is_named_pairing(r: ServiceRecord, name: Seq<char>) -> bool {
    r.service_type == MDNS_PAIRING_SERVICE@ && r.name == name
}

/// A pairing service whose name is not in `baseline`.
pub open spec fn is_new_pairing(r: ServiceRecord, baseline: Seq<Seq<char>>) -> bool {
    r.service_type == MDNS_PAIRING_SERVICE@ && !baseline.contains(r.name)
}

/// Service `i` is the pairing service to try: the first one named
/// `expected`, or, when none is, the first one whose name is not in
/// `baseline`.
pub open spec fn pairing_choice(
    s: Seq<ServiceRecord>,
    expected: Seq<char>,
    baseline: Seq<Seq<char>>,
    i: int,
) -> bool {
    &&& 0 <= i < s.len()
    &&& {
        ||| is_named_pairing(s[i], expected) && forall|j: int|
            0 <= j < i ==> !is_named_pairing(#[trigger] s[j], expected)
        ||| is_new_pairing(s[i], baseline) && (forall|j: int|
            0 <= j < s.len() ==> !is_named_pairing(#[trigger] s[j], expected)) && forall|j: int|
            0 <= j < i ==> !is_new_pairing(#[trigger] s[j], baseline)
    }
}

/// No service is named `expected` and every pairing service is in `baseline`.
pub open spec fn no_pairing_choice(
    s: Seq<ServiceRecord>,
    expected: Seq<char>,
    baseline: Seq<Seq<char>>,
) -> bool {
    forall|i: int|
        0 <= i < s.len() ==> !is_named_pairing(#[trigger] s[i], expected) && !is_new_pairing(
            s[i],
            baseline,
        )
}

/// The pairing service to try; see [`pairing_choice`].
pub fn select_pairing_service(
    services: &Vec<MdnsService>,
    expected: &str,
    baseline: &Vec<String>,
) -> (r: Option<MdnsService>)
    ensures
        match r {
            Some(s) => exists|i: int|
                pairing_choice(records(services@), expected@, baseline.deep_view(), i) && s@
                    == #[trigger] records(services@)[i],
            None => no_pairing_choice(records(services@), expected@, baseline.deep_view()),
        },
        r matches Some(s) ==> {
            &&& s.service_type@ == MDNS_PAIRING_SERVICE@
            &&& s.name@ == expected@ || !baseline.deep_view().contains(s.name@)
            &&& exists|i: int| 0 <= i < services@.len() && s@ == #[trigger] records(services@)[i]
        },
        (forall|i: int|
            0 <= i < services@.len() ==> (#[trigger] services@[i]).service_type@
                != MDNS_PAIRING_SERVICE@) ==> r is None,
        (exists|i: int|
            0 <= i < services@.len() && (#[trigger] services@[i]).service_type@
                == MDNS_PAIRING_SERVICE@ && services@[i].name@ == expected@) ==> (r matches Some(s)
            && s.name@ == expected@),
{
    let ghost recs = records(services@);
    let mut i: usize = 0;
    while i < services.len()
        invariant
            i <= services.len(),
            recs == records(services@),
            forall|j: int| 0 <= j < i ==> !is_named_pairing(#[trigger] recs[j], expected@),
        decreases services.len() - i,
    {
        if same_text(services[i].service_type.as_str(), MDNS_PAIRING_SERVICE) && same_text(
            services[i].name.as_str(),
            expected,
        ) {
            let found = services[i].duplicate();
            proof {
                assert(pairing_choice(recs, expected@, baseline.deep_view(), i as int));
                lemma_pairing_choice_is_a_pairing_service(recs, expected@, baseline.deep_view(), i as int);
            }
            return Some(found);
        }
        i += 1;
    }
    let mut k: usize = 0;
    while k < services.len()
        invariant
            k <= services.len(),
            recs == records(services@),
            forall|j: int| 0 <= j < recs.len() ==> !is_named_pairing(#[trigger] recs[j], expected@),
            forall|j: int| 0 <= j < k ==> !is_new_pairing(#[trigger] recs[j], baseline.deep_view()),
        decreases services.len() - k,
    {
        if same_text(services[k].service_type.as_str(), MDNS_PAIRING_SERVICE) && !contains_string(
            baseline,
            services[k].name.as_str(),
        ) {
            let found = services[k].duplicate();
            proof {
                assert(pairing_choice(recs, expected@, baseline.deep_view(), k as int));
                lemma_pairing_choice_is_a_pairing_service(recs, expected@, baseline.deep_view(), k as int);
                assert(recs[k as int] == services@[k as int]@);
                assert forall|j: int|
                    0 <= j < services@.len() && (#[trigger] services@[j]).service_type@
                        == MDNS_PAIRING_SERVICE@ implies services@[j].name@ != expected@ by {
                    assert(recs[j] == services@[j]@);
                }
            }
            return Some(found);
        }
        k += 1;
    }
    proof {
        assert forall|j: int|
            0 <= j < services@.len() && (#[trigger] services@[j]).service_type@
                == MDNS_PAIRING_SERVICE@ implies services@[j].name@ != expected@ by {
            assert(recs[j] == services@[j]@);
        }
    }
    None
}

/// The service picked to pair with is always a pairing service, carrying
/// either the expected name or a name outside the baseline.
pub proof fn lemma_pairing_choice_is_a_pairing_service(
    s: Seq<ServiceRecord>,
    expected: Seq<char>,
    baseline: Seq<Seq<char>>,
    i: int,
)
    requires
        pairing_choice(s, expected, baseline, i),
    ensures
        0 <= i < s.len(),
        s[i].service_type == MDNS_PAIRING_SERVICE@,
        s[i].name == expected || !baseline.contains(s[i].name),
{
}

/// A service named as expected is always preferred, and a service that was
/// tried and rejected (its name added to the baseline) is not chosen again
/// unless it carries the expected name.
pub proof fn lemma_pairing_choice_prefers_expected_and_skips_rejected(
    s: Seq<ServiceRecord>,
    expected: Seq<char>,
    baseline: Seq<Seq<char>>,
    rejected: Seq<char>,
    i: int,
)
    requires
        pairing_choice(s, expected, baseline.push(rejected), i),
    ensures
        (exists|j: int| 0 <= j < s.len() && is_named_pairing(#[trigger] s[j], expected))
            ==> s[i].name == expected,
        s[i].name == rejected ==> rejected == expected,
{
    if s[i].name == rejected && rejected != expected {
        assert(baseline.push(rejected).contains(rejected)) by {
            assert(baseline.push(rejected)[baseline.len() as int] == rejected);
        }
    }
}

/// A connection service on the host that paired.
pub open spec fn serves_host(r: ServiceRecord, pairing_endpoint: Seq<char>) -> bool {
    r.service_type == MDNS_CONNECT_SERVICE@ && host_of(r.endpoint) == host_of(pairing_endpoint)
}

/// The first connection service on the host of `pairing_endpoint`.
pub fn find_connect_service(services: &Vec<MdnsService>, pairing_endpoint: &str) -> (r: Option<
    MdnsService,
>)
    ensures
        match r {
            Some(s) => exists|i: int|
                0 <= i < services@.len() && s@ == services@[i]@ && serves_host(
                    services@[i]@,
                    pairing_endpoint@,
                ) && forall|j: int|
                    0 <= j < i ==> !serves_host(#[trigger] services@[j]@, pairing_endpoint@),
            None => forall|i: int|
                0 <= i < services@.len() ==> !serves_host(
                    #[trigger] services@[i]@,
                    pairing_endpoint@,
                ),
        },
{
    let host = endpoint_host(pairing_endpoint);
    let mut i: usize = 0;
    while i < services.len()
        invariant
            i <= services.len(),
            host@ == host_of(pairing_endpoint@),
            forall|j: int| 0 <= j < i ==> !serves_host(#[trigger] services@[j]@, pairing_endpoint@),
        decreases services.len() - i,
    {
        if same_text(services[i].service_type.as_str(), MDNS_CONNECT_SERVICE) {
            let h = endpoint_host(services[i].endpoint.as_str());
            if same_text(h.as_str(), host.as_str()) {
                return Some(services[i].duplicate());
            }
        }
        i += 1;
    }
    None
}

/// `line` names a device that is online (`"\tdevice"`) and was not listed
/// before.
pub open spec fn is_new_device(line: Seq<char>, baseline: Seq<Seq<char>>) -> bool {
    contains_text(line, "\tdevice"@) && !baseline.contains(line)
}

/// Whether `current` lists an online device that `baseline` did not.
pub fn has_new_device(current: &Vec<String>, baseline: &Vec<String>) -> (r: bool)
    ensures
        r == exists|i: int|
            0 <= i < current@.len() && is_new_device(
                #[trigger] current@[i]@,
                baseline.deep_view(),
            ),
        r <==> exists|i: int|
            0 <= i < current@.len() && contains_text(#[trigger] current@[i]@, "\tdevice"@)
                && !baseline.deep_view().contains(current@[i]@),
{
    let online = str_chars("\tdevice");
    let mut i: usize = 0;
    while i < current.len()
        invariant
            i <= current.len(),
            online@ == "\tdevice"@,
            forall|j: int| 0 <= j < i ==> !is_new_device(#[trigger] current@[j]@, baseline.deep_view()),
        decreases current.len() - i,
    {
        let line = str_chars(current[i].as_str());
        if has_substring(&line, &online) && !contains_string(baseline, current[i].as_str()) {
            proof {
                lemma_new_device_is_online(current@[i as int]@, baseline.deep_view());
            }
            return true;
        }
        i += 1;
    }
    proof {
        assert forall|j: int|
            0 <= j < current@.len() && contains_text(#[trigger] current@[j]@, "\tdevice"@)
                implies baseline.deep_view().contains(current@[j]@) by {
            lemma_new_device_is_online(current@[j]@, baseline.deep_view());
        }
    }
    false
}

/// A line counts as a new device exactly when it shows a device in the
/// `device` state (its text holds `"\tdevice"`) and it was not listed before;
/// any other state (`offline`, `unauthorized`, ...) does not count.
pub proof fn lemma_new_device_is_online(line: Seq<char>, baseline: Seq<Seq<char>>)
    ensures
        is_new_device(line, baseline) <==> contains_text(line, "\tdevice"@) && !baseline.contains(
            line,
        ),
{
}

/// Listing more devices beforehand never makes a device new: whatever is new
/// against a larger baseline is new against a smaller one, and a line that
/// is in the baseline is never new.
pub proof fn lemma_new_device_shrinks_with_baseline(
    line: Seq<char>,
    small: Seq<Seq<char>>,
    large: Seq<Seq<char>>,
)
    requires
        forall|x: Seq<char>| small.contains(x) ==> #[trigger] large.contains(x),
    ensures
        is_new_device(line, large) ==> is_new_device(line, small),
        large.contains(line) ==> !is_new_device(line, large),
{
}

// ---------------------------------------------------------------------------
// Where adb is installed
// ---------------------------------------------------------------------------

/// The name of the `adb` executable on the host.
pub fn adb_binary_name(windows: bool) -> (r: &'static str)
    ensures
        r@ == (if windows {
            "adb.exe"@
        } else {
            "adb"@
        }),
{
    if windows {
        "adb.exe"
    } else {
        "adb"
    }
}

/// The text of an optional string.
pub open spec fn text_of(o: Option<&str>) -> Option<Seq<char>> {
    match o {
        Some(s) => Some(s@),
        None => None,
    }
}

/// `(root, dir)`, when `root` is given.
pub open spec fn place_under(root: Option<Seq<char>>, dir: Seq<char>) -> Seq<(Seq<char>, Seq<char>)> {
    match root {
        Some(r) => seq![(r, dir)],
        None => seq![],
    }
}

/// The common install locations of `adb`, in the order they are tried, as
/// pairs of a root and the directory under it that holds the executable:
/// under `ANDROID_SDK_ROOT`, under `ANDROID_HOME`, the default SDK folders of
/// macOS, Linux and Windows under the home directory, and under
/// `LOCALAPPDATA`.
pub open spec fn common_places(
    sdk_root: Option<Seq<char>>,
    android_home: Option<Seq<char>>,
    home: Option<Seq<char>>,
    local_app_data: Option<Seq<char>>,
) -> Seq<(Seq<char>, Seq<char>)> {
    place_under(sdk_root, "platform-tools"@) + place_under(android_home, "platform-tools"@)
        + place_under(home, "Library/Android/sdk/platform-tools"@) + place_under(
        home,
        "Android/Sdk/platform-tools"@,
    ) + place_under(home, "AppData/Local/Android/Sdk/platform-tools"@) + place_under(
        local_app_data,
        "Android/Sdk/platform-tools"@,
    )
}

fn push_place(r: &mut Vec<(String, String)>, root: Option<&str>, dir: &str)
    ensures
        final(r).deep_view() == old(r).deep_view() + place_under(text_of(root), dir@),
{
    match root {
        Some(base) => {
            let ghost before = r.deep_view();
            r.push((base.to_owned(), dir.to_owned()));
            proof {
                assert(r.deep_view() =~= before + place_under(text_of(root), dir@));
            }
        },
        None => {
            proof {
                assert(r.deep_view() =~= r.deep_view() + place_under(text_of(root), dir@));
            }
        },
    }
}

/// The common install locations of `adb`; see [`common_places`]. The path
/// tried is the root joined with the directory and then with the name of the
/// executable, by the host's path rules.
pub fn common_adb_paths(
    sdk_root: Option<&str>,
    android_home: Option<&str>,
    home: Option<&str>,
    local_app_data: Option<&str>,
) -> (r: Vec<(String, String)>)
    ensures
        r.deep_view() == common_places(
            text_of(sdk_root),
            text_of(android_home),
            text_of(home),
            text_of(local_app_data),
        ),
{
    let mut r: Vec<(String, String)> = Vec::new();
    proof {
        assert(r.deep_view() =~= seq![]);
    }
    push_place(&mut r, sdk_root, "platform-tools");
    push_place(&mut r, android_home, "platform-tools");
    push_place(&mut r, home, "Library/Android/sdk/platform-tools");
    push_place(&mut r, home, "Android/Sdk/platform-tools");
    push_place(&mut r, home, "AppData/Local/Android/Sdk/platform-tools");
    push_place(&mut r, local_app_data, "Android/Sdk/platform-tools");
    proof {
        assert(r.deep_view() =~= common_places(
            text_of(sdk_root),
            text_of(android_home),
            text_of(home),
            text_of(local_app_data),
        ));
    }
    r
}

// ---------------------------------------------------------------------------
// Laws
// ---------------------------------------------------------------------------

/// Every service read from `adb mdns services` has an endpoint with a port
/// separator `':'`, and its name, type and endpoint are non-empty words
/// without whitespace.
pub proof fn lemma_parsed_services_are_well_formed(output: Seq<char>)
    ensures
        forall|i: int|
            0 <= i < mdns_services(output).len() ==> {
                let r = #[trigger] mdns_services(output)[i];
                &&& last_colon(r.endpoint) is Some
                &&& is_word(r.name)
                &&& is_word(r.service_type)
                &&& is_word(r.endpoint)
            },
{
    lemma_services_in_lines_well_formed(lines(output));
}

/// A non-empty run of non-whitespace characters.
pub open spec fn is_word(w: Seq<char>) -> bool {
    w.len() > 0 && forall|i: int| 0 <= i < w.len() ==> !is_space(#[trigger] w[i])
}

proof fn lemma_words_are_words(s: Seq<char>)
    ensures
        forall|i: int| 0 <= i < words(s).len() ==> is_word(#[trigger] words(s)[i]),
    decreases s.len(),
{
    let t = trim_start(s);
    if t.len() > 0 {
        let n = leading(t, CharClass::NonSpace);
        lemma_leading(s, CharClass::Space);
        lemma_leading(t, CharClass::NonSpace);
        assert(t[0] == s[leading(s, CharClass::Space) as int]);
        lemma_words_are_words(t.skip(n as int));
        let first = t.take(n as int);
        assert forall|j: int| 0 <= j < first.len() implies !is_space(#[trigger] first[j]) by {
            assert(first[j] == t[j]);
            assert(in_class(CharClass::NonSpace, t[j]));
        }
        assert forall|i: int| 0 <= i < words(s).len() implies is_word(#[trigger] words(s)[i]) by {
            if i > 0 {
                assert(words(s)[i] == words(t.skip(n as int))[i - 1]);
            }
        }
    }
}

proof fn lemma_services_in_lines_well_formed(ls: Seq<Seq<char>>)
    ensures
        forall|i: int|
            0 <= i < services_in_lines(ls).len() ==> {
                let r = #[trigger] services_in_lines(ls)[i];
                &&& last_colon(r.endpoint) is Some
                &&& is_word(r.name)
                &&& is_word(r.service_type)
                &&& is_word(r.endpoint)
            },
    decreases ls.len(),
{
    if ls.len() > 0 {
        lemma_services_in_lines_well_formed(ls.drop_last());
        lemma_words_are_words(trim(ls.last()));
    }
}

/// Every entry read from `adb devices` is a trimmed, non-empty line that is
/// neither the listing header nor a daemon notice.
pub proof fn lemma_device_lines_are_devices(output: Seq<char>)
    ensures
        forall|i: int|
            0 <= i < device_lines(output).len() ==> is_device_line(
                #[trigger] device_lines(output)[i],
            ),
{
    lemma_devices_in_lines(lines(output));
}

proof fn lemma_devices_in_lines(ls: Seq<Seq<char>>)
    ensures
        forall|i: int|
            0 <= i < devices_in_lines(ls).len() ==> is_device_line(
                #[trigger] devices_in_lines(ls)[i],
            ),
    decreases ls.len(),
{
    if ls.len() > 0 {
        let d = devices_in_lines(ls.drop_last());
        lemma_devices_in_lines(ls.drop_last());
        assert forall|i: int|
            0 <= i < devices_in_lines(ls).len() implies is_device_line(
            #[trigger] devices_in_lines(ls)[i],
        ) by {
            if i < d.len() {
                assert(devices_in_lines(ls)[i] == d[i]);
            }
        }
    }
}

/// [`distinct`] keeps every value once and nothing else: the device set holds
/// each listed device exactly once.
pub proof fn lemma_distinct(s: Seq<Seq<char>>)
    ensures
        forall|x: Seq<char>| #[trigger] distinct(s).contains(x) <==> s.contains(x),
        forall|i: int, j: int|
            0 <= i < j < distinct(s).len() ==> distinct(s)[i] != distinct(s)[j],
    decreases s.len(),
{
    if s.len() > 0 {
        let d = s.drop_last();
        let dd = distinct(d);
        lemma_distinct(d);
        assert forall|x: Seq<char>| #[trigger] distinct(s).contains(x) <==> s.contains(x) by {
            assert(dd.contains(x) <==> d.contains(x));
            if s.contains(x) {
                let k = choose|k: int| 0 <= k < s.len() && s[k] == x;
                if k < s.len() - 1 {
                    assert(d[k] == x);
                    assert(d.contains(x));
                    assert(dd.contains(x));
                    let m = choose|m: int| 0 <= m < dd.len() && dd[m] == x;
                    assert(distinct(s)[m] == x);
                } else {
                    if !dd.contains(x) {
                        assert(distinct(s)[dd.len() as int] == x);
                    } else {
                        let m = choose|m: int| 0 <= m < dd.len() && dd[m] == x;
                        assert(distinct(s)[m] == x);
                    }
                }
            }
            if distinct(s).contains(x) {
                let k = choose|k: int| 0 <= k < distinct(s).len() && distinct(s)[k] == x;
                if k < dd.len() {
                    assert(dd[k] == x);
                    assert(dd.contains(x));
                    assert(d.contains(x));
                    let m = choose|m: int| 0 <= m < d.len() && d[m] == x;
                    assert(s[m] == x);
                } else {
                    assert(s[s.len() - 1] == x);
                }
            }
        }
        assert forall|i: int, j: int|
            0 <= i < j < distinct(s).len() implies distinct(s)[i] != distinct(s)[j] by {
            if j >= dd.len() {
                assert(!dd.contains(s.last()));
                assert(distinct(s)[i] == dd[i]);
            } else {
                assert(distinct(s)[i] == dd[i]);
                assert(distinct(s)[j] == dd[j]);
            }
        }
    }
}

/// The host of `host:port` is the host without its brackets, for any port
/// without a `':'` (so `192.168.0.5:37123` and `[fe80::1234]:37123` give
/// `192.168.0.5` and `fe80::1234`).
pub proof fn lemma_host_of_host_and_port(host: Seq<char>, port: Seq<char>)
    requires
        forall|i: int| 0 <= i < port.len() ==> port[i] != ':',
    ensures
        host_of(host + seq![':'] + port) == strip(host, CharClass::Bracket),
{
    let e = host + seq![':'] + port;
    assert forall|j: int| e.len() - port.len() <= j < e.len() implies in_class(
        CharClass::NotColon,
        #[trigger] e[j],
    ) by {
        assert(e[j] == port[j - host.len() - 1]);
    }
    assert(e[e.len() - port.len() - 1] == ':');
    lemma_trailing_exact(e, CharClass::NotColon, port.len());
    assert(e.take(host.len() as int) =~= host);
}

proof fn lemma_services_concat(x: Seq<Seq<char>>, y: Seq<Seq<char>>)
    ensures
        services_in_lines(x + y) == services_in_lines(x) + services_in_lines(y),
    decreases y.len(),
{
    if y.len() == 0 {
        assert(x + y =~= x);
        assert(services_in_lines(x) + services_in_lines(y) =~= services_in_lines(x));
    } else {
        lemma_services_concat(x, y.drop_last());
        assert((x + y).drop_last() =~= x + y.drop_last());
        assert((x + y).last() == y.last());
        match service_in_line(y.last()) {
            Some(r) => {
                assert(services_in_lines(x + y) =~= services_in_lines(x) + services_in_lines(y));
            },
            None => {},
        }
    }
}

/// Reading two outputs joined by a line break gives the services of the
/// first followed by those of the second.
pub proof fn lemma_mdns_services_of_joined(a: Seq<char>, b: Seq<char>)
    ensures
        mdns_services(a + seq!['\n'] + b) == mdns_services(a) + mdns_services(b),
{
    let an = a + seq!['\n'];
    lemma_lines_append(an, b);
    lemma_services_concat(lines(an), lines(b));
    lemma_lines_then_newline(a);
    let la = lines(a);
    if a.len() == 0 || a.last() == '\n' {
        assert(trim(seq![]) =~= seq![]);
        assert(service_in_line(seq![]) is None);
        assert(lines(an).drop_last() =~= la);
    } else {
        lemma_trim_strip_cr(la.last());
        assert(service_in_line(strip_cr(la.last())) == service_in_line(la.last()));
        assert(lines(an).drop_last() =~= la.drop_last());
        assert(la.drop_last().push(la.last()) =~= la);
    }
}

proof fn lemma_device_entries_are_plain(ls: Seq<Seq<char>>)
    requires
        forall|i: int, j: int|
            0 <= i < ls.len() && 0 <= j < ls[i].len() ==> #[trigger] ls[i][j] != '\n',
    ensures
        forall|i: int|
            0 <= i < devices_in_lines(ls).len() ==> {
                let d = #[trigger] devices_in_lines(ls)[i];
                &&& is_plain_line(d)
                &&& trim(d) == d
                &&& is_device_line(d)
            },
    decreases ls.len(),
{
    if ls.len() > 0 {
        let front = ls.drop_last();
        assert forall|i: int, j: int|
            0 <= i < front.len() && 0 <= j < front[i].len() implies #[trigger] front[i][j]
            != '\n' by {
            assert(front[i] == ls[i]);
        }
        lemma_device_entries_are_plain(front);
        let l = ls.last();
        let t = trim(l);
        lemma_trim_shape(l);
        if t.len() > 0 {
            lemma_trim_of_trimmed(t);
            assert forall|j: int| 0 <= j < t.len() implies t[j] != '\n' by {
                assert(t[j] == l[leading(l, CharClass::Space) + j]);
                assert(ls[ls.len() - 1][leading(l, CharClass::Space) + j] != '\n');
            }
        }
        let e = devices_in_lines(front);
        assert forall|i: int| 0 <= i < devices_in_lines(ls).len() implies {
            let d = #[trigger] devices_in_lines(ls)[i];
            &&& is_plain_line(d)
            &&& trim(d) == d
            &&& is_device_line(d)
        } by {
            if i < e.len() {
                assert(devices_in_lines(ls)[i] == e[i]);
            }
        }
    }
}

proof fn lemma_devices_of_device_entries(ds: Seq<Seq<char>>)
    requires
        forall|i: int| 0 <= i < ds.len() ==> trim(#[trigger] ds[i]) == ds[i] && is_device_line(ds[i]),
    ensures
        devices_in_lines(ds) == ds,
    decreases ds.len(),
{
    if ds.len() > 0 {
        assert forall|i: int| 0 <= i < ds.drop_last().len() implies trim(#[trigger] ds.drop_last()[i])
            == ds.drop_last()[i] && is_device_line(ds.drop_last()[i]) by {
            assert(ds.drop_last()[i] == ds[i]);
        }
        lemma_devices_of_device_entries(ds.drop_last());
        assert(trim(ds[ds.len() - 1]) == ds[ds.len() - 1]);
        assert(ds.drop_last().push(ds.last()) =~= ds);
    }
}

/// Reading the device entries back, one per line, gives the same entries.
pub proof fn lemma_device_lines_idempotent(output: Seq<char>)
    ensures
        device_lines(join(device_lines(output), seq!['\n'])) == device_lines(output),
{
    let ds = device_lines(output);
    lemma_lines_have_no_newline(output);
    lemma_device_entries_are_plain(lines(output));
    lemma_lines_of_joined_lines(ds);
    lemma_devices_of_device_entries(ds);
}

} // verus!
