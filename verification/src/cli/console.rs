//! Console for fleet dispatch: what its lines ask for, the requests that they
//! become, and what is shown of the replies.
use vstd::prelude::*;
use vstd::utf8::{decode_utf8, encode_utf8, valid_utf8};
use crate::cli::replay::{arg_at, texts};
use crate::cloud::json::{parse_result, text as json_text, uint_value, Json, Value};
use crate::text::{
    after_text, bytes_of, chars_of, decimal, find_char, first_at, is_text, parse_unsigned,
    push_chars, push_decimal, same_text, split_words, text_after, text_of, unsigned_up_to, views,
    words,
};

verus! {

// --- Arguments -----------------------------------------------------------------------

/// Why the arguments were refused.
#[derive(Debug, PartialEq, Eq)]
pub enum ConsoleError {
    /// `--host` without an address.
    Host,
    /// `--attestation` without a file.
    Attestation,
    /// An argument that is not understood.
    Unrecognized(String),
}

/// What a [`ConsoleError`] says.
pub ghost enum Refusal {
    Host,
    Attestation,
    Unrecognized(Seq<char>),
}

impl View for ConsoleError {
    type V = Refusal;

    open spec fn view(&self) -> Refusal {
        match *self {
            ConsoleError::Host => Refusal::Host,
            ConsoleError::Attestation => Refusal::Attestation,
            ConsoleError::Unrecognized(s) => Refusal::Unrecognized(s@),
        }
    }
}

/// What the arguments ask for: the attestation files to read, in order, and the
/// server to talk to if the arguments are in order.
#[derive(Debug)]
pub struct ConsolePlan {
    /// Files to read; the last one that is named counts, but each must be
    /// readable.
    pub attestations: Vec<String>,
    /// The server, or why the arguments were refused.
    pub host: Result<String, ConsoleError>,
}

/// The address that is used without `--host`.
pub open spec fn default_host() -> Seq<char> {
    "127.0.0.1:8080"@
}

/// What the arguments from `i` on ask for, with the server `host` so far.
pub open spec fn plan_from(args: Seq<Seq<char>>, i: int, host: Seq<char>) -> (
    Seq<Seq<char>>,
    Result<Seq<char>, Refusal>,
)
    decreases args.len() - i,
{
    if i >= args.len() || i < 0 {
        (Seq::empty(), Ok(host))
    } else if args[i] == "--host"@ {
        match arg_at(args, i + 1) {
            Some(h) => plan_from(args, i + 2, h),
            None => (Seq::empty(), Err(Refusal::Host)),
        }
    } else if args[i] == "--attestation"@ {
        match arg_at(args, i + 1) {
            Some(file) => {
                let (files, r) = plan_from(args, i + 2, host);
                (seq![file] + files, r)
            },
            None => (Seq::empty(), Err(Refusal::Attestation)),
        }
    } else {
        (Seq::empty(), Err(Refusal::Unrecognized(args[i])))
    }
}

/// What a planned server says.
pub open spec fn host_of(r: Result<String, ConsoleError>) -> Result<Seq<char>, Refusal> {
    match r {
        Ok(h) => Ok(h@),
        Err(e) => Err(e@),
    }
}

/// Parses the arguments of the `console` command.
pub fn parse_args(args: &[String]) -> (r: ConsolePlan)
    ensures
        (texts(r.attestations@), host_of(r.host)) == plan_from(texts(args@), 0, default_host()),
{
    let ghost all = texts(args@);
    let ghost whole = plan_from(all, 0, default_host());
    let mut host: String = "127.0.0.1:8080".to_owned();
    let mut files: Vec<String> = Vec::new();
    let mut i: usize = 0;
    proof {
        assert(texts(files@) =~= Seq::<Seq<char>>::empty());
        assert(texts(files@) + whole.0 =~= whole.0);
    }
    while i < args.len()
        invariant
            i <= args@.len(),
            all == texts(args@),
            whole == plan_from(all, 0, default_host()),
            texts(files@) + plan_from(all, i as int, host@).0 == whole.0,
            plan_from(all, i as int, host@).1 == whole.1,
        decreases args@.len() - i,
    {
        let arg: &str = args[i].as_str();
        let ghost before = texts(files@);
        assert(all[i as int] == arg@);
        assert(before + Seq::<Seq<char>>::empty() =~= before);
        if same_text(arg, "--host") {
            if args.len() - i < 2 {
                return ConsolePlan { attestations: files, host: Err(ConsoleError::Host) };
            }
            assert(all[i + 1] == args@[i + 1]@);
            host = args[i + 1].as_str().to_owned();
        } else if same_text(arg, "--attestation") {
            if args.len() - i < 2 {
                return ConsolePlan { attestations: files, host: Err(ConsoleError::Attestation) };
            }
            assert(all[i + 1] == args@[i + 1]@);
            files.push(args[i + 1].as_str().to_owned());
            proof {
                let file = all[i + 1];
                let more = plan_from(all, i + 2, host@).0;
                assert(texts(files@) =~= before.push(file));
                assert(before + (seq![file] + more) =~= texts(files@) + more);
            }
        } else {
            return ConsolePlan {
                attestations: files,
                host: Err(ConsoleError::Unrecognized(arg.to_owned())),
            };
        }
        i = i + 2;
    }
    assert(texts(files@) + Seq::<Seq<char>>::empty() =~= texts(files@));
    ConsolePlan { attestations: files, host: Ok(host) }
}

// --- Commands ------------------------------------------------------------------------

/// What a line asks for.
#[derive(Debug)]
pub enum Command {
    /// Nothing.
    Nothing,
    /// Leave the console.
    Quit,
    /// Show the commands.
    Help,
    /// Call a tool of the fleet.
    Call { tool: &'static str, args: Json },
    /// A unit is named by something other than a number.
    BadUnit,
    /// The line is not understood.
    Unrecognized,
}

/// What a [`Command`] says.
pub ghost enum CommandView {
    Nothing,
    Quit,
    Help,
    Call { tool: Seq<char>, args: Value },
    BadUnit,
    Unrecognized,
}

impl View for Command {
    type V = CommandView;

    open spec fn view(&self) -> CommandView {
        match *self {
            Command::Nothing => CommandView::Nothing,
            Command::Quit => CommandView::Quit,
            Command::Help => CommandView::Help,
            Command::Call { tool, args } => CommandView::Call { tool: tool@, args: args@ },
            Command::BadUnit => CommandView::BadUnit,
            Command::Unrecognized => CommandView::Unrecognized,
        }
    }
}

/// Calling a tool on the unit that `s` names.
pub open spec fn unit_call(tool: Seq<char>, s: Seq<char>) -> CommandView {
    match unsigned_up_to(s, u64::MAX as nat) {
        Some(n) => CommandView::Call {
            tool,
            args: Value::Obj(seq![("unit_id"@, uint_value(n as u64))]),
        },
        None => CommandView::BadUnit,
    }
}

/// What the words of a line ask for.
pub open spec fn command_of(w: Seq<Seq<char>>) -> CommandView {
    if w.len() == 0 {
        CommandView::Nothing
    } else if w[0] == "quit"@ || w[0] == "exit"@ {
        CommandView::Quit
    } else if w[0] == "help"@ {
        CommandView::Help
    } else if w[0] == "list"@ && w.len() == 1 {
        CommandView::Call { tool: "list_units"@, args: Value::Obj(Seq::empty()) }
    } else if w[0] == "assign"@ && w.len() == 3 {
        match unsigned_up_to(w[1], u64::MAX as nat) {
            Some(n) => CommandView::Call {
                tool: "assign_unit"@,
                args: Value::Obj(
                    seq![("unit_id"@, uint_value(n as u64)), ("operator"@, Value::Str(w[2]))],
                ),
            },
            None => CommandView::BadUnit,
        }
    } else if w[0] == "auto"@ && w.len() == 2 {
        unit_call("engage_autonomy"@, w[1])
    } else if w[0] == "manual"@ && w.len() == 2 {
        unit_call("take_manual_control"@, w[1])
    } else {
        CommandView::Unrecognized
    }
}

fn call_unit_tool(tool: &'static str, unit: &[char]) -> (r: Command)
    ensures
        r@ == unit_call(tool@, unit@),
{
    match parse_unsigned(unit, u64::MAX) {
        Some(id) => {
            let all: [(&str, Json); 1] = [("unit_id", Json::uint(id))];
            let args: Json = Json::obj(all.as_slice());
            assert(args@->Obj_0 =~= seq![("unit_id"@, uint_value(id))]);
            Command::Call { tool, args }
        },
        None => Command::BadUnit,
    }
}

/// Reads one line of the console.
pub fn parse_command(line: &str) -> (r: Command)
    ensures
        r@ == command_of(words(line@)),
{
    let chars: Vec<char> = chars_of(line);
    let w: Vec<Vec<char>> = split_words(chars.as_slice());
    let ghost all = words(line@);
    assert(views(w@) == all);
    assert(all.len() == w@.len());
    assert(forall|i: int| 0 <= i < w@.len() ==> #[trigger] all[i] == w@[i]@);
    if w.len() == 0 {
        return Command::Nothing;
    }
    let first: &[char] = w[0].as_slice();
    if is_text(first, "quit") || is_text(first, "exit") {
        Command::Quit
    } else if is_text(first, "help") {
        Command::Help
    } else if is_text(first, "list") && w.len() == 1 {
        let none: [(&str, Json); 0] = [];
        let args: Json = Json::obj(none.as_slice());
        assert(args@->Obj_0 =~= Seq::<(Seq<char>, Value)>::empty());
        Command::Call { tool: "list_units", args }
    } else if is_text(first, "assign") && w.len() == 3 {
        match parse_unsigned(w[1].as_slice(), u64::MAX) {
            Some(id) => {
                let operator: String = text_of(w[2].as_slice());
                let both: [(&str, Json); 2] = [
                    ("unit_id", Json::uint(id)),
                    ("operator", Json::Str(operator)),
                ];
                let args: Json = Json::obj(both.as_slice());
                assert(args@->Obj_0 =~= seq![
                    ("unit_id"@, uint_value(id)),
                    ("operator"@, Value::Str(all[2])),
                ]);
                Command::Call { tool: "assign_unit", args }
            },
            None => Command::BadUnit,
        }
    } else if is_text(first, "auto") && w.len() == 2 {
        call_unit_tool("engage_autonomy", w[1].as_slice())
    } else if is_text(first, "manual") && w.len() == 2 {
        call_unit_tool("take_manual_control", w[1].as_slice())
    } else {
        Command::Unrecognized
    }
}

/// The commands of the console.
pub fn help_text() -> (r: &'static str)
    ensures
        r@
            == "commands:\n  list                          list every registered unit\n  assign <unit_id> <operator>   assign an operator to a unit\n  auto <unit_id>                engage autonomy (AUTO mode)\n  manual <unit_id>              take manual control (FULL-TELEOP mode)\n  help                          show this message\n  quit                          exit the console"@,
{
    "commands:\n  list                          list every registered unit\n  assign <unit_id> <operator>   assign an operator to a unit\n  auto <unit_id>                engage autonomy (AUTO mode)\n  manual <unit_id>              take manual control (FULL-TELEOP mode)\n  help                          show this message\n  quit                          exit the console"
}

// --- Requests ------------------------------------------------------------------------

/// The JSON-RPC request that calls a tool.
pub open spec fn call_value(id: u64, tool: Seq<char>, args: Value) -> Value {
    Value::Obj(
        seq![
            ("jsonrpc"@, Value::Str("2.0"@)),
            ("id"@, uint_value(id)),
            ("method"@, Value::Str("tools/call"@)),
            ("params"@, Value::Obj(seq![("name"@, Value::Str(tool)), ("arguments"@, args)])),
        ],
    )
}

/// The body of the JSON-RPC request that calls a tool.
pub fn call_body(id: u64, tool: &str, args: Json) -> (r: String)
    ensures
        r@ == json_text(call_value(id, tool@, args@)),
{
    let inner: [(&str, Json); 2] = [("name", Json::str(tool)), ("arguments", args)];
    let params: Json = Json::obj(inner.as_slice());
    assert(params@->Obj_0 =~= seq![("name"@, Value::Str(tool@)), ("arguments"@, args@)]);
    let all: [(&str, Json); 4] = [
        ("jsonrpc", Json::str("2.0")),
        ("id", Json::uint(id)),
        ("method", Json::str("tools/call")),
        ("params", params),
    ];
    let whole: Json = Json::obj(all.as_slice());
    assert(whole@->Obj_0 =~= call_value(id, tool@, args@)->Obj_0);
    whole.write_to_string()
}

/// The HTTP request that posts a body.
pub open spec fn request_text(host: Seq<char>, auth: Option<Seq<char>>, body: Seq<char>) -> Seq<char> {
    "POST /mcp HTTP/1.1\r\nHost: "@ + host
        + "\r\nContent-Type: application/json\r\nContent-Length: "@ + decimal(
        encode_utf8(body).len(),
    ) + "\r\n"@ + (match auth {
        Some(h) => "Authorization: TPT-Attestation "@ + h + "\r\n"@,
        None => Seq::empty(),
    }) + "Connection: close\r\n\r\n"@ + body
}

/// The HTTP request that posts a body, with an attestation in hexadecimal digits
/// where there is one.
pub fn http_request(host: &str, auth: Option<&str>, body: &str) -> (r: String)
    ensures
        r@ == request_text(
            host@,
            match auth {
                Some(h) => Some(h@),
                None => None,
            },
            body@,
        ),
{
    let mut req: String = "POST /mcp HTTP/1.1\r\nHost: ".to_owned();
    req.append(host);
    req.append("\r\nContent-Type: application/json\r\nContent-Length: ");
    let bytes: Vec<u8> = bytes_of(body);
    push_decimal(&mut req, bytes.len() as u64);
    req.append("\r\n");
    let ghost head = req@;
    match auth {
        Some(h) => {
            req.append("Authorization: TPT-Attestation ");
            req.append(h);
            req.append("\r\n");
            assert(req@ =~= head + ("Authorization: TPT-Attestation "@ + h@ + "\r\n"@));
        },
        None => {
            assert(req@ =~= head + Seq::<char>::empty());
        },
    }
    req.append("Connection: close\r\n\r\n");
    req.append(body);
    req
}

// --- Replies -------------------------------------------------------------------------

/// What `String::from_utf8_lossy` gives for the bytes `b`.
pub uninterp spec fn lossy_text(b: Seq<u8>) -> Seq<char>;

/// `String::from_utf8_lossy`: the text of valid UTF-8 as it is; what is not
/// valid is replaced. How it is replaced is left to the name.
#[verifier::external_body]
fn from_lossy(b: &[u8]) -> (r: String)
    ensures
        r@ == lossy_text(b@),
        valid_utf8(b@) ==> r@ == decode_utf8(b@),
{
    String::from_utf8_lossy(b).into_owned()
}

/// What stands before the first `pat` in `s`, or all of it.
pub open spec fn before_text(s: Seq<char>, pat: Seq<char>) -> Seq<char> {
    match after_text(s, pat) {
        Some(t) => s.take(s.len() - t.len() - pat.len()),
        None => s,
    }
}

/// What stands before the first line end in `s`, or all of it.
pub open spec fn first_line(s: Seq<char>) -> Seq<char> {
    match first_at(s, '\n') {
        Some(i) => s.take(i),
        None => s,
    }
}

/// The status of a reply with the given head: the second word of its first line.
pub open spec fn status_in(head: Seq<char>) -> u16 {
    let w = words(first_line(head));
    if w.len() < 2 {
        0
    } else {
        match unsigned_up_to(w[1], u16::MAX as nat) {
            Some(n) => n as u16,
            None => 0,
        }
    }
}

/// The body of a reply: what stands after its first blank line.
pub open spec fn body_in(reply: Seq<char>) -> Seq<char> {
    match after_text(reply, "\r\n\r\n"@) {
        Some(t) => t,
        None => Seq::empty(),
    }
}

/// Splits the text of a reply into its status and its body.
pub fn parse_reply(reply: &str) -> (r: (u16, String))
    ensures
        r.0 == status_in(before_text(reply@, "\r\n\r\n"@)),
        r.1@ == body_in(reply@),
{
    let chars: Vec<char> = chars_of(reply);
    let blank: Vec<char> = chars_of("\r\n\r\n");
    let mut body: String = String::new();
    proof {
        lemma_after_text_len(reply@, "\r\n\r\n"@);
    }
    let head: &[char] = match text_after(chars.as_slice(), blank.as_slice()) {
        Some(t) => {
            push_chars(&mut body, t);
            assert(body@ =~= t@);
            vstd::slice::slice_subrange(chars.as_slice(), 0, chars.len() - t.len() - blank.len())
        },
        None => {
            assert(body@ =~= Seq::<char>::empty());
            chars.as_slice()
        },
    };
    assert(head@ =~= before_text(reply@, "\r\n\r\n"@));
    let line: &[char] = match find_char(head, '\n') {
        Some(i) => vstd::slice::slice_subrange(head, 0, i),
        None => head,
    };
    assert(line@ =~= first_line(head@));
    let w: Vec<Vec<char>> = split_words(line);
    assert(views(w@).len() == w@.len());
    let status: u16 = if w.len() < 2 {
        0
    } else {
        assert(views(w@)[1] == w@[1]@);
        match parse_unsigned(w[1].as_slice(), u16::MAX as u64) {
            Some(n) => n as u16,
            None => 0,
        }
    };
    (status, body)
}

proof fn lemma_after_text_len(s: Seq<char>, pat: Seq<char>)
    ensures
        after_text(s, pat) matches Some(t) ==> t.len() + pat.len() <= s.len(),
    decreases s.len(),
{
    if pat.is_prefix_of(s) {
    } else if s.len() > 0 {
        lemma_after_text_len(s.drop_first(), pat);
    }
}

/// Splits the bytes of a reply into its status and its body.
pub fn read_reply(raw: &[u8]) -> (r: (u16, String))
    ensures
        r.0 == status_in(before_text(lossy_text(raw@), "\r\n\r\n"@)),
        r.1@ == body_in(lossy_text(raw@)),
        valid_utf8(raw@) ==> r.0 == status_in(before_text(decode_utf8(raw@), "\r\n\r\n"@))
            && r.1@ == body_in(decode_utf8(raw@)),
{
    let reply: String = from_lossy(raw);
    parse_reply(reply.as_str())
}

/// What is shown of a reply: on the error stream or on the ordinary one.
#[derive(Debug, PartialEq, Eq)]
pub struct Shown {
    /// Whether it is an error.
    pub error: bool,
    /// The text.
    pub text: String,
}

/// What is shown of a reply: its error, else its result, else all of it. What is
/// no JSON is shown with the reason.
pub open spec fn shown_of(status: u16, body: Seq<char>) -> (bool, Seq<char>) {
    match parse_result(encode_utf8(body)) {
        Ok(v) => match v.field("error"@) {
            Some(e) => (true, "error: "@ + json_text(e)),
            None => match v.field("result"@) {
                Some(r) => (false, json_text(r)),
                None => (false, json_text(v)),
            },
        },
        Err(e) => (
            true,
            "error: invalid JSON response (HTTP "@ + decimal(status as nat) + "): "@ + e + "\n"@
                + body,
        ),
    }
}

/// What is shown of a reply.
pub fn show_reply(status: u16, body: &str) -> (r: Shown)
    ensures
        (r.error, r.text@) == shown_of(status, body@),
{
    let bytes: Vec<u8> = bytes_of(body);
    match Json::parse(bytes.as_slice()) {
        Ok(v) => {
            if let Some(e) = v.get("error") {
                let mut text: String = "error: ".to_owned();
                let inner: String = e.write_to_string();
                text.append(inner.as_str());
                return Shown { error: true, text };
            }
            if let Some(result) = v.get("result") {
                return Shown { error: false, text: result.write_to_string() };
            }
            Shown { error: false, text: v.write_to_string() }
        },
        Err(e) => {
            let mut text: String = "error: invalid JSON response (HTTP ".to_owned();
            push_decimal(&mut text, status as u64);
            text.append("): ");
            text.append(e.as_str());
            text.append("\n");
            text.append(body);
            Shown { error: true, text }
        },
    }
}

/// The console's count of requests.
pub struct Session {
    next_id: u64,
}

impl Session {
    /// The id of the next request.
    pub closed spec fn coming(&self) -> u64 {
        self.next_id
    }

    /// A session whose first request has the id 1.
    pub fn new() -> (r: Session)
        ensures
            r.coming() == 1,
    {
        Session { next_id: 1 }
    }

    /// The id of the next request.
    pub fn next_id(&self) -> (r: u64)
        ensures
            r == self.coming(),
    {
        self.next_id
    }

    /// Makes the request that calls a tool; each has the next id.
    pub fn request(&mut self, host: &str, auth: Option<&str>, tool: &str, args: Json) -> (r: String)
        requires
            old(self).coming() < u64::MAX,
        ensures
            final(self).coming() == old(self).coming() + 1,
            r@ == request_text(
                host@,
                match auth {
                    Some(h) => Some(h@),
                    None => None,
                },
                json_text(call_value(old(self).coming(), tool@, args@)),
            ),
    {
        let id: u64 = self.next_id;
        self.next_id = id + 1;
        let body: String = call_body(id, tool, args);
        http_request(host, auth, body.as_str())
    }
}

/// Arguments that were read already do not matter.
proof fn lemma_plan_behind(
    args: Seq<Seq<char>>,
    i: int,
    more: Seq<Seq<char>>,
    host: Seq<char>,
)
    requires
        0 <= i <= args.len(),
    ensures
        plan_from(more + args, more.len() + i, host) == plan_from(args, i, host),
    decreases args.len() - i,
{
    let all = more + args;
    let at = more.len() + i;
    if i < args.len() {
        assert(all[at] == args[i]);
        if i + 1 < args.len() {
            assert(all[at + 1] == args[i + 1]);
            lemma_plan_behind(args, i + 2, more, args[i + 1]);
            lemma_plan_behind(args, i + 2, more, host);
        }
    }
}

/// `--host` names the server, the last one counts, and every `--attestation` adds
/// a file, in order; what follows is read as if it stood alone.
pub proof fn law_console_options(value: Seq<char>, rest: Seq<Seq<char>>, host: Seq<char>)
    ensures
        plan_from(seq!["--host"@, value] + rest, 0, host) == plan_from(rest, 0, value),
        ({
            let (files, r) = plan_from(rest, 0, host);
            plan_from(seq!["--attestation"@, value] + rest, 0, host) == (seq![value] + files, r)
        }),
        plan_from(Seq::empty(), 0, host) == (
            Seq::<Seq<char>>::empty(),
            Ok::<Seq<char>, Refusal>(host),
        ),
{
    reveal_strlit("--host");
    reveal_strlit("--attestation");
    assert("--host"@.len() == 6 && "--attestation"@.len() == 13);
    let a = seq!["--host"@, value];
    assert((a + rest)[0] == "--host"@ && (a + rest)[1] == value);
    lemma_plan_behind(rest, 0, a, value);
    let b = seq!["--attestation"@, value];
    assert((b + rest)[0] == "--attestation"@ && (b + rest)[1] == value);
    lemma_plan_behind(rest, 0, b, host);
}

} // verus!
