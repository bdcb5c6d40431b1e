//! The tool protocol: which requests there are, and how progress is numbered.

use crate::json::{find_string, member};
use crate::text::{letters, same_text, trim};
use vstd::prelude::*;

verus! {

/// The version of the protocol that is spoken with someone who asks for one.
pub open spec fn version_for(asked: Option<Seq<char>>) -> Seq<char> {
    match asked {
        Some(v) if v == "2025-03-26"@ || v == "2024-11-05"@ => v,
        _ => "2025-06-18"@,
    }
}

/// Agrees on a version of the protocol.
pub fn agree(asked: Option<&str>) -> (v: String)
    ensures
        v@ == version_for(
            match asked {
                Some(a) => Some(a@),
                None => None,
            },
        ),
{
    match asked {
        Some(a) => if same_text(a, "2025-03-26") || same_text(a, "2024-11-05") {
            a.to_owned()
        } else {
            "2025-06-18".to_owned()
        },
        None => "2025-06-18".to_owned(),
    }
}

/// What is asked for.
#[derive(Clone, Copy, Debug, PartialEq, Eq, Structural)]
pub enum Request {
    Initialize,
    Ping,
    ListTools,
    CallTool,
    Cancel,
    Ignored,
    Unknown,
}

/// What a message asks for, by its method and by whether it has a number to answer to.
pub open spec fn request_of(method: Seq<char>, numbered: bool) -> Request {
    if !numbered {
        if method == "notifications/cancelled"@ {
            Request::Cancel
        } else {
            Request::Ignored
        }
    } else if method == "initialize"@ {
        Request::Initialize
    } else if method == "ping"@ {
        Request::Ping
    } else if method == "tools/list"@ {
        Request::ListTools
    } else if method == "tools/call"@ {
        Request::CallTool
    } else {
        Request::Unknown
    }
}

/// Finds what a message asks for.
pub fn request(method: &str, numbered: bool) -> (r: Request)
    ensures
        r == request_of(method@, numbered),
{
    if !numbered {
        if same_text(method, "notifications/cancelled") {
            Request::Cancel
        } else {
            Request::Ignored
        }
    } else if same_text(method, "initialize") {
        Request::Initialize
    } else if same_text(method, "ping") {
        Request::Ping
    } else if same_text(method, "tools/list") {
        Request::ListTools
    } else if same_text(method, "tools/call") {
        Request::CallTool
    } else {
        Request::Unknown
    }
}

/// What is to be done about a line of the protocol. Numbers, arguments and tokens are JSON texts.
pub enum Action {
    Nothing,
    Fail { id: String, code: i64, message: String },
    Initialize { id: String, version: String },
    Ping { id: String },
    ListTools { id: String },
    Call { id: String, name: String, args: String, token: Option<String> },
    Cancel { id: String },
}

/// What is to be done about a line of the protocol, in terms of texts.
#[verifier::ext_equal]
pub enum Step {
    Nothing,
    Fail { id: Seq<char>, code: int, message: Seq<char> },
    Initialize { id: Seq<char>, version: Seq<char> },
    Ping { id: Seq<char> },
    ListTools { id: Seq<char> },
    Call { id: Seq<char>, name: Seq<char>, args: Seq<char>, token: Option<Seq<char>> },
    Cancel { id: Seq<char> },
}

impl View for Action {
    type V = Step;

    open spec fn view(&self) -> Step {
        match *self {
            Action::Nothing => Step::Nothing,
            Action::Fail { id, code, message } => Step::Fail { id: id@, code: code as int, message: message@ },
            Action::Initialize { id, version } => Step::Initialize { id: id@, version: version@ },
            Action::Ping { id } => Step::Ping { id: id@ },
            Action::ListTools { id } => Step::ListTools { id: id@ },
            Action::Call { id, name, args, token } => Step::Call {
                id: id@,
                name: name@,
                args: args@,
                token: crate::json::text_in(token),
            },
            Action::Cancel { id } => Step::Cancel { id: id@ },
        }
    }
}

/// A message: the JSON text of its number, if it has one, its method, and the JSON text of what comes
/// with it.
pub struct Incoming {
    pub id: Option<String>,
    pub method: String,
    pub params: String,
}

/// What an object has under a key, or else a text.
pub open spec fn member_or(text: Seq<char>, key: Seq<char>, other: Seq<char>) -> Seq<char> {
    match crate::json::member_in(text, key) {
        Ok(Some(m)) => m,
        _ => other,
    }
}

fn get_or(text: &str, key: &str, other: &str) -> (r: String)
    ensures
        r@ == member_or(text@, key@, other@),
{
    match member(text, key) {
        Ok(Some(m)) => m,
        _ => other.to_owned(),
    }
}

/// The method of a message.
pub open spec fn method_in(line: Seq<char>) -> Seq<char> {
    match crate::json::string_under(line, "method"@) {
        Some(m) => m,
        None => Seq::empty(),
    }
}

/// The message that a line holds, if it is not blank, or why it holds none.
pub open spec fn message_in(line: Seq<char>) -> Result<
    Option<(Option<Seq<char>>, Seq<char>, Seq<char>)>,
    Seq<char>,
> {
    if crate::text::trimmed(line).len() == 0 {
        Ok(None)
    } else {
        match crate::json::member_in(line, "id"@) {
            Err(e) => Err(e),
            Ok(id) => Ok(Some((id, method_in(line), member_or(line, "params"@, "{}"@)))),
        }
    }
}

pub open spec fn incoming(r: Result<Option<(Incoming, Request)>, String>) -> Result<
    Option<(Option<Seq<char>>, Seq<char>, Seq<char>)>,
    Seq<char>,
> {
    match r {
        Err(e) => Err(e@),
        Ok(None) => Ok(None),
        Ok(Some((m, _))) => Ok(Some((crate::json::text_in(m.id), m.method@, m.params@))),
    }
}

/// Reads the message that a line holds, and finds what it asks for.
pub fn read_request(line: &str) -> (r: Result<Option<(Incoming, Request)>, String>)
    ensures
        incoming(r) == message_in(line@),
        r matches Ok(Some((m, q))) ==> q == request_of(m.method@, m.id is Some),
{
    if trim(&letters(line)).len() == 0 {
        return Ok(None);
    }
    let id = member(line, "id")?;
    let method = match find_string(line, "method") {
        Some(m) => m,
        None => String::new(),
    };
    assert(method@ =~= method_in(line@));
    let params = get_or(line, "params", "{}");
    let q = request(&method, id.is_some());
    Ok(Some((Incoming { id, method, params }, q)))
}

/// What is to be done about a message with a number, by what it asks for.
pub open spec fn step_for(id: Seq<char>, method: Seq<char>, params: Seq<char>) -> Step {
    match request_of(method, true) {
        Request::Initialize => Step::Initialize {
            id,
            version: version_for(crate::json::string_under(params, "protocolVersion"@)),
        },
        Request::Ping => Step::Ping { id },
        Request::ListTools => Step::ListTools { id },
        Request::CallTool => match crate::json::string_under(params, "name"@) {
            None => Step::Fail { id, code: -32602, message: "missing tool name"@ },
            Some(name) => Step::Call {
                id,
                name,
                args: member_or(params, "arguments"@, "{}"@),
                token: match crate::json::member_in(params, "_meta"@) {
                    Ok(Some(meta)) => match crate::json::member_in(meta, "progressToken"@) {
                        Ok(token) => token,
                        Err(_) => None,
                    },
                    _ => None,
                },
            },
        },
        _ => Step::Fail { id, code: -32601, message: "method not found: "@ + method },
    }
}

/// What is to be done about a line of the protocol.
pub open spec fn step_of(line: Seq<char>) -> Step {
    match message_in(line) {
        Err(e) => Step::Fail { id: "null"@, code: -32700, message: "parse error: "@ + e },
        Ok(None) => Step::Nothing,
        Ok(Some((Some(id), method, params))) => step_for(id, method, params),
        Ok(Some((None, method, params))) => if method == "notifications/cancelled"@ {
            match crate::json::member_in(params, "requestId"@) {
                Ok(Some(id)) => Step::Cancel { id },
                _ => Step::Nothing,
            }
        } else {
            Step::Nothing
        },
    }
}

fn sentence(before: &str, after: &str) -> (r: String)
    ensures
        r@ == before@ + after@,
{
    let mut r = before.to_owned();
    r.append(after);
    r
}

fn token_in(params: &str) -> (r: Option<String>)
    ensures
        crate::json::text_in(r) == (match crate::json::member_in(params@, "_meta"@) {
            Ok(Some(meta)) => match crate::json::member_in(meta, "progressToken"@) {
                Ok(token) => token,
                Err(_) => None,
            },
            _ => None,
        }),
{
    match member(params, "_meta") {
        Ok(Some(meta)) => match member(&meta, "progressToken") {
            Ok(token) => token,
            Err(_) => None,
        },
        _ => None,
    }
}

fn act(id: String, method: &str, params: &str, q: Request) -> (a: Action)
    requires
        q == request_of(method@, true),
    ensures
        a@ == step_for(id@, method@, params@),
{
    match q {
        Request::Initialize => {
            let asked = find_string(params, "protocolVersion");
            let version = match &asked {
                Some(v) => agree(Some(v.as_str())),
                None => agree(None),
            };
            Action::Initialize { id, version }
        },
        Request::Ping => Action::Ping { id },
        Request::ListTools => Action::ListTools { id },
        Request::CallTool => match find_string(params, "name") {
            None => Action::Fail { id, code: -32602, message: "missing tool name".to_owned() },
            Some(name) => Action::Call {
                id,
                name,
                args: get_or(params, "arguments", "{}"),
                token: token_in(params),
            },
        },
        _ => Action::Fail { id, code: -32601, message: sentence("method not found: ", method) },
    }
}

/// Decides what is to be done about a line of the protocol.
pub fn action(line: &str) -> (a: Action)
    ensures
        a@ == step_of(line@),
{
    match read_request(line) {
        Err(e) => Action::Fail {
            id: "null".to_owned(),
            code: -32700,
            message: sentence("parse error: ", &e),
        },
        Ok(None) => Action::Nothing,
        Ok(Some((m, q))) => match m.id {
            Some(id) => act(id, &m.method, &m.params, q),
            None => if q == Request::Cancel {
                match member(&m.params, "requestId") {
                    Ok(Some(id)) => Action::Cancel { id },
                    _ => Action::Nothing,
                }
            } else {
                Action::Nothing
            },
        },
    }
}

/// How far a call has come: the phases that it went through, and the last number that was sent.
pub struct Meter {
    pub phases: Vec<String>,
    pub sent: u64,
}

/// How much of a phase is done, in thousandths.
pub open spec fn thousandths(done: int, total: int) -> int {
    if total == 0 {
        0
    } else if done < total {
        1000 * done / total
    } else {
        1000
    }
}

/// The phases with one more, if it is new.
pub open spec fn with_phase(phases: Seq<Seq<char>>, phase: Seq<char>) -> Seq<Seq<char>> {
    if phases.contains(phase) {
        phases
    } else {
        phases.push(phase)
    }
}

/// The number that a report stands for.
pub open spec fn value_of(phases: Seq<Seq<char>>, phase: Seq<char>, done: int, total: int) -> int {
    with_phase(phases, phase).index_of(phase) * 1000 + thousandths(done, total)
}

impl Meter {
    pub open spec fn wf(&self) -> bool {
        &&& self.phases.len() < 0x1_0000_0000
        &&& crate::locale::texts(self.phases@).no_duplicates()
    }

    pub fn new() -> (m: Self)
        ensures
            m.wf(),
            m.phases@.len() == 0,
            m.sent == 0,
    {
        Meter { phases: Vec::new(), sent: 0 }
    }

    /// Takes a report, and returns the number to send, if it is greater than the last one and either
    /// a while has passed or the phase is done.
    pub fn take(&mut self, phase: &str, done: u64, total: u64, late: bool) -> (r: Option<u64>)
        requires
            old(self).wf(),
            old(self).phases.len() < 0xffff_ffff,
        ensures
            final(self).wf(),
            crate::locale::texts(final(self).phases@) == with_phase(
                crate::locale::texts(old(self).phases@),
                phase@,
            ),
            ({
                let v = value_of(
                    crate::locale::texts(old(self).phases@),
                    phase@,
                    done as int,
                    total as int,
                );
                if v > old(self).sent && (late || thousandths(done as int, total as int) == 1000) {
                    r matches Some(n) && n == v && final(self).sent == v
                } else {
                    r is None && final(self).sent == old(self).sent
                }
            }),
    {
        let ghost before = crate::locale::texts(self.phases@);
        let mut rank: usize = 0;
        while rank < self.phases.len() && !same_text(&self.phases[rank], phase)
            invariant
                rank <= self.phases.len(),
                *self == *old(self),
                before == crate::locale::texts(self.phases@),
                forall|k: int| 0 <= k < rank ==> #[trigger] before[k] != phase@,
            decreases self.phases.len() - rank,
        {
            assert(before[rank as int] != phase@);
            rank += 1;
        }
        let ghost after = with_phase(before, phase@);
        if rank == self.phases.len() {
            proof {
                assert(!before.contains(phase@));
            }
            self.phases.push(phase.to_owned());
            assert(crate::locale::texts(self.phases@) =~= before.push(phase@));
        } else {
            assert(before[rank as int] == phase@);
            assert(before.contains(phase@));
        }
        proof {
            let i = after.index_of(phase@);
            assert(after[rank as int] == phase@);
            assert(after.contains(phase@));
            assert(after[i] == phase@);
            assert(after.no_duplicates());
            assert(i == rank);
        }
        let permille: u64 = if total == 0 {
            0
        } else if done < total {
            assert(0 <= 1000 * done / (total as int) <= 1000) by (nonlinear_arith)
                requires
                    0 <= done < total,
            ;
            (1000 * done as u128 / total as u128) as u64
        } else {
            1000
        };
        let value: u64 = rank as u64 * 1000 + permille;
        if value > self.sent && (late || permille == 1000) {
            self.sent = value;
            Some(value)
        } else {
            None
        }
    }
}

}
