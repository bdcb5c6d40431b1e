//! What holds of the tool protocol.

use crate::mcp::{Request, Step};
use vstd::prelude::*;

verus! {

/// The version that is asked for is spoken if it is one of three, else the newest of them.
pub proof fn law_versions(v: Seq<char>)
    ensures
        v == "2025-06-18"@ || v == "2025-03-26"@ || v == "2024-11-05"@ ==> crate::mcp::version_for(Some(v)) == v,
        v != "2025-03-26"@ && v != "2024-11-05"@ ==> crate::mcp::version_for(Some(v)) == "2025-06-18"@,
        crate::mcp::version_for(None) == "2025-06-18"@,
{
}

/// What a message asks for goes by its method. One without a number is only a note, and all but one are passed over.
pub proof fn law_requests(method: Seq<char>)
    ensures
        crate::mcp::request_of(method, true) == Request::Initialize <==> method == "initialize"@,
        crate::mcp::request_of(method, true) == Request::Ping <==> method == "ping"@,
        crate::mcp::request_of(method, true) == Request::ListTools <==> method == "tools/list"@,
        crate::mcp::request_of(method, true) == Request::CallTool <==> method == "tools/call"@,
        crate::mcp::request_of(method, true) == Request::Unknown <==> method != "initialize"@ && method != "ping"@
            && method != "tools/list"@ && method != "tools/call"@,
        crate::mcp::request_of(method, false) == if method == "notifications/cancelled"@ {
            Request::Cancel
        } else {
            Request::Ignored
        },
{
    reveal_strlit("initialize");
    reveal_strlit("ping");
    reveal_strlit("tools/list");
    reveal_strlit("tools/call");
    assert("initialize"@[0] == 'i' && "ping"@[0] == 'p' && "tools/list"@[0] == 't' && "tools/call"@[0] == 't');
    assert("tools/list"@[6] == 'l' && "tools/call"@[6] == 'c');
}

/// A blank line is passed over, and one that is no JSON text is answered with an error that has no number.
pub proof fn law_lines_that_ask_nothing(line: Seq<char>, e: Seq<char>)
    ensures
        (forall|i: int| 0 <= i < line.len() ==> crate::text::blank(#[trigger] line[i])) ==> crate::mcp::step_of(line)
            == Step::Nothing,
        (exists|i: int| 0 <= i < line.len() && !crate::text::blank(#[trigger] line[i])) && crate::json::member_in(
            line,
            "id"@,
        ) == Err::<Option<Seq<char>>, Seq<char>>(e) ==> crate::mcp::step_of(line) == (Step::Fail {
            id: "null"@,
            code: -32700,
            message: "parse error: "@ + e,
        }),
{
    if forall|i: int| 0 <= i < line.len() ==> crate::text::blank(#[trigger] line[i]) {
        crate::text_law::law_trimmed(line, Seq::empty(), Seq::empty());
        assert(line + Seq::<char>::empty() + Seq::<char>::empty() =~= line);
    } else {
        lemma_not_blank(line);
    }
}

proof fn lemma_not_blank(line: Seq<char>)
    requires
        exists|i: int| 0 <= i < line.len() && !crate::text::blank(#[trigger] line[i]),
    ensures
        crate::text::trimmed(line).len() > 0,
{
    let k = choose|i: int| 0 <= i < line.len() && !crate::text::blank(#[trigger] line[i]);
    let a = lemma_first(line, k);
    let b = lemma_last(line, a);
    let mid = line.subrange(a, b + 1);
    let (front, back) = (line.take(a), line.skip(b + 1));
    assert(mid[0] == line[a] && mid.last() == line[b]);
    assert forall|i: int| 0 <= i < back.len() implies crate::text::blank(#[trigger] back[i]) by {
        assert(back[i] == line[b + 1 + i]);
    }
    crate::text_law::law_trimmed(front, mid, back);
    assert(front + mid + back =~= line);
}

proof fn lemma_first(line: Seq<char>, k: int) -> (a: int)
    requires
        0 <= k < line.len(),
        !crate::text::blank(line[k]),
    ensures
        0 <= a <= k,
        !crate::text::blank(line[a]),
        forall|i: int| 0 <= i < a ==> crate::text::blank(#[trigger] line[i]),
    decreases k,
{
    if forall|i: int| 0 <= i < k ==> crate::text::blank(#[trigger] line[i]) {
        k
    } else {
        let j = choose|i: int| 0 <= i < k && !crate::text::blank(#[trigger] line[i]);
        lemma_first(line, j)
    }
}

proof fn lemma_last(line: Seq<char>, k: int) -> (b: int)
    requires
        0 <= k < line.len(),
        !crate::text::blank(line[k]),
    ensures
        k <= b < line.len(),
        !crate::text::blank(line[b]),
        forall|i: int| b < i < line.len() ==> crate::text::blank(#[trigger] line[i]),
    decreases line.len() - k,
{
    if forall|i: int| k < i < line.len() ==> crate::text::blank(#[trigger] line[i]) {
        k
    } else {
        let j = choose|i: int| k < i < line.len() && !crate::text::blank(#[trigger] line[i]);
        lemma_last(line, j)
    }
}

/// Every message with a number is answered under that number: the start of the protocol, a sign of life, the list of
/// tools, the call of one by its name with its arguments, and an error where it has none or asks for anything else.
#[verifier::spinoff_prover]
pub proof fn law_messages_are_answered(line: Seq<char>, id: Seq<char>, method: Seq<char>, params: Seq<char>)
    requires
        exists|i: int| 0 <= i < line.len() && !crate::text::blank(#[trigger] line[i]),
        crate::json::member_in(line, "id"@) == Ok::<Option<Seq<char>>, Seq<char>>(Some(id)),
        crate::json::string_under(line, "method"@) == Some(method),
        crate::json::member_in(line, "params"@) == Ok::<Option<Seq<char>>, Seq<char>>(Some(params)),
    ensures
        ({
            let r = crate::mcp::step_of(line);
            &&& method == "initialize"@ ==> r == (Step::Initialize {
                id,
                version: crate::mcp::version_for(crate::json::string_under(params, "protocolVersion"@)),
            })
            &&& method == "ping"@ ==> r == (Step::Ping { id })
            &&& method == "tools/list"@ ==> r == (Step::ListTools { id })
            &&& method == "tools/call"@ ==> (crate::json::string_under(params, "name"@) is None ==> r == (Step::Fail {
                id,
                code: -32602,
                message: "missing tool name"@,
            }))
            &&& method == "tools/call"@ ==> (crate::json::string_under(params, "name"@) matches Some(n) ==> {
                &&& r matches Step::Call { id: i, name, args, token } && i == id && name == n && {
                    &&& crate::json::member_in(params, "arguments"@) matches Ok(Some(a)) ==> args == a
                    &&& !(crate::json::member_in(params, "arguments"@) matches Ok(Some(_))) ==> args == "{}"@
                    &&& token == match crate::json::member_in(params, "_meta"@) {
                        Ok(Some(meta)) => match crate::json::member_in(meta, "progressToken"@) {
                            Ok(t) => t,
                            Err(_) => None,
                        },
                        _ => None,
                    }
                }
            })
            &&& method != "initialize"@ && method != "ping"@ && method != "tools/list"@ && method != "tools/call"@ ==> r
                == (Step::Fail { id, code: -32601, message: "method not found: "@ + method })
        }),
{
    lemma_not_blank(line);
    law_requests(method);
}

/// A message without a number is not answered. It can only cancel a call, by the number of the call.
pub proof fn law_notes_are_not_answered(line: Seq<char>, params: Seq<char>)
    requires
        exists|i: int| 0 <= i < line.len() && !crate::text::blank(#[trigger] line[i]),
        crate::json::member_in(line, "id"@) == Ok::<Option<Seq<char>>, Seq<char>>(None),
        crate::json::member_in(line, "params"@) == Ok::<Option<Seq<char>>, Seq<char>>(Some(params)),
    ensures
        ({
            let r = crate::mcp::step_of(line);
            let asked = crate::json::string_under(line, "method"@) == Some("notifications/cancelled"@);
            &&& asked ==> (crate::json::member_in(params, "requestId"@) matches Ok(Some(id)) ==> r == (Step::Cancel { id }))
            &&& asked ==> (!(crate::json::member_in(params, "requestId"@) matches Ok(Some(_))) ==> r == Step::Nothing)
            &&& !asked ==> r == Step::Nothing
        }),
{
    lemma_not_blank(line);
    reveal_strlit("notifications/cancelled");
    assert("notifications/cancelled"@.len() > 0);
}

/// Progress is sent in thousandths of a phase, rounded down, a thousand for every phase before. So the number grows
/// with what is done of a phase, and no number of a phase is beyond those of the next.
pub proof fn law_progress_grows(
    phases: Seq<Seq<char>>,
    phase: Seq<char>,
    done: int,
    more: int,
    total: int,
)
    requires
        0 <= done <= more,
        0 <= total,
        phases.no_duplicates(),
    ensures
        ({
            let v = crate::mcp::value_of(phases, phase, done, total);
            let after = crate::mcp::with_phase(phases, phase);
            &&& v <= crate::mcp::value_of(phases, phase, more, total)
            &&& total > 0 && done >= total ==> v % 1000 == 0 && v >= 1000
            &&& after.no_duplicates()
            &&& after.contains(phase)
            &&& forall|k: int| 0 <= k < phases.len() ==> after[k] == #[trigger] phases[k]
            &&& forall|k: int|
                0 <= k < after.len() && #[trigger] after[k] == phase ==> 1000 * k <= v <= 1000 * k + 1000
            &&& total > 0 && done < total ==> exists|k: int|
                0 <= k < after.len() && #[trigger] after[k] == phase && (v - 1000 * k) * total <= 1000 * done < (v - 1000
                    * k + 1) * total
            &&& total == 0 || done == 0 ==> v % 1000 == 0 || done >= total
        }),
{
    crate::container_law::law_portions_are_in_proportion(1000, done, more, total);
    crate::container_law::law_portions_are_in_proportion(1000, more, more, total);
    assert(crate::mcp::thousandths(done, total) == crate::container::portion(1000, done, total));
    assert(crate::mcp::thousandths(more, total) == crate::container::portion(1000, more, total));
    let after = crate::mcp::with_phase(phases, phase);
    if phases.contains(phase) {
    } else {
        assert(after[phases.len() as int] == phase);
    }
    assert(after.contains(phase));
    let k = after.index_of(phase);
    assert(after[k] == phase);
    assert(after.no_duplicates());
    if total > 0 && done == 0 {
        assert(0int / total == 0) by (nonlinear_arith)
            requires
                total > 0,
        ;
    }
}

}
