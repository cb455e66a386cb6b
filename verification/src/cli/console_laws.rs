//! What a line typed at the console does to the fleet.
use vstd::prelude::*;
use crate::cli::console::{call_value, command_of, shown_of, CommandView};
use crate::cloud::fleet::{Fleet, UnitTransport};
use crate::cloud::fleet_laws::{
    calls_tool, default_policy, law_assign_tool_assigns, law_tools_set_the_mode, names_unit,
    others_stay,
};
use crate::cloud::json::{lookup, text, uint_value, Value};
use crate::cloud::json_laws::{law_parse_reads_back, plain};
use crate::cloud::json_syntax_laws::law_integers_survive_json;
use crate::cloud::mcp::handles;
use crate::cloud::recorder::Recorder;
use crate::num::decimal::lemma_decimal_digits;
use crate::runtime::mode::Mode;
use crate::text::{after_plus, decimal, is_digit, text_opt, unsigned_up_to};

verus! {

/// The numeral of a unit id reads as the id.
proof fn lemma_id_reads(id: u64)
    ensures
        unsigned_up_to(decimal(id as nat), u64::MAX as nat) == Some(id as nat),
{
    let d = decimal(id as nat);
    lemma_decimal_digits(id as nat);
    assert(is_digit(d[0]));
    assert(after_plus(d) == d);
}

proof fn lemma_console_words()
    ensures
        "manual"@ != "quit"@ && "manual"@ != "exit"@ && "manual"@ != "help"@ && "manual"@ != "list"@
            && "manual"@ != "assign"@ && "manual"@ != "auto"@,
        "auto"@ != "quit"@ && "auto"@ != "exit"@ && "auto"@ != "help"@ && "auto"@ != "list"@
            && "auto"@ != "assign"@,
        "assign"@ != "quit"@ && "assign"@ != "exit"@ && "assign"@ != "help"@ && "assign"@
            != "list"@,
        "list"@ != "quit"@ && "list"@ != "exit"@ && "list"@ != "help"@,
        "unit_id"@ != "operator"@,
{
    reveal_strlit("manual");
    reveal_strlit("auto");
    reveal_strlit("assign");
    reveal_strlit("list");
    reveal_strlit("quit");
    reveal_strlit("exit");
    reveal_strlit("help");
    reveal_strlit("unit_id");
    reveal_strlit("operator");
    assert("manual"@.len() == 6 && "auto"@.len() == 4 && "assign"@.len() == 6 && "list"@.len() == 4);
    assert("quit"@.len() == 4 && "exit"@.len() == 4 && "help"@.len() == 4);
    assert("manual"@[0] == 'm' && "assign"@[0] == 'a' && "auto"@[0] == 'a' && "list"@[0] == 'l');
    assert("quit"@[0] == 'q' && "exit"@[0] == 'e' && "help"@[0] == 'h');
    assert("unit_id"@.len() == 7 && "operator"@.len() == 8);
}

/// A request that calls a tool says so, under the keys of the protocol.
pub proof fn law_call_names_its_tool(id: u64, tool: Seq<char>, args: Value)
    ensures
        calls_tool(call_value(id, tool, args), tool, args),
        call_value(id, tool, args).field("jsonrpc"@) == Some(Value::Str("2.0"@)),
        call_value(id, tool, args).field("id"@) == Some(uint_value(id)),
{
    reveal_strlit("jsonrpc");
    reveal_strlit("id");
    reveal_strlit("method");
    reveal_strlit("params");
    reveal_strlit("name");
    reveal_strlit("arguments");
    assert("jsonrpc"@.len() == 7 && "id"@.len() == 2 && "method"@.len() == 6 && "params"@.len() == 6);
    assert("method"@[0] == 'm' && "params"@[0] == 'p');
    assert("name"@.len() == 4 && "arguments"@.len() == 9);
    reveal_with_fuel(lookup, 5);
}

/// What is typed says which tool is called and for which unit: `manual <id>`
/// takes manual control, `auto <id>` engages autonomy, `assign <id> <operator>`
/// assigns, and `list` lists. Ids up to 2^53 arrive as typed.
pub proof fn law_typed_lines_name_tool_and_unit(id: u64, operator: Seq<char>)
    requires
        id < 0x20_0000_0000_0000,
    ensures
        command_of(seq!["manual"@, decimal(id as nat)]) matches CommandView::Call { tool, args }
            && tool == "take_manual_control"@ && names_unit(args, id),
        command_of(seq!["auto"@, decimal(id as nat)]) matches CommandView::Call { tool, args }
            && tool == "engage_autonomy"@ && names_unit(args, id),
        command_of(seq!["assign"@, decimal(id as nat), operator]) matches CommandView::Call {
            tool,
            args,
        } && tool == "assign_unit"@ && names_unit(args, id) && args.field("operator"@) == Some(
            Value::Str(operator),
        ),
        command_of(seq!["list"@]) matches CommandView::Call { tool, args } && tool
            == "list_units"@,
{
    lemma_console_words();
    lemma_id_reads(id);
    law_integers_survive_json(id);
    reveal_with_fuel(lookup, 3);
    let one = seq![("unit_id"@, uint_value(id))];
    assert(Value::Obj(one).field("unit_id"@) == Some(uint_value(id)));
    let two = seq![("unit_id"@, uint_value(id)), ("operator"@, Value::Str(operator))];
    assert(two.drop_first() =~= seq![("operator"@, Value::Str(operator))]);
    assert(Value::Obj(two).field("operator"@) == Some(Value::Str(operator)));
}

/// In a fleet with the default policy, typing `manual <id>` or `auto <id>` for a
/// unit of the fleet sends a request that, where it is answered with a result,
/// leaves that unit in FULL-TELEOP or in AUTO mode, and no other unit changed.
pub proof fn law_typed_lines_set_the_mode<T: UnitTransport, R: Recorder>(
    before: Fleet<T, R>,
    after: Fleet<T, R>,
    w: Seq<Seq<char>>,
    request_id: u64,
    i: int,
    now_ns: u64,
    reply: Value,
)
    requires
        before.wf(),
        default_policy(before),
        0 <= i < before.units().len(),
        before.units()[i].id < 0x20_0000_0000_0000,
        w == seq!["manual"@, decimal(before.units()[i].id as nat)] || w == seq![
            "auto"@,
            decimal(before.units()[i].id as nat),
        ],
        command_of(w) matches CommandView::Call { tool, args } && handles(
            before,
            after,
            call_value(request_id, tool, args),
            now_ns,
            reply,
        ),
    ensures
        others_stay(before, after, i),
        reply.field("result"@) is Some && w[0] == "manual"@ ==> after.units()[i].mode
            == Mode::FullTeleop,
        reply.field("result"@) is Some && w[0] == "auto"@ ==> after.units()[i].mode == Mode::Auto,
{
    lemma_console_words();
    let id = before.units()[i].id;
    law_typed_lines_name_tool_and_unit(id, Seq::empty());
    let tool = command_of(w)->tool;
    let args = command_of(w)->args;
    law_call_names_its_tool(request_id, tool, args);
    law_tools_set_the_mode(
        before,
        after,
        call_value(request_id, tool, args),
        args,
        i,
        now_ns,
        reply,
    );
}

/// Typing `assign <id> <operator>` for a unit of the fleet sends a request that is
/// answered with a result and leaves the unit assigned to that operator.
pub proof fn law_typed_assign_assigns<T: UnitTransport, R: Recorder>(
    before: Fleet<T, R>,
    after: Fleet<T, R>,
    operator: Seq<char>,
    request_id: u64,
    i: int,
    now_ns: u64,
    reply: Value,
)
    requires
        before.wf(),
        0 <= i < before.units().len(),
        before.units()[i].id < 0x20_0000_0000_0000,
        command_of(
            seq!["assign"@, decimal(before.units()[i].id as nat), operator],
        ) matches CommandView::Call { tool, args } && handles(
            before,
            after,
            call_value(request_id, tool, args),
            now_ns,
            reply,
        ),
    ensures
        reply.field("result"@) is Some,
        others_stay(before, after, i),
        text_opt(after.units()[i].assigned_operator) == Some(operator),
{
    let id = before.units()[i].id;
    law_typed_lines_name_tool_and_unit(id, operator);
    let c = command_of(seq!["assign"@, decimal(id as nat), operator]);
    law_call_names_its_tool(request_id, c->tool, c->args);
    law_assign_tool_assigns(
        before,
        after,
        call_value(request_id, c->tool, c->args),
        c->args,
        i,
        operator,
        now_ns,
        reply,
    );
}

/// A reply with an error is shown as one, with what the error says; one with a
/// result shows what the result says, and is no error.
pub proof fn law_replies_are_shown(status: u16, reply: Value)
    requires
        plain(reply),
    ensures
        reply.field("error"@) matches Some(e) ==> shown_of(status, text(reply)) == (
            true,
            "error: "@ + text(e),
        ),
        reply.field("error"@) is None ==> (reply.field("result"@) matches Some(r) ==> shown_of(
            status,
            text(reply),
        ) == (false, text(r))),
{
    law_parse_reads_back(reply);
}

} // verus!
