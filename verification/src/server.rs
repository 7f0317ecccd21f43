use vstd::prelude::*;

use crate::dictionary_server::DictionaryServer;
use crate::parser::dec;
use crate::parser::encode;
use crate::parser::stringify;
use crate::parser::wf_value;
use crate::parser::DecodeError;
use crate::parser::Parser;
use crate::parser::Value;
use crate::parser::ValueType;
use crate::parser::WireValue;

verus! {

/// The text an element carries when a command reads it as a name or an
/// argument; elements that carry no text read as empty.
pub open spec fn arg_text(v: WireValue) -> Seq<char> {
    match v {
        WireValue::Simple(t) => t,
        WireValue::Error(t) => t,
        WireValue::Integer(t) => t,
        WireValue::Bulk(t) => t,
        WireValue::Null => Seq::empty(),
        WireValue::Arr(_) => Seq::empty(),
    }
}

/// Whether an element carries text at all: the null marker and nested
/// arrays do not, and cannot serve as a key or a value.
pub open spec fn carries_text(v: WireValue) -> bool {
    match v {
        WireValue::Simple(_) => true,
        WireValue::Error(_) => true,
        WireValue::Integer(_) => true,
        WireValue::Bulk(_) => true,
        WireValue::Null => false,
        WireValue::Arr(_) => false,
    }
}

pub open spec fn invalid_request_text() -> Seq<char> {
    "ERR invalid request"@
}

pub open spec fn wrong_arity_text(cmd: Seq<char>) -> Seq<char> {
    "ERR wrong number of arguments for '"@ + cmd + "'"@
}

pub open spec fn unknown_command_text(cmd: Seq<char>) -> Seq<char> {
    "ERR unknown command '"@ + cmd + "'"@
}

/// The reply to one decoded request, and the store state it leaves behind.
///
/// A request must be a non-empty array; its first element names the
/// command. `PING` and `ECHO` match case-sensitively, `SET` and `GET` also
/// accept their lower-case forms. Every failure is an error reply, never a
/// halt: an empty or non-array request, a wrong argument count, a `SET` or
/// `GET` argument that carries no text, an unknown command.
pub open spec fn spec_reply(m: Map<Seq<char>, Seq<char>>, req: WireValue) -> (
    WireValue,
    Map<Seq<char>, Seq<char>>,
) {
    match req {
        WireValue::Arr(es) => if es.len() == 0 {
            (WireValue::Error(invalid_request_text()), m)
        } else {
            let cmd = arg_text(es[0]);
            if cmd == "PING"@ {
                (WireValue::Simple("PONG"@), m)
            } else if cmd == "ECHO"@ {
                if es.len() >= 2 {
                    (WireValue::Simple(arg_text(es[1])), m)
                } else {
                    (WireValue::Simple(Seq::empty()), m)
                }
            } else if cmd == "SET"@ || cmd == "set"@ {
                if es.len() == 3 && carries_text(es[1]) && carries_text(es[2]) {
                    (WireValue::Simple("OK"@), m.insert(arg_text(es[1]), arg_text(es[2])))
                } else {
                    (WireValue::Error(wrong_arity_text(cmd)), m)
                }
            } else if cmd == "GET"@ || cmd == "get"@ {
                if es.len() >= 2 && carries_text(es[1]) {
                    (
                        WireValue::Simple(
                            if m.dom().contains(arg_text(es[1])) {
                                m[arg_text(es[1])]
                            } else {
                                "nil"@
                            },
                        ),
                        m,
                    )
                } else {
                    (WireValue::Error(wrong_arity_text(cmd)), m)
                }
            } else {
                (WireValue::Error(unknown_command_text(cmd)), m)
            }
        },
        _ => (WireValue::Error(invalid_request_text()), m),
    }
}

/// What the server writes back for one raw request buffer: the reply to
/// the decoded request, or an error reply describing the decode failure.
pub open spec fn spec_handle(m: Map<Seq<char>, Seq<char>>, input: Seq<char>) -> (
    WireValue,
    Map<Seq<char>, Seq<char>>,
) {
    match dec(input, 0) {
        Ok(t) => spec_reply(m, t.0),
        Err(e) => (WireValue::Error(decode_error_text(e)), m),
    }
}

pub open spec fn decode_error_text(e: DecodeError) -> Seq<char> {
    match e {
        DecodeError::MissingTerminator => "ERR protocol error: missing line terminator"@,
        DecodeError::LengthMismatch => "ERR protocol error: bulk length mismatch"@,
        DecodeError::UnknownType => "ERR protocol error: unknown value type"@,
        DecodeError::UnexpectedEnd => "ERR protocol error: unexpected end of input"@,
    }
}

/// A `SET` answered `OK` leaves the store so that the next `GET` of that
/// key answers the stored value, whatever the store held before.
pub proof fn lemma_set_then_get(m: Map<Seq<char>, Seq<char>>, k: Seq<char>, v: Seq<char>)
    ensures
        ({
            let set_req = WireValue::Arr(
                seq![WireValue::Bulk("SET"@), WireValue::Bulk(k), WireValue::Bulk(v)],
            );
            let get_req = WireValue::Arr(seq![WireValue::Bulk("GET"@), WireValue::Bulk(k)]);
            let after = spec_reply(m, set_req);
            after.0 == WireValue::Simple("OK"@) && spec_reply(after.1, get_req).0
                == WireValue::Simple(v)
        }),
{
    reveal_strlit("SET");
    reveal_strlit("GET");
    reveal_strlit("PING");
    reveal_strlit("ECHO");
    reveal_strlit("set");
    reveal_strlit("get");
    let es = seq![WireValue::Bulk("SET"@), WireValue::Bulk(k), WireValue::Bulk(v)];
    assert(es.len() == 3);
    assert(arg_text(es[0]) == "SET"@);
    assert(arg_text(es[1]) == k);
    assert(arg_text(es[2]) == v);
    assert(carries_text(es[1]) && carries_text(es[2]));
    assert("SET"@.len() == 3 && "PING"@.len() == 4 && "ECHO"@.len() == 4);
    assert("SET"@ != "PING"@ && "SET"@ != "ECHO"@);
    let after = spec_reply(m, WireValue::Arr(es));
    assert(after.1 == m.insert(k, v));
    let gs = seq![WireValue::Bulk("GET"@), WireValue::Bulk(k)];
    assert(gs.len() == 2);
    assert(arg_text(gs[0]) == "GET"@);
    assert(arg_text(gs[1]) == k);
    assert(carries_text(gs[1]));
    assert("GET"@ != "PING"@ && "GET"@ != "ECHO"@);
    assert("GET"@[0] == 'G' && "SET"@[0] == 'S' && "set"@[0] == 's');
    assert("GET"@ != "SET"@ && "GET"@ != "set"@);
    assert(m.insert(k, v).dom().contains(k));
    assert(m.insert(k, v)[k] == v);
    assert(spec_reply(after.1, WireValue::Arr(gs)).0 == WireValue::Simple(v));
}

/// A `GET` of a key the store never held answers the text `nil`.
pub proof fn lemma_get_unset(m: Map<Seq<char>, Seq<char>>, k: Seq<char>)
    requires
        !m.dom().contains(k),
    ensures
        spec_reply(m, WireValue::Arr(seq![WireValue::Bulk("GET"@), WireValue::Bulk(k)])).0
            == WireValue::Simple("nil"@),
        spec_reply(m, WireValue::Arr(seq![WireValue::Bulk("GET"@), WireValue::Bulk(k)])).1 == m,
{
    reveal_strlit("GET");
    reveal_strlit("PING");
    reveal_strlit("ECHO");
    reveal_strlit("SET");
    reveal_strlit("set");
    let gs = seq![WireValue::Bulk("GET"@), WireValue::Bulk(k)];
    assert(gs.len() == 2);
    assert(arg_text(gs[0]) == "GET"@);
    assert(arg_text(gs[1]) == k);
    assert(carries_text(gs[1]));
    assert("GET"@.len() == 3 && "PING"@.len() == 4 && "ECHO"@.len() == 4);
    assert("GET"@ != "PING"@ && "GET"@ != "ECHO"@);
    assert("GET"@[0] == 'G' && "SET"@[0] == 'S' && "set"@[0] == 's');
    assert("GET"@ != "SET"@ && "GET"@ != "set"@);
}

fn simple_reply(text: String) -> (r: Value)
    ensures
        r@ == WireValue::Simple(text@),
        wf_value(r),
{
    Value { value: Some(text), value_type: ValueType::SimpleString, null: false, array: Vec::new() }
}

fn error_reply(text: String) -> (r: Value)
    ensures
        r@ == WireValue::Error(text@),
        wf_value(r),
{
    Value { value: Some(text), value_type: ValueType::Error, null: false, array: Vec::new() }
}

/// The text of an element, as a command reads it.
fn element_text(v: &Value) -> (r: String)
    ensures
        r@ == arg_text(v@),
{
    match v.value_type {
        ValueType::Null => String::new(),
        ValueType::Array => String::new(),
        _ => match &v.value {
            Some(s) => s.clone(),
            None => String::new(),
        },
    }
}

/// Whether an element can serve as a command argument at all.
fn element_carries_text(v: &Value) -> (r: bool)
    ensures
        r == carries_text(v@),
{
    match v.value_type {
        ValueType::Null => false,
        ValueType::Array => false,
        _ => true,
    }
}

/// The reply to `PING`: the text `PONG`, whatever the arguments.
pub fn ping_command() -> (r: Value)
    ensures
        r@ == WireValue::Simple("PONG"@),
        wf_value(r),
{
    simple_reply(String::from_str("PONG"))
}

/// The reply to `ECHO`: its argument's text, or empty when none was sent.
pub fn echo_command(arg: Option<&Value>) -> (r: Value)
    ensures
        r@ == match arg {
            Some(v) => WireValue::Simple(arg_text(v@)),
            None => WireValue::Simple(Seq::empty()),
        },
        wf_value(r),
{
    match arg {
        Some(v) => simple_reply(element_text(v)),
        None => simple_reply(String::new()),
    }
}

/// The reply to a well-formed `SET`: stores the pair and answers `OK`.
pub fn set_command(map: &mut DictionaryServer, key: &String, value: &String) -> (r: Value)
    requires
        old(map).wf(),
    ensures
        final(map).wf(),
        final(map)@ == old(map)@.insert(key@, value@),
        r@ == WireValue::Simple("OK"@),
        wf_value(r),
{
    let _ = map.set(key, value);
    simple_reply(String::from_str("OK"))
}

/// The reply to a well-formed `GET`: the stored value, or the text `nil`
/// when the key was never set.
pub fn get_command(map: &mut DictionaryServer, key: &String) -> (r: Value)
    requires
        old(map).wf(),
    ensures
        final(map).wf(),
        *final(map) == *old(map),
        r@ == WireValue::Simple(
            if old(map)@.dom().contains(key@) {
                old(map)@[key@]
            } else {
                "nil"@
            },
        ),
        wf_value(r),
{
    simple_reply(map.get(key))
}

/// Dispatches one decoded request against the store and builds the reply.
pub fn dispatch(value: &Value, map: &mut DictionaryServer) -> (reply: Value)
    requires
        wf_value(*value),
        old(map).wf(),
    ensures
        final(map).wf(),
        reply@ == spec_reply(old(map)@, value@).0,
        final(map)@ == spec_reply(old(map)@, value@).1,
        wf_value(reply),
{
    match value.value_type {
        ValueType::Array => {
            if value.array.len() == 0 {
                return error_reply(String::from_str("ERR invalid request"));
            }
            let cmd = element_text(&value.array[0]);
            if cmd == String::from_str("PING") {
                ping_command()
            } else if cmd == String::from_str("ECHO") {
                if value.array.len() >= 2 {
                    echo_command(Some(&value.array[1]))
                } else {
                    echo_command(None)
                }
            } else if cmd == String::from_str("SET") || cmd == String::from_str("set") {
                if value.array.len() == 3 && element_carries_text(&value.array[1])
                    && element_carries_text(&value.array[2]) {
                    let key = element_text(&value.array[1]);
                    let val = element_text(&value.array[2]);
                    set_command(map, &key, &val)
                } else {
                    let mut msg = String::from_str("ERR wrong number of arguments for '");
                    msg.append(cmd.as_str());
                    msg.append("'");
                    error_reply(msg)
                }
            } else if cmd == String::from_str("GET") || cmd == String::from_str("get") {
                if value.array.len() >= 2 && element_carries_text(&value.array[1]) {
                    let key = element_text(&value.array[1]);
                    get_command(map, &key)
                } else {
                    let mut msg = String::from_str("ERR wrong number of arguments for '");
                    msg.append(cmd.as_str());
                    msg.append("'");
                    error_reply(msg)
                }
            } else {
                let mut msg = String::from_str("ERR unknown command '");
                msg.append(cmd.as_str());
                msg.append("'");
                error_reply(msg)
            }
        },
        _ => error_reply(String::from_str("ERR invalid request")),
    }
}

fn decode_error_message(e: DecodeError) -> (r: String)
    ensures
        r@ == decode_error_text(e),
{
    match e {
        DecodeError::MissingTerminator => String::from_str(
            "ERR protocol error: missing line terminator",
        ),
        DecodeError::LengthMismatch => String::from_str("ERR protocol error: bulk length mismatch"),
        DecodeError::UnknownType => String::from_str("ERR protocol error: unknown value type"),
        DecodeError::UnexpectedEnd => String::from_str(
            "ERR protocol error: unexpected end of input",
        ),
    }
}

/// The error reply a failed decode earns, ready to encode and send.
pub fn decode_error_reply(e: DecodeError) -> (r: Value)
    ensures
        r@ == WireValue::Error(decode_error_text(e)),
        wf_value(r),
{
    error_reply(decode_error_message(e))
}

/// One full request cycle over bytes already read: decode, dispatch, and
/// encode the reply. A decode failure becomes an error reply, never a
/// halt.
pub fn handle_request(map: &mut DictionaryServer, input: String) -> (out: String)
    requires
        old(map).wf(),
    ensures
        final(map).wf(),
        out@ == encode(spec_handle(old(map)@, input@).0),
        final(map)@ == spec_handle(old(map)@, input@).1,
{
    let mut parser = Parser::new(input);
    match parser.parse() {
        Ok(v) => {
            let reply = dispatch(&v, map);
            stringify(&reply)
        },
        Err(e) => {
            let reply = decode_error_reply(e);
            stringify(&reply)
        },
    }
}

} // verus!
