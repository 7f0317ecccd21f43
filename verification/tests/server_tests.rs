use minikv::dictionary_server::DictionaryServer;
use minikv::server::handle_request;

#[test]
fn ping_request_yields_pong() {
    let mut store = DictionaryServer::new();
    let out = handle_request(&mut store, "*1\r\n$4\r\nPING\r\n".to_string());
    assert_eq!(out, "+PONG\r\n");
}

#[test]
fn set_then_get_round_trip() {
    let mut store = DictionaryServer::new();
    let out = handle_request(
        &mut store,
        "*3\r\n$3\r\nSET\r\n$3\r\nfoo\r\n$3\r\nbar\r\n".to_string(),
    );
    assert_eq!(out, "+OK\r\n");
    let out = handle_request(&mut store, "*2\r\n$3\r\nGET\r\n$3\r\nfoo\r\n".to_string());
    assert_eq!(out, "+bar\r\n");
}

#[test]
fn lower_case_set_and_get_are_accepted() {
    let mut store = DictionaryServer::new();
    let out = handle_request(
        &mut store,
        "*3\r\n$3\r\nset\r\n$1\r\nk\r\n$1\r\nv\r\n".to_string(),
    );
    assert_eq!(out, "+OK\r\n");
    let out = handle_request(&mut store, "*2\r\n$3\r\nget\r\n$1\r\nk\r\n".to_string());
    assert_eq!(out, "+v\r\n");
}

#[test]
fn get_of_unset_key_yields_nil() {
    let mut store = DictionaryServer::new();
    let out = handle_request(&mut store, "*2\r\n$3\r\nGET\r\n$5\r\nnever\r\n".to_string());
    assert_eq!(out, "+nil\r\n");
}

#[test]
fn set_overwrites_previous_value() {
    let mut store = DictionaryServer::new();
    handle_request(
        &mut store,
        "*3\r\n$3\r\nSET\r\n$1\r\nk\r\n$3\r\none\r\n".to_string(),
    );
    handle_request(
        &mut store,
        "*3\r\n$3\r\nSET\r\n$1\r\nk\r\n$3\r\ntwo\r\n".to_string(),
    );
    let out = handle_request(&mut store, "*2\r\n$3\r\nGET\r\n$1\r\nk\r\n".to_string());
    assert_eq!(out, "+two\r\n");
}

#[test]
fn distinct_keys_all_retrievable() {
    // Writes to distinct keys never shadow one another, whatever the order.
    let mut store = DictionaryServer::new();
    for i in 0..5 {
        let req = format!("*3\r\n$3\r\nSET\r\n$4\r\nkey{}\r\n$4\r\nval{}\r\n", i, i);
        assert_eq!(handle_request(&mut store, req), "+OK\r\n");
    }
    for i in (0..5).rev() {
        let req = format!("*2\r\n$3\r\nGET\r\n$4\r\nkey{}\r\n", i);
        assert_eq!(handle_request(&mut store, req), format!("+val{}\r\n", i));
    }
}

#[test]
fn echo_returns_its_argument() {
    let mut store = DictionaryServer::new();
    let out = handle_request(&mut store, "*2\r\n$4\r\nECHO\r\n$5\r\nhello\r\n".to_string());
    assert_eq!(out, "+hello\r\n");
}

#[test]
fn echo_with_no_argument_yields_empty_string() {
    let mut store = DictionaryServer::new();
    let out = handle_request(&mut store, "*1\r\n$4\r\nECHO\r\n".to_string());
    assert_eq!(out, "+\r\n");
}

#[test]
fn unknown_command_yields_error_reply() {
    let mut store = DictionaryServer::new();
    let out = handle_request(&mut store, "*1\r\n$3\r\nFLY\r\n".to_string());
    assert_eq!(out, "-ERR unknown command 'FLY'\r\n");
}

#[test]
fn set_with_missing_argument_yields_error_reply() {
    let mut store = DictionaryServer::new();
    let out = handle_request(&mut store, "*2\r\n$3\r\nSET\r\n$1\r\nk\r\n".to_string());
    assert_eq!(out, "-ERR wrong number of arguments for 'SET'\r\n");
}

#[test]
fn get_with_missing_argument_yields_error_reply() {
    let mut store = DictionaryServer::new();
    let out = handle_request(&mut store, "*1\r\n$3\r\nGET\r\n".to_string());
    assert_eq!(out, "-ERR wrong number of arguments for 'GET'\r\n");
}

#[test]
fn malformed_request_yields_error_reply() {
    let mut store = DictionaryServer::new();
    let out = handle_request(&mut store, "$5\r\nhi\r\n".to_string());
    assert_eq!(out, "-ERR protocol error: bulk length mismatch\r\n");
    let out = handle_request(&mut store, "@nope\r\n".to_string());
    assert_eq!(out, "-ERR protocol error: unknown value type\r\n");
    let out = handle_request(&mut store, "+OK".to_string());
    assert_eq!(out, "-ERR protocol error: missing line terminator\r\n");
    let out = handle_request(&mut store, String::new());
    assert_eq!(out, "-ERR protocol error: unexpected end of input\r\n");
}

#[test]
fn non_array_request_yields_error_reply() {
    let mut store = DictionaryServer::new();
    let out = handle_request(&mut store, "+PING\r\n".to_string());
    assert_eq!(out, "-ERR invalid request\r\n");
    let out = handle_request(&mut store, "*0\r\n".to_string());
    assert_eq!(out, "-ERR invalid request\r\n");
}

#[test]
fn store_set_and_get_directly() {
    let mut store = DictionaryServer::new();
    assert_eq!(store.get(&"a".to_string()), "nil");
    assert!(store.set(&"a".to_string(), &"1".to_string()).is_ok());
    assert_eq!(store.get(&"a".to_string()), "1");
    assert!(store.set(&"a".to_string(), &"2".to_string()).is_ok());
    assert_eq!(store.get(&"a".to_string()), "2");
}

#[test]
fn set_with_textless_argument_yields_error_reply() {
    // A null marker carries no text: it cannot serve as the key, and the
    // store stays untouched.
    let mut store = DictionaryServer::new();
    let out = handle_request(
        &mut store,
        "*3\r\n$3\r\nSET\r\n$-1\r\n$3\r\nbar\r\n".to_string(),
    );
    assert_eq!(out, "-ERR wrong number of arguments for 'SET'\r\n");
    let out = handle_request(&mut store, "*2\r\n$3\r\nGET\r\n$0\r\n\r\n".to_string());
    assert_eq!(out, "+nil\r\n");
}

#[test]
fn get_with_textless_argument_yields_error_reply() {
    let mut store = DictionaryServer::new();
    let out = handle_request(&mut store, "*2\r\n$3\r\nGET\r\n$-1\r\n".to_string());
    assert_eq!(out, "-ERR wrong number of arguments for 'GET'\r\n");
}
