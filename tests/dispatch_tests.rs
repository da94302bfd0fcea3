use resp_kv::command::get_reply;
use resp_kv::command::handle_request;
use resp_kv::command::CommandContext;
use resp_kv::command::CommandDispatcher;
use resp_kv::command::CommandHandler;
use resp_kv::resp::RespToken::Array;
use resp_kv::resp::RespToken::BulkString;
use resp_kv::resp::RespToken::Integer;
use resp_kv::resp::RespToken::NullBulkString;
use resp_kv::resp::RespToken::SimpleError;
use resp_kv::resp::RespToken::SimpleString;
use resp_kv::resp::RespToken;
use resp_kv::store::Store;

fn run(token: RespToken, store: &Store) -> RespToken {
    let dispatcher = CommandDispatcher::new();
    let context = CommandContext {
        token,
        store: store.clone(),
    };
    dispatcher.dispatch(&context)
}

fn bulk(s: &str) -> RespToken {
    BulkString(s.to_string())
}

#[test]
fn test_ping() {
    let dispatcher = CommandDispatcher::new();
    let token = BulkString("PinG".to_string());
    let context = CommandContext {
        token,
        store: Store::new(),
    };
    let response = dispatcher.dispatch(&context);

    assert_eq!(response, BulkString("PONG".to_string()));
}

#[test]
fn test_echo() {
    let dispatcher = CommandDispatcher::new();
    let token = Array(vec![
        BulkString("ecHO".to_string()),
        BulkString("Hello".to_string()),
    ]);
    let context = CommandContext {
        token,
        store: Store::new(),
    };
    let response = dispatcher.dispatch(&context);

    assert_eq!(response, BulkString("Hello".to_string()));
}

#[test]
fn test_unknown_command() {
    let dispatcher = CommandDispatcher::new();
    let token = BulkString("unknown".to_string());
    let context = CommandContext {
        token,
        store: Store::new(),
    };
    let response = dispatcher.dispatch(&context);

    assert_eq!(response, SimpleError("unknown command".to_string()));
}

#[test]
fn test_get() {
    let dispatcher = CommandDispatcher::new();
    let token = Array(vec![
        BulkString("GET".to_string()),
        BulkString("key".to_string()),
    ]);
    let store = Store::new();
    store.insert("key".to_string(), "value".to_string(), None);
    let context = CommandContext { token, store };
    let response = dispatcher.dispatch(&context);

    assert_eq!(response, BulkString("value".to_string()));
}

#[test]
fn test_set() {
    let dispatcher = CommandDispatcher::new();
    let token = Array(vec![
        BulkString("SET".to_string()),
        BulkString("key".to_string()),
        BulkString("value".to_string()),
    ]);
    let store = Store::new();
    let context = CommandContext {
        token,
        store: store.clone(),
    };
    let response = dispatcher.dispatch(&context);

    assert_eq!(response, SimpleString("OK".to_string()));
    assert_eq!(store.get("key"), Some("value".to_string()));
}

#[test]
fn ping_in_every_shape_and_case() {
    let store = Store::new();
    for word in ["PING", "ping", "PiNg"] {
        let pong = bulk("PONG");
        assert_eq!(run(SimpleString(word.to_string()), &store), pong);
        assert_eq!(run(bulk(word), &store), pong);
        assert_eq!(run(Array(vec![bulk(word)]), &store), pong);
        assert_eq!(run(Array(vec![Array(vec![bulk(word)])]), &store), pong);
    }
}

#[test]
fn commands_ignore_case() {
    let store = Store::new();
    for (set, get, echo) in [("SET", "GET", "ECHO"), ("set", "get", "echo"), ("SeT", "gEt", "eChO")] {
        assert_eq!(
            run(Array(vec![bulk(set), bulk("k"), bulk(echo)]), &store),
            SimpleString("OK".to_string())
        );
        assert_eq!(run(Array(vec![bulk(get), bulk("k")]), &store), bulk(echo));
        assert_eq!(run(Array(vec![bulk(echo), bulk("Hi")]), &store), bulk("Hi"));
    }
}

#[test]
fn get_of_missing_key_is_null() {
    let store = Store::new();
    assert_eq!(
        run(Array(vec![bulk("GET"), bulk("missing")]), &store),
        NullBulkString
    );
}

#[test]
fn unknown_words_and_wrong_shapes() {
    let store = Store::new();
    let unknown = SimpleError("unknown command".to_string());
    let requests = vec![
        Array(vec![bulk("DEL"), bulk("k")]),
        Array(vec![]),
        Array(vec![bulk("PING"), bulk("x")]),
        Array(vec![bulk("ECHO")]),
        Array(vec![bulk("ECHO"), bulk("a"), bulk("b")]),
        Array(vec![bulk("GET"), bulk("k"), bulk("x")]),
        Array(vec![bulk("SET"), bulk("k")]),
        Array(vec![bulk("SET"), bulk("k"), bulk("v"), bulk("x")]),
        Array(vec![bulk("ECHO"), Integer(5)]),
        Array(vec![SimpleString("GET".to_string()), bulk("k")]),
        Array(vec![Integer(1)]),
        Integer(3),
        NullBulkString,
        SimpleError("PING".to_string()),
    ];
    for request in requests {
        assert_eq!(run(request, &store), unknown);
    }
    assert_eq!(store.get("k"), None);
}

#[test]
fn handler_names_are_upper_case_words() {
    assert!(CommandHandler::PingHandler.named_by(&"PING".to_string()));
    assert!(CommandHandler::EchoHandler.named_by(&"ECHO".to_string()));
    assert!(CommandHandler::GetHandler.named_by(&"GET".to_string()));
    assert!(CommandHandler::SetHandler.named_by(&"SET".to_string()));
    assert!(!CommandHandler::GetHandler.named_by(&"get".to_string()));
    assert!(!CommandHandler::SetHandler.named_by(&"GET".to_string()));
}

fn wire(request: &str, store: &Store) -> String {
    handle_request(request, store.clone()).encode()
}

#[test]
fn scenario_ping_bulk() {
    let store = Store::new();
    assert_eq!(wire("$4\r\nPING\r\n", &store), "$4\r\nPONG\r\n");
}

#[test]
fn scenario_echo() {
    let store = Store::new();
    assert_eq!(
        wire("*2\r\n$4\r\nECHO\r\n$5\r\nHello\r\n", &store),
        "$5\r\nHello\r\n"
    );
}

#[test]
fn scenario_set_then_get() {
    let store = Store::new();
    let other = store.clone();
    assert_eq!(
        wire("*3\r\n$3\r\nSET\r\n$3\r\nfoo\r\n$3\r\nbar\r\n", &store),
        "+OK\r\n"
    );
    assert_eq!(
        wire("*2\r\n$3\r\nGET\r\n$3\r\nfoo\r\n", &other),
        "$3\r\nbar\r\n"
    );
}

#[test]
fn scenario_get_missing() {
    let store = Store::new();
    assert_eq!(wire("*2\r\n$3\r\nGET\r\n$7\r\nmissing\r\n", &store), "$-1\r\n");
}

#[test]
fn scenario_unknown() {
    let store = Store::new();
    assert_eq!(wire("$7\r\nUNKNOWN\r\n", &store), "-unknown command\r\n");
}

#[test]
fn malformed_request_gets_parse_error() {
    let store = Store::new();
    assert_eq!(wire("*2\r\n$3\r\nGET\r\n", &store), "-parse error\r\n");
    assert_eq!(wire("garbage", &store), "-parse error\r\n");
}

#[test]
fn get_reply_follows_the_lookup() {
    assert_eq!(get_reply(Some("bar".to_string())), bulk("bar"));
    assert_eq!(get_reply(Some(String::new())), bulk(""));
    assert_eq!(get_reply(None), NullBulkString);
}
