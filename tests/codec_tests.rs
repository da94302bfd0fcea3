use resp_kv::resp::tokenize;
use resp_kv::resp::ParseError;
use resp_kv::resp::RespToken;

#[test]
fn simple_string_success() {
    let input = "+OK\r\n";
    let expected = RespToken::SimpleString("OK".to_string());
    let result = tokenize(input);

    match result {
        Ok((s, token)) => {
            assert_eq!(s, "");
            assert_eq!(token, expected);
        }
        Err(_) => panic!("parse_simple_string failed"),
    }
}

#[test]
fn bulk_string_success() {
    let input = "$6\r\nfoobar\r\n";
    let expected = RespToken::BulkString("foobar".to_string());
    let result = tokenize(input);

    match result {
        Ok((s, token)) => {
            assert_eq!(s, "");
            assert_eq!(token, expected);
        }
        Err(_) => panic!("parse_bulk_string failed"),
    }
}

#[test]
fn null_bulk_string_success() {
    let input = "$-1\r\n";
    let expected = RespToken::NullBulkString;
    let result = tokenize(input);

    match result {
        Ok((s, token)) => {
            assert_eq!(s, "");
            assert_eq!(token, expected);
        }
        Err(_) => panic!("parse_null_bulk_string failed"),
    }
}

#[test]
fn integer_success() {
    let input = ":1000\r\n";
    let expected = RespToken::Integer(1000);
    let result = tokenize(input);

    match result {
        Ok((s, token)) => {
            assert_eq!(s, "");
            assert_eq!(token, expected);
        }
        Err(_) => panic!("parse_integer failed"),
    }
}

#[test]
fn array_success() {
    let input = "*2\r\n+OK\r\n:1000\r\n";
    let expected = RespToken::Array(vec![
        RespToken::SimpleString("OK".to_string()),
        RespToken::Integer(1000),
    ]);
    let result = tokenize(input);

    match result {
        Ok((s, token)) => {
            assert_eq!(s, "");
            assert_eq!(token, expected);
        }
        Err(_) => panic!("parse_array failed"),
    }
}

#[test]
fn display_simple_string() {
    let token = RespToken::SimpleString("OK".to_string());
    let expected = "+OK\r\n";
    let result = token.encode();

    assert_eq!(result, expected);
}

#[test]
fn display_bulk_string() {
    let token = RespToken::BulkString("foobar".to_string());
    let expected = "$6\r\nfoobar\r\n";
    let result = token.encode();

    assert_eq!(result, expected);
}

#[test]
fn display_null_bulk_string() {
    let token = RespToken::NullBulkString;
    let expected = "$-1\r\n";
    let result = token.encode();

    assert_eq!(result, expected);
}

#[test]
fn display_integer() {
    let token = RespToken::Integer(1000);
    let expected = ":1000\r\n";
    let result = token.encode();

    assert_eq!(result, expected);
}

#[test]
fn display_array() {
    let token = RespToken::Array(vec![
        RespToken::SimpleString("OK".to_string()),
        RespToken::Integer(1000),
    ]);
    let expected = "*2\r\n+OK\r\n:1000\r\n";
    let result = token.encode();

    assert_eq!(result, expected);
}

#[test]
fn display_nested_array() {
    let token = RespToken::Array(vec![
        RespToken::Array(vec![
            RespToken::SimpleString("OK".to_string()),
            RespToken::Integer(1000),
        ]),
        RespToken::Array(vec![
            RespToken::SimpleString("ERR".to_string()),
            RespToken::Integer(2000),
        ]),
    ]);
    let expected = "*2\r\n*2\r\n+OK\r\n:1000\r\n*2\r\n+ERR\r\n:2000\r\n";
    let result = token.encode();

    assert_eq!(result, expected);
}

#[test]
fn encode_simple_error() {
    let token = RespToken::SimpleError("unknown command".to_string());
    assert_eq!(token.encode(), "-unknown command\r\n");
}

#[test]
fn encode_negative_and_extreme_integers() {
    assert_eq!(RespToken::Integer(-42).encode(), ":-42\r\n");
    assert_eq!(RespToken::Integer(0).encode(), ":0\r\n");
    assert_eq!(
        RespToken::Integer(i64::MIN).encode(),
        ":-9223372036854775808\r\n"
    );
    assert_eq!(
        RespToken::Integer(i64::MAX).encode(),
        ":9223372036854775807\r\n"
    );
}

#[test]
fn encode_bulk_length_counts_bytes() {
    let token = RespToken::BulkString("h\u{e9}llo".to_string());
    assert_eq!(token.encode(), "$6\r\nh\u{e9}llo\r\n");
    let token = RespToken::BulkString("\u{1F600}".to_string());
    assert_eq!(token.encode(), "$4\r\n\u{1F600}\r\n");
}

#[test]
fn encode_empty_values() {
    assert_eq!(RespToken::BulkString(String::new()).encode(), "$0\r\n\r\n");
    assert_eq!(RespToken::Array(vec![]).encode(), "*0\r\n");
}

#[test]
fn decode_empty_bulk_and_array() {
    assert_eq!(
        tokenize("$0\r\n\r\n"),
        Ok(("", RespToken::BulkString(String::new())))
    );
    assert_eq!(tokenize("*0\r\n"), Ok(("", RespToken::Array(vec![]))));
}

#[test]
fn decode_empty_simple_string_fails() {
    assert_eq!(tokenize("+\r\n"), Err(ParseError));
}

#[test]
fn decode_simple_string_needs_crlf() {
    assert_eq!(tokenize("+OK\n"), Err(ParseError));
    assert_eq!(tokenize("+OK"), Err(ParseError));
}

#[test]
fn decode_signed_integers() {
    assert_eq!(tokenize(":-42\r\n"), Ok(("", RespToken::Integer(-42))));
    assert_eq!(
        tokenize(":-9223372036854775808\r\n"),
        Ok(("", RespToken::Integer(i64::MIN)))
    );
    assert_eq!(
        tokenize(":9223372036854775807\r\n"),
        Ok(("", RespToken::Integer(i64::MAX)))
    );
}

#[test]
fn decode_integer_out_of_range_fails() {
    assert_eq!(tokenize(":9223372036854775808\r\n"), Err(ParseError));
    assert_eq!(tokenize(":-9223372036854775809\r\n"), Err(ParseError));
    assert_eq!(tokenize(":12a\r\n"), Err(ParseError));
    assert_eq!(tokenize(":\r\n"), Err(ParseError));
}

#[test]
fn decode_bulk_counts_bytes() {
    assert_eq!(
        tokenize("$6\r\nh\u{e9}llo\r\n"),
        Ok(("", RespToken::BulkString("h\u{e9}llo".to_string())))
    );
    // a length that ends inside a character
    assert_eq!(tokenize("$1\r\n\u{e9}\r\n"), Err(ParseError));
}

#[test]
fn decode_bulk_keeps_crlf_inside() {
    assert_eq!(
        tokenize("$4\r\na\r\nb\r\n"),
        Ok(("", RespToken::BulkString("a\r\nb".to_string())))
    );
}

#[test]
fn decode_short_input_fails() {
    assert_eq!(tokenize("$6\r\nfoo\r\n"), Err(ParseError));
    assert_eq!(tokenize("*2\r\n+OK\r\n"), Err(ParseError));
    assert_eq!(tokenize(""), Err(ParseError));
    assert_eq!(tokenize("$-2\r\n"), Err(ParseError));
    assert_eq!(tokenize("-ERR\r\n"), Err(ParseError));
    assert_eq!(tokenize("hello"), Err(ParseError));
}

#[test]
fn decode_returns_what_follows() {
    assert_eq!(
        tokenize("+OK\r\n:5\r\n"),
        Ok((":5\r\n", RespToken::SimpleString("OK".to_string())))
    );
}

#[test]
fn decode_nested_array() {
    let input = "*2\r\n*2\r\n+OK\r\n:1000\r\n*2\r\n+ERR\r\n:2000\r\n";
    let expected = RespToken::Array(vec![
        RespToken::Array(vec![
            RespToken::SimpleString("OK".to_string()),
            RespToken::Integer(1000),
        ]),
        RespToken::Array(vec![
            RespToken::SimpleString("ERR".to_string()),
            RespToken::Integer(2000),
        ]),
    ]);
    assert_eq!(tokenize(input), Ok(("", expected)));
}

#[test]
fn round_trip_of_every_kind() {
    let tokens = vec![
        RespToken::SimpleString("hello world".to_string()),
        RespToken::BulkString("a\r\nb \u{e9}".to_string()),
        RespToken::BulkString(String::new()),
        RespToken::NullBulkString,
        RespToken::Integer(-7),
        RespToken::Array(vec![
            RespToken::Integer(1),
            RespToken::Array(vec![RespToken::NullBulkString]),
            RespToken::Array(vec![]),
        ]),
    ];
    for t in tokens {
        let wire = t.encode();
        assert_eq!(tokenize(&wire), Ok(("", t)));
    }
}
