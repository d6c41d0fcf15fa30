use rust_redis::bignum::BigNumber;
use rust_redis::decimal::format_i64;
use rust_redis::decimal::parse_i64;
use rust_redis::double::is_double;
use rust_redis::error::DecodeError;
use rust_redis::resp::decode;
use rust_redis::resp::RespParser;
use rust_redis::resp::RespType;

fn bulk(text: &str) -> RespType {
    RespType::BulkString(Some(text.as_bytes().to_vec()))
}

fn round_trips(message: RespType) {
    let bytes = message.serialize();
    let mut parser = RespParser::new(&bytes);
    let back = parser.parse();
    assert_eq!(back, Ok(message));
    assert_eq!(parser.parse(), Err(DecodeError::Truncated));
}

#[test]
fn round_trip_of_every_kind() {
    round_trips(RespType::SimpleString("OK".to_string()));
    round_trips(RespType::SimpleString(String::new()));
    round_trips(RespType::SimpleString("with \r inside and ünïcödé ✓".to_string()));
    round_trips(RespType::SimpleError("ERR unknown command".to_string()));
    round_trips(RespType::Integer(0));
    round_trips(RespType::Integer(-1));
    round_trips(RespType::Integer(i64::MAX));
    round_trips(RespType::Integer(i64::MIN));
    round_trips(bulk("hello"));
    round_trips(bulk(""));
    round_trips(RespType::BulkString(Some(vec![0, 255, b'\r', b'\n', 10, 13])));
    round_trips(RespType::BulkString(None));
    round_trips(RespType::BulkError("SYNTAX invalid\r\nsecond line".to_string()));
    round_trips(RespType::BulkError(String::new()));
    round_trips(RespType::Array(None));
    round_trips(RespType::Array(Some(vec![])));
    round_trips(RespType::Null);
    round_trips(RespType::Boolean(true));
    round_trips(RespType::Boolean(false));
    round_trips(RespType::Double("3.25".to_string()));
    round_trips(RespType::Double("-inf".to_string()));
    round_trips(RespType::Double("NaN".to_string()));
    round_trips(RespType::Double("1e-7".to_string()));
    round_trips(RespType::BigNumber(BigNumber::from_i64(-42)));
    round_trips(RespType::BigNumber(
        BigNumber::parse(b"3492890328409238509324850943850943825024385").unwrap(),
    ));
}

#[test]
fn round_trip_of_nested_arrays() {
    let inner = RespType::Array(Some(vec![
        RespType::Integer(1),
        RespType::Null,
        RespType::Array(Some(vec![bulk("deep"), RespType::Array(None)])),
    ]));
    round_trips(RespType::Array(Some(vec![
        bulk("SET"),
        inner,
        RespType::SimpleString("x".to_string()),
        RespType::Boolean(true),
        RespType::Double("0.5".to_string()),
        RespType::BigNumber(BigNumber::from_i64(7)),
        RespType::BulkError("e".to_string()),
        RespType::Array(Some(vec![])),
    ])));
}

#[test]
fn exact_encodings() {
    assert_eq!(RespType::SimpleString("OK".to_string()).serialize(), b"+OK\r\n");
    assert_eq!(RespType::SimpleError("ERR x".to_string()).serialize(), b"-ERR x\r\n");
    assert_eq!(RespType::Integer(-120).serialize(), b":-120\r\n");
    assert_eq!(bulk("hello").serialize(), b"$5\r\nhello\r\n");
    assert_eq!(RespType::BulkString(None).serialize(), b"$-1\r\n");
    assert_eq!(RespType::BulkError("oops!".to_string()).serialize(), b"!5\r\noops!\r\n");
    assert_eq!(RespType::Array(None).serialize(), b"*-1\r\n");
    assert_eq!(RespType::Array(Some(vec![])).serialize(), b"*0\r\n");
    assert_eq!(
        RespType::Array(Some(vec![bulk("GET"), bulk("k")])).serialize(),
        b"*2\r\n$3\r\nGET\r\n$1\r\nk\r\n"
    );
    assert_eq!(RespType::Null.serialize(), b"_\r\n");
    assert_eq!(RespType::Boolean(true).serialize(), b"#t\r\n");
    assert_eq!(RespType::Boolean(false).serialize(), b"#f\r\n");
    assert_eq!(RespType::Double("1.5".to_string()).serialize(), b",1.5\r\n");
    assert_eq!(
        RespType::BigNumber(BigNumber::parse(b"+0012_345").unwrap()).serialize(),
        b"(12345\r\n"
    );
    let multibyte = "é".to_string();
    assert_eq!(RespType::BulkError(multibyte).serialize(), "!2\r\né\r\n".as_bytes());
}

#[test]
fn decodes_a_request() {
    let message = decode(b"*3\r\n$3\r\nSET\r\n$3\r\nfoo\r\n$3\r\nbar\r\n").unwrap();
    assert_eq!(message, RespType::Array(Some(vec![bulk("SET"), bulk("foo"), bulk("bar")])));
}

#[test]
fn cursor_advances_past_one_message_only() {
    let buffer = b"+first\r\n:2\r\n$1\r\nx\r\n";
    let mut parser = RespParser::new(buffer);
    assert_eq!(parser.parse(), Ok(RespType::SimpleString("first".to_string())));
    assert_eq!(parser.parse(), Ok(RespType::Integer(2)));
    assert_eq!(parser.parse(), Ok(bulk("x")));
    assert_eq!(parser.parse(), Err(DecodeError::Truncated));
}

#[test]
fn a_failed_parse_leaves_the_cursor() {
    let buffer = b"*2\r\n:1\r\n:x\r\n";
    let mut parser = RespParser::new(buffer);
    assert_eq!(parser.parse(), Err(DecodeError::MalformedNumber));
    assert_eq!(parser.read_line(), Ok("*2".to_string()));
    assert_eq!(parser.parse(), Ok(RespType::Integer(1)));
}

#[test]
fn empty_input_is_truncated() {
    assert_eq!(decode(b""), Err(DecodeError::Truncated));
}

#[test]
fn unknown_marker_is_corrupt() {
    assert_eq!(decode(b"?what\r\n"), Err(DecodeError::Corrupt));
    assert_eq!(decode(b"\r\n"), Err(DecodeError::Corrupt));
}

#[test]
fn line_without_line_feed_is_unterminated() {
    assert_eq!(decode(b"+OK"), Err(DecodeError::UnterminatedLine));
    assert_eq!(decode(b"+OK\r"), Err(DecodeError::UnterminatedLine));
    assert_eq!(decode(b"$5"), Err(DecodeError::UnterminatedLine));
    assert_eq!(decode(b"*"), Err(DecodeError::UnterminatedLine));
}

#[test]
fn line_feed_without_carriage_return_is_a_bad_terminator() {
    assert_eq!(decode(b"+OK\n"), Err(DecodeError::BadTerminator));
    assert_eq!(decode(b"+\n"), Err(DecodeError::BadTerminator));
    assert_eq!(decode(b":1\n"), Err(DecodeError::BadTerminator));
}

#[test]
fn line_that_is_not_text_is_invalid_utf8() {
    assert_eq!(decode(b"+\xFF\xFE\r\n"), Err(DecodeError::InvalidUtf8));
    assert_eq!(decode(b":\xC3\r\n"), Err(DecodeError::InvalidUtf8));
    assert_eq!(decode(b"!2\r\n\xFF\xFF\r\n"), Err(DecodeError::InvalidUtf8));
}

#[test]
fn bulk_string_may_hold_any_bytes() {
    assert_eq!(
        decode(b"$2\r\n\xFF\xFE\r\n"),
        Ok(RespType::BulkString(Some(vec![0xFF, 0xFE])))
    );
}

#[test]
fn integers() {
    assert_eq!(decode(b":0\r\n"), Ok(RespType::Integer(0)));
    assert_eq!(decode(b":+17\r\n"), Ok(RespType::Integer(17)));
    assert_eq!(decode(b":-17\r\n"), Ok(RespType::Integer(-17)));
    assert_eq!(decode(b":007\r\n"), Ok(RespType::Integer(7)));
    assert_eq!(decode(b":9223372036854775807\r\n"), Ok(RespType::Integer(i64::MAX)));
    assert_eq!(decode(b":-9223372036854775808\r\n"), Ok(RespType::Integer(i64::MIN)));
    for bad in [
        &b":\r\n"[..],
        b":-\r\n",
        b":+\r\n",
        b":1 \r\n",
        b": 1\r\n",
        b":1.0\r\n",
        b":0x10\r\n",
        b":--1\r\n",
        b":9223372036854775808\r\n",
        b":-9223372036854775809\r\n",
        b":99999999999999999999999999\r\n",
        b":1_000\r\n",
    ] {
        assert_eq!(decode(bad), Err(DecodeError::MalformedNumber), "{:?}", bad);
    }
}

#[test]
fn integer_text_agrees_with_the_standard_library() {
    for v in [0i64, 1, -1, 9, 10, -10, 99, 100, 12345, -98765, i64::MAX, i64::MIN, i64::MIN + 1] {
        assert_eq!(format_i64(v), v.to_string().into_bytes());
        assert_eq!(parse_i64(v.to_string().as_bytes()), Some(v));
    }
    for text in ["", "+", "-", "12a", "a12", " 1", "1 ", "+-1", "00", "+0", "-0", "0000000000000000000001"] {
        assert_eq!(parse_i64(text.as_bytes()), text.parse::<i64>().ok(), "{:?}", text);
    }
}

#[test]
fn bulk_string_lengths() {
    assert_eq!(decode(b"$-1\r\n"), Ok(RespType::BulkString(None)));
    assert_eq!(decode(b"$0\r\n\r\n"), Ok(bulk("")));
    assert_eq!(decode(b"$-2\r\n"), Err(DecodeError::MalformedNumber));
    assert_eq!(decode(b"$x\r\n"), Err(DecodeError::MalformedNumber));
    assert_eq!(decode(b"$5\r\nhell"), Err(DecodeError::Truncated));
    assert_eq!(decode(b"$5\r\nhello"), Err(DecodeError::Truncated));
    assert_eq!(decode(b"$5\r\nhello\r"), Err(DecodeError::Truncated));
    assert_eq!(decode(b"$5\r\nhelloXY"), Err(DecodeError::BadTerminator));
    assert_eq!(decode(b"$5\r\nhello\n\r"), Err(DecodeError::BadTerminator));
    assert_eq!(decode(b"$9223372036854775807\r\nabc\r\n"), Err(DecodeError::Truncated));
    assert_eq!(decode(b"$3\r\na\r\nb\r\n"), Err(DecodeError::BadTerminator));
}

#[test]
fn bulk_errors() {
    assert_eq!(decode(b"!3\r\nERR\r\n"), Ok(RespType::BulkError("ERR".to_string())));
    assert_eq!(decode(b"!-1\r\n"), Err(DecodeError::MalformedNumber));
    assert_eq!(decode(b"!3\r\nER"), Err(DecodeError::Truncated));
    assert_eq!(decode(b"!3\r\nERRxx"), Err(DecodeError::BadTerminator));
}

#[test]
fn arrays() {
    assert_eq!(decode(b"*-1\r\n"), Ok(RespType::Array(None)));
    assert_eq!(decode(b"*0\r\n"), Ok(RespType::Array(Some(vec![]))));
    assert_eq!(decode(b"*-2\r\n"), Err(DecodeError::MalformedNumber));
    assert_eq!(decode(b"*two\r\n"), Err(DecodeError::MalformedNumber));
    assert_eq!(decode(b"*2\r\n:1\r\n"), Err(DecodeError::Truncated));
    assert_eq!(decode(b"*1000000000000\r\n"), Err(DecodeError::Truncated));
    assert_eq!(decode(b"*2\r\n:1\r\n?\r\n"), Err(DecodeError::Corrupt));
    assert_eq!(
        decode(b"*3\r\n:1\r\n+two\r\n*1\r\n#t\r\n"),
        Ok(RespType::Array(Some(vec![
            RespType::Integer(1),
            RespType::SimpleString("two".to_string()),
            RespType::Array(Some(vec![RespType::Boolean(true)])),
        ])))
    );
}

#[test]
fn nulls_and_booleans() {
    assert_eq!(decode(b"_\r\n"), Ok(RespType::Null));
    assert_eq!(decode(b"_x\r\n"), Err(DecodeError::Corrupt));
    assert_eq!(decode(b"#t\r\n"), Ok(RespType::Boolean(true)));
    assert_eq!(decode(b"#f\r\n"), Ok(RespType::Boolean(false)));
    for bad in [&b"#\r\n"[..], b"#T\r\n", b"#true\r\n", b"#1\r\n", b"#tf\r\n"] {
        assert_eq!(decode(bad), Err(DecodeError::MalformedNumber), "{:?}", bad);
    }
}

#[test]
fn doubles_are_kept_as_text() {
    assert_eq!(decode(b",1.23\r\n"), Ok(RespType::Double("1.23".to_string())));
    assert_eq!(decode(b",-1e10\r\n"), Ok(RespType::Double("-1e10".to_string())));
    assert_eq!(decode(b",inf\r\n"), Ok(RespType::Double("inf".to_string())));
    assert_eq!(decode(b",abc\r\n"), Err(DecodeError::MalformedNumber));
    assert_eq!(decode(b",\r\n"), Err(DecodeError::MalformedNumber));
}

#[test]
fn double_text_is_what_the_standard_library_reads() {
    let texts = [
        "0", "1", "-1", "+1", "1.", ".5", "1.5", "-.5", "+.5e3", "1e5", "1E5", "1e+5", "1e-5",
        "1.e5", ".1e5", "007.500", "inf", "-inf", "+inf", "INF", "Infinity", "-infinity",
        "iNfInItY", "nan", "NaN", "-nan", "+NAN", "123456789012345678901234567890",
        "1e999", "0.000000000000000000000000001",
        "", ".", "+", "-", "e5", ".e5", "1e", "1e+", "1e-", "1e5.0", "1..0", "1.0.0", "--1",
        "+-1", "1 ", " 1", "1_0", "0x10", "infinit", "infinityy", "in", "na", "nanx", "1f",
        "1e5e5", "1.5e", "e", "+e1", "1,5", "١", "1\n",
    ];
    for text in texts {
        assert_eq!(is_double(text.as_bytes()), text.parse::<f64>().is_ok(), "{:?}", text);
    }
}

#[test]
fn big_numbers() {
    let n = decode(b"(3492890328409238509324850943850943825024385\r\n").unwrap();
    assert_eq!(
        n.serialize(),
        b"(3492890328409238509324850943850943825024385\r\n".to_vec()
    );
    assert_eq!(decode(b"(-0\r\n"), Ok(RespType::BigNumber(BigNumber::from_i64(0))));
    assert_eq!(decode(b"(+12\r\n"), Ok(RespType::BigNumber(BigNumber::from_i64(12))));
    assert_eq!(decode(b"(-00012\r\n"), Ok(RespType::BigNumber(BigNumber::from_i64(-12))));
    assert_eq!(decode(b"(1_000\r\n"), Ok(RespType::BigNumber(BigNumber::from_i64(1000))));
    for bad in [
        &b"(\r\n"[..],
        b"(-\r\n",
        b"(+\r\n",
        b"(_1\r\n",
        b"(-_1\r\n",
        b"(-+1\r\n",
        b"(+-1\r\n",
        b"(++1\r\n",
        b"(--1\r\n",
        b"(12a\r\n",
        b"(1.5\r\n",
        b"( 1\r\n",
    ] {
        assert_eq!(decode(bad), Err(DecodeError::MalformedNumber), "{:?}", bad);
    }
}

#[test]
fn big_number_text_is_canonical() {
    assert_eq!(BigNumber::parse(b"0").unwrap().text(), b"0");
    assert_eq!(BigNumber::parse(b"-0").unwrap().text(), b"0");
    assert_eq!(BigNumber::parse(b"+0_0").unwrap().text(), b"0");
    assert_eq!(BigNumber::parse(b"000123").unwrap().text(), b"123");
    assert_eq!(BigNumber::parse(b"-1__2_").unwrap().text(), b"-12");
    assert_eq!(BigNumber::from_i64(i64::MIN).text(), b"-9223372036854775808");
    assert_eq!(BigNumber::from_i64(5), BigNumber::parse(b"5").unwrap());
    assert!(BigNumber::parse(b"").is_none());
    assert!(BigNumber::parse(b"\xFF").is_none());
    let big = "9".repeat(200);
    assert_eq!(BigNumber::parse(big.as_bytes()).unwrap().text(), big.as_bytes());
    let copy = BigNumber::parse(big.as_bytes()).unwrap().clone();
    assert_eq!(copy.text(), big.as_bytes());
}

#[test]
fn deeply_nested_array() {
    let depth = 200;
    let mut bytes = Vec::new();
    for _ in 0..depth {
        bytes.extend_from_slice(b"*1\r\n");
    }
    bytes.extend_from_slice(b":7\r\n");
    let mut message = decode(&bytes).unwrap();
    for _ in 0..depth {
        match message {
            RespType::Array(Some(mut items)) => {
                assert_eq!(items.len(), 1);
                message = items.pop().unwrap();
            }
            other => panic!("expected an array, found {:?}", other),
        }
    }
    assert_eq!(message, RespType::Integer(7));
}

#[test]
fn error_messages() {
    assert_eq!(DecodeError::Truncated.message(), "input ends before the value does");
    assert_eq!(DecodeError::UnsupportedValueType(3).message(), "unsupported value type");
    assert_eq!(DecodeError::InvalidUtf8.message(), "invalid UTF-8");
}
