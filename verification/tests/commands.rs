use rust_redis::commands::config_get;
use rust_redis::commands::config_subcommand;
use rust_redis::commands::dispatch;
use rust_redis::commands::echo;
use rust_redis::commands::execute_command;
use rust_redis::commands::execute_command_at;
use rust_redis::commands::execute_query_at;
use rust_redis::commands::get;
use rust_redis::commands::info;
use rust_redis::commands::keys;
use rust_redis::commands::read_expiry;
use rust_redis::commands::respond;
use rust_redis::commands::respond_at;
use rust_redis::commands::respond_query;
use rust_redis::commands::respond_query_at;
use rust_redis::config::Config;
use rust_redis::resp::RespType;
use rust_redis::storage::Store;

const MILLI: i128 = 1_000_000;
const SECOND: i128 = 1_000_000_000;

fn strings(items: &[&str]) -> Vec<String> {
    items.iter().map(|s| s.to_string()).collect()
}

fn bulk(text: &str) -> RespType {
    RespType::BulkString(Some(text.as_bytes().to_vec()))
}

fn request(items: &[&str]) -> RespType {
    RespType::Array(Some(items.iter().map(|s| bulk(s)).collect()))
}

fn simple(text: &str) -> RespType {
    RespType::SimpleString(text.to_string())
}

#[test]
fn echo_replies_with_its_argument() {
    assert_eq!(echo(strings(&["hello"])), Ok(simple("hello")));
    assert_eq!(echo(strings(&["a", "b"])), Ok(simple("a")));
    assert_eq!(
        echo(vec![]),
        Err("wrong number of arguments for 'echo' command".to_string())
    );
}

#[test]
fn set_then_get() {
    let mut store = Store::new();
    assert_eq!(rust_redis::commands::set(&mut store, strings(&["k", "v"]), 0), Ok(simple("OK")));
    assert_eq!(get(&store, strings(&["k"]), 1), Ok(simple("v")));
    assert_eq!(get(&store, strings(&["absent"]), 1), Ok(RespType::BulkString(None)));
    assert_eq!(
        get(&store, vec![], 1),
        Err("wrong number of arguments for 'get' command".to_string())
    );
    assert_eq!(
        rust_redis::commands::set(&mut store, strings(&["k"]), 0),
        Err("wrong number of arguments for 'set' command".to_string())
    );
    assert_eq!(store.len(), 1);
}

#[test]
fn set_with_expiry_in_milliseconds() {
    let mut store = Store::new();
    let now = 1_000 * SECOND;
    assert_eq!(rust_redis::commands::set(&mut store, strings(&["k", "v", "px", "100"]), now), Ok(simple("OK")));
    assert_eq!(get(&store, strings(&["k"]), now + 100 * MILLI - 1), Ok(simple("v")));
    assert_eq!(get(&store, strings(&["k"]), now + 100 * MILLI), Ok(RespType::BulkString(None)));
}

#[test]
fn set_with_expiry_in_seconds() {
    let mut store = Store::new();
    let now = 1_000 * SECOND;
    assert_eq!(rust_redis::commands::set(&mut store, strings(&["k", "v", "EX", "2"]), now), Ok(simple("OK")));
    assert_eq!(get(&store, strings(&["k"]), now + 2 * SECOND - 1), Ok(simple("v")));
    assert_eq!(get(&store, strings(&["k"]), now + 2 * SECOND), Ok(RespType::BulkString(None)));
}

#[test]
fn set_with_other_arguments_has_no_expiry() {
    let mut store = Store::new();
    assert_eq!(rust_redis::commands::set(&mut store, strings(&["a", "v", "NX", "100"]), 0), Ok(simple("OK")));
    assert_eq!(rust_redis::commands::set(&mut store, strings(&["b", "v", "PX"]), 0), Ok(simple("OK")));
    assert_eq!(rust_redis::commands::set(&mut store, strings(&["c", "v", "PX", "1", "more"]), 0), Ok(simple("OK")));
    for key in ["a", "b", "c"] {
        assert_eq!(get(&store, strings(&[key]), i128::MAX), Ok(simple("v")));
    }
}

#[test]
fn set_with_an_expiry_that_is_no_number_changes_nothing() {
    let mut store = Store::new();
    assert_eq!(
        rust_redis::commands::set(&mut store, strings(&["k", "v", "PX", "soon"]), 0),
        Err("value is not an integer or out of range".to_string())
    );
    assert_eq!(
        rust_redis::commands::set(&mut store, strings(&["k", "v", "EX", "9223372036854775808"]), 0),
        Err("value is not an integer or out of range".to_string())
    );
    assert_eq!(
        rust_redis::commands::set(&mut store, strings(&["k", "v", "EX", "1"]), i128::MAX),
        Err("invalid expire time in 'set' command".to_string())
    );
    assert_eq!(store.len(), 0);
}

#[test]
fn set_with_a_negative_expiry_is_gone_at_once() {
    let mut store = Store::new();
    assert_eq!(rust_redis::commands::set(&mut store, strings(&["k", "v", "PX", "-1"]), 10 * MILLI), Ok(simple("OK")));
    assert_eq!(get(&store, strings(&["k"]), 10 * MILLI), Ok(RespType::BulkString(None)));
    assert_eq!(get(&store, strings(&["k"]), 9 * MILLI - 1), Ok(simple("v")));
}

#[test]
fn keys_lists_matching_keys() {
    let mut store = Store::new();
    for key in ["user:1", "user:2", "order:1"] {
        store.set_at(key, "v", None, 0);
    }
    assert_eq!(
        keys(&store, strings(&["user:*"]), 1),
        Ok(RespType::Array(Some(vec![simple("user:1"), simple("user:2")])))
    );
    assert_eq!(
        keys(&store, strings(&["*"]), 1),
        Ok(RespType::Array(Some(vec![simple("user:1"), simple("user:2"), simple("order:1")])))
    );
    assert_eq!(keys(&store, strings(&["zzz"]), 1), Ok(RespType::Array(Some(vec![]))));
    assert_eq!(
        keys(&store, vec![], 1),
        Ok(RespType::SimpleError("wrong number of arguments for 'keys' command".to_string()))
    );
    assert_eq!(
        keys(&store, strings(&["a", "b"]), 1),
        Ok(RespType::SimpleError("wrong number of arguments for 'keys' command".to_string()))
    );
    assert_eq!(keys(&store, strings(&["["]), 1), Ok(RespType::Array(Some(vec![]))));
    assert_eq!(
        keys(&store, strings(&["*:1"]), 1),
        Ok(RespType::Array(Some(vec![simple("user:1"), simple("order:1")])))
    );
    assert_eq!(
        keys(&store, strings(&["user:"]), 1),
        Ok(RespType::Array(Some(vec![])))
    );
}

#[test]
fn config_get_replies_with_name_and_value() {
    let mut config = Config::new();
    config.set("dir", "/tmp/redis");
    config.set("dbfilename", "dump.rdb");
    assert_eq!(
        config_get(&config, strings(&["GET", "dir"])),
        Ok(RespType::Array(Some(vec![bulk("dir"), bulk("/tmp/redis")])))
    );
    assert_eq!(
        config_get(&config, strings(&["GET", "port"])),
        Ok(RespType::Array(Some(vec![])))
    );
    assert_eq!(
        config_get(&config, strings(&["GET"])),
        Err("wrong number of arguments for 'config|get' command".to_string())
    );
}

#[test]
fn config_keeps_the_last_value() {
    let mut config = Config::new();
    assert_eq!(config.get("port"), None);
    config.set("port", "6379");
    config.set("dir", "/data");
    config.set("port", "6380");
    assert_eq!(config.get("port"), Some("6380".to_string()));
    assert_eq!(config.get("dir"), Some("/data".to_string()));
    assert_eq!(config.get("Port"), None);
}

#[test]
fn info_tells_the_role() {
    let mut config = Config::new();
    assert_eq!(info(&config), Ok(simple("role: master")));
    config.set("replicaof", "localhost 6379");
    assert_eq!(info(&config), Ok(simple("role: slave")));
}

#[test]
fn commands_are_found_in_any_case() {
    let mut store = Store::new();
    let config = Config::new();
    assert_eq!(
        execute_command_at(request(&["ping"]), &mut store, &config, 0),
        Ok(simple("PONG"))
    );
    assert_eq!(
        execute_command_at(request(&["PiNg"]), &mut store, &config, 0),
        Ok(simple("PONG"))
    );
    assert_eq!(
        execute_command_at(request(&["echo", "hey"]), &mut store, &config, 0),
        Ok(simple("hey"))
    );
    assert_eq!(
        execute_command_at(request(&["Set", "k", "v"]), &mut store, &config, 0),
        Ok(simple("OK"))
    );
    assert_eq!(
        execute_command_at(request(&["get", "k"]), &mut store, &config, 0),
        Ok(simple("v"))
    );
    assert_eq!(
        execute_command_at(request(&["keys", "*"]), &mut store, &config, 0),
        Ok(RespType::Array(Some(vec![simple("k")])))
    );
    assert_eq!(
        execute_command_at(request(&["info"]), &mut store, &config, 0),
        Ok(simple("role: master"))
    );
}

#[test]
fn config_command() {
    let mut store = Store::new();
    let mut config = Config::new();
    config.set("dir", "/data");
    assert_eq!(
        execute_command_at(request(&["CONFIG", "get", "dir"]), &mut store, &config, 0),
        Ok(RespType::Array(Some(vec![bulk("dir"), bulk("/data")])))
    );
    assert_eq!(
        execute_command_at(request(&["CONFIG", "SET", "dir", "/x"]), &mut store, &config, 0),
        Err("Unknown config command: SET".to_string())
    );
    assert_eq!(
        execute_command_at(request(&["CONFIG"]), &mut store, &config, 0),
        Err("wrong number of arguments for 'config' command".to_string())
    );
}

#[test]
fn requests_that_cannot_be_served() {
    let mut store = Store::new();
    let config = Config::new();
    assert_eq!(
        execute_command_at(request(&["flushall"]), &mut store, &config, 0),
        Err("Unknown command: FLUSHALL".to_string())
    );
    assert_eq!(
        execute_command_at(request(&["save"]), &mut store, &config, 0),
        Err("snapshot writing is not supported".to_string())
    );
    assert_eq!(
        execute_command_at(RespType::Array(Some(vec![])), &mut store, &config, 0),
        Err("Invalid command format".to_string())
    );
    assert_eq!(
        execute_command_at(
            RespType::Array(Some(vec![RespType::Integer(1)])),
            &mut store,
            &config,
            0
        ),
        Err("Invalid command format".to_string())
    );
    assert_eq!(
        execute_command_at(
            RespType::Array(Some(vec![RespType::BulkString(None)])),
            &mut store,
            &config,
            0
        ),
        Err("Invalid command format".to_string())
    );
    assert_eq!(
        execute_command_at(
            RespType::Array(Some(vec![RespType::BulkString(Some(vec![0xFF]))])),
            &mut store,
            &config,
            0
        ),
        Err("Invalid UTF-8 in bulk string".to_string())
    );
    assert_eq!(
        execute_command_at(
            RespType::Array(Some(vec![bulk("ECHO"), RespType::BulkString(Some(vec![0xC3]))])),
            &mut store,
            &config,
            0
        ),
        Err("Invalid UTF-8 in bulk string".to_string())
    );
    assert_eq!(
        execute_command_at(simple("PING"), &mut store, &config, 0),
        Err("Invalid command".to_string())
    );
    assert_eq!(
        execute_command_at(RespType::Array(None), &mut store, &config, 0),
        Err("Invalid command".to_string())
    );
    assert_eq!(store.len(), 0);
}

#[test]
fn arguments_that_are_no_bulk_strings_are_passed_over() {
    let mut store = Store::new();
    let config = Config::new();
    let resp = RespType::Array(Some(vec![
        bulk("ECHO"),
        RespType::Integer(5),
        RespType::BulkString(None),
        bulk("text"),
    ]));
    assert_eq!(execute_command_at(resp, &mut store, &config, 0), Ok(simple("text")));
}

#[test]
fn upper_case_is_that_of_the_standard_library() {
    let mut store = Store::new();
    let config = Config::new();
    assert_eq!(
        execute_command_at(request(&["\u{17F}et", "k", "v"]), &mut store, &config, 0),
        Ok(simple("OK"))
    );
    assert_eq!(store.get_at("k", 0), Some("v".to_string()));
}

#[test]
fn respond_answers_in_bytes() {
    let mut store = Store::new();
    let config = Config::new();
    assert_eq!(respond_at(&mut store, &config, b"*1\r\n$4\r\nPING\r\n", 0), b"+PONG\r\n");
    assert_eq!(
        respond_at(&mut store, &config, b"*3\r\n$3\r\nSET\r\n$3\r\nfoo\r\n$3\r\nbar\r\n", 0),
        b"+OK\r\n"
    );
    assert_eq!(respond_at(&mut store, &config, b"*2\r\n$3\r\nGET\r\n$3\r\nfoo\r\n", 1), b"+bar\r\n");
    assert_eq!(respond_at(&mut store, &config, b"*2\r\n$3\r\nGET\r\n$3\r\nbaz\r\n", 1), b"$-1\r\n");
    assert_eq!(
        respond_at(&mut store, &config, b"*2\r\n$4\r\nKEYS\r\n$1\r\n*\r\n", 1),
        b"*1\r\n+foo\r\n"
    );
    assert_eq!(
        respond_at(&mut store, &config, b"*1\r\n$5\r\nHELLO\r\n", 1),
        b"-Unknown command: HELLO\r\n"
    );
    assert_eq!(respond_at(&mut store, &config, b"*1\r\n$4\r\nPIN", 1), b"-input ends before the value does\r\n");
    assert_eq!(respond_at(&mut store, &config, b"?\r\n", 1), b"-corrupt input\r\n");
    assert_eq!(respond_at(&mut store, &config, b"", 1), b"-input ends before the value does\r\n");
    assert_eq!(respond_at(&mut store, &config, b"+PING\r\n", 1), b"-Invalid command\r\n");
}

#[test]
fn a_failed_request_keeps_the_session_usable() {
    let mut store = Store::new();
    let config = Config::new();
    assert_eq!(respond(&mut store, &config, b"garbage"), b"-corrupt input\r\n");
    assert_eq!(respond(&mut store, &config, b"*1\r\n$4\r\nPING\r\n"), b"+PONG\r\n");
    assert_eq!(
        respond(&mut store, &config, b"*3\r\n$3\r\nSET\r\n$1\r\nk\r\n$1\r\nv\r\n"),
        b"+OK\r\n"
    );
    assert_eq!(
        execute_command(request(&["GET", "k"]), &mut store, &config),
        Ok(simple("v"))
    );
    assert_eq!(
        respond(&mut store, &config, b"*5\r\n$3\r\nSET\r\n$1\r\nt\r\n$1\r\nv\r\n$2\r\nPX\r\n$2\r\n-5\r\n"),
        b"+OK\r\n"
    );
    assert_eq!(respond(&mut store, &config, b"*2\r\n$3\r\nGET\r\n$1\r\nt\r\n"), b"$-1\r\n");
}

#[test]
fn queries_are_served_from_a_store_that_is_only_read() {
    let mut store = Store::new();
    let mut config = Config::new();
    config.set("dir", "/data");
    store.set_at("k", "v", Some(100), 0);
    assert_eq!(
        execute_query_at(&request(&["GET", "k"]), &store, &config, 99),
        Some(Ok(simple("v")))
    );
    assert_eq!(
        execute_query_at(&request(&["get", "k"]), &store, &config, 100),
        Some(Ok(RespType::BulkString(None)))
    );
    assert_eq!(
        execute_query_at(&request(&["KEYS", "*"]), &store, &config, 1),
        Some(Ok(RespType::Array(Some(vec![simple("k")]))))
    );
    assert_eq!(
        execute_query_at(&request(&["echo", "x"]), &store, &config, 1),
        Some(Ok(simple("x")))
    );
    assert_eq!(execute_query_at(&request(&["PING"]), &store, &config, 1), Some(Ok(simple("PONG"))));
    assert_eq!(
        execute_query_at(&request(&["INFO"]), &store, &config, 1),
        Some(Ok(simple("role: master")))
    );
    assert_eq!(
        execute_query_at(&request(&["CONFIG", "GET", "dir"]), &store, &config, 1),
        Some(Ok(RespType::Array(Some(vec![bulk("dir"), bulk("/data")]))))
    );
    assert_eq!(
        execute_query_at(&request(&["NOPE"]), &store, &config, 1),
        Some(Err("Unknown command: NOPE".to_string()))
    );
    assert_eq!(
        execute_query_at(&RespType::Array(Some(vec![])), &store, &config, 1),
        Some(Err("Invalid command format".to_string()))
    );
    assert_eq!(
        execute_query_at(&RespType::Null, &store, &config, 1),
        Some(Err("Invalid command".to_string()))
    );
}

#[test]
fn writes_are_not_served_as_queries() {
    let store = Store::new();
    let config = Config::new();
    assert_eq!(execute_query_at(&request(&["SET", "k", "v"]), &store, &config, 0), None);
    assert_eq!(execute_query_at(&request(&["set", "k", "v"]), &store, &config, 0), None);
    assert_eq!(execute_query_at(&request(&["Set"]), &store, &config, 0), None);
    assert_eq!(
        respond_query_at(&store, &config, b"*3\r\n$3\r\nSET\r\n$1\r\nk\r\n$1\r\nv\r\n", 0),
        None
    );
    assert_eq!(respond_query(&store, &config, b"*1\r\n$3\r\nset\r\n"), None);
    assert_eq!(store.len(), 0);
}

#[test]
fn respond_query_answers_as_respond_does() {
    let mut store = Store::new();
    let config = Config::new();
    store.set_at("foo", "bar", None, 0);
    let requests: Vec<&[u8]> = vec![
        b"*1\r\n$4\r\nPING\r\n",
        b"*2\r\n$3\r\nGET\r\n$3\r\nfoo\r\n",
        b"*2\r\n$3\r\nGET\r\n$3\r\nbaz\r\n",
        b"*2\r\n$4\r\nKEYS\r\n$1\r\n*\r\n",
        b"*2\r\n$4\r\nKEYS\r\n$1\r\n[\r\n",
        b"*1\r\n$5\r\nHELLO\r\n",
        b"*1\r\n$4\r\nPIN",
        b"?\r\n",
        b"",
        b"+PING\r\n",
        b"*0\r\n",
    ];
    for bytes in requests {
        let shared = respond_query_at(&store, &config, bytes, 5);
        let exclusive = respond_at(&mut store, &config, bytes, 5);
        assert_eq!(shared, Some(exclusive), "{:?}", bytes);
    }
    assert_eq!(store.len(), 1);
    assert_eq!(respond_query(&store, &config, b"*1\r\n$4\r\nping\r\n"), Some(b"+PONG\r\n".to_vec()));
}

#[test]
fn a_request_that_is_no_array_is_an_error() {
    let mut store = Store::new();
    let config = Config::new();
    let requests = vec![
        simple("PING"),
        bulk("PING"),
        RespType::BulkString(None),
        RespType::Integer(1),
        RespType::Null,
        RespType::Boolean(true),
        RespType::Array(None),
        RespType::SimpleError("x".to_string()),
    ];
    for resp in requests {
        assert_eq!(
            execute_command_at(resp, &mut store, &config, 0),
            Err("Invalid command".to_string())
        );
    }
    for bytes in [&b"+PING\r\n"[..], b"$4\r\nPING\r\n", b":1\r\n", b"_\r\n", b"*-1\r\n"] {
        assert_eq!(respond_at(&mut store, &config, bytes, 0), b"-Invalid command\r\n");
        assert_eq!(
            respond_query_at(&store, &config, bytes, 0),
            Some(b"-Invalid command\r\n".to_vec())
        );
    }
    assert_eq!(respond_at(&mut store, &config, b"*0\r\n", 0), b"-Invalid command format\r\n");
    assert_eq!(store.len(), 0);
}

#[test]
fn dispatch_takes_the_name_in_upper_case() {
    let mut store = Store::new();
    let mut config = Config::new();
    config.set("dir", "/data");
    let name = |text: &str| text.to_string();
    assert_eq!(dispatch(&name("PING"), vec![], &mut store, &config, 0), Ok(simple("PONG")));
    assert_eq!(
        dispatch(&name("ping"), vec![], &mut store, &config, 0),
        Err("Unknown command: ping".to_string())
    );
    assert_eq!(
        dispatch(&name("SET"), strings(&["k", "v", "ex", "1"]), &mut store, &config, 0),
        Ok(simple("OK"))
    );
    assert_eq!(
        dispatch(&name("GET"), strings(&["k"]), &mut store, &config, SECOND - 1),
        Ok(simple("v"))
    );
    assert_eq!(
        dispatch(&name("GET"), strings(&["k"]), &mut store, &config, SECOND),
        Ok(RespType::BulkString(None))
    );
    assert_eq!(
        dispatch(&name("ECHO"), strings(&["a"]), &mut store, &config, 0),
        Ok(simple("a"))
    );
    assert_eq!(
        dispatch(&name("KEYS"), strings(&["*"]), &mut store, &config, 0),
        Ok(RespType::Array(Some(vec![simple("k")])))
    );
    assert_eq!(
        dispatch(&name("CONFIG"), strings(&["get", "dir"]), &mut store, &config, 0),
        Ok(RespType::Array(Some(vec![bulk("dir"), bulk("/data")])))
    );
    assert_eq!(
        dispatch(&name("INFO"), vec![], &mut store, &config, 0),
        Ok(simple("role: master"))
    );
    assert_eq!(
        dispatch(&name("SAVE"), vec![], &mut store, &config, 0),
        Err("snapshot writing is not supported".to_string())
    );
    assert_eq!(
        dispatch(&name(""), vec![], &mut store, &config, 0),
        Err("Unknown command: ".to_string())
    );
}

#[test]
fn expiry_options_in_upper_case() {
    assert_eq!(read_expiry("PX", "1500", 10), Ok(Some(10 + 1500 * MILLI)));
    assert_eq!(read_expiry("EX", "2", 10), Ok(Some(10 + 2 * SECOND)));
    assert_eq!(read_expiry("EX", "-2", 10), Ok(Some(10 - 2 * SECOND)));
    assert_eq!(read_expiry("px", "1500", 10), Ok(None));
    assert_eq!(read_expiry("KEEPTTL", "x", 10), Ok(None));
    assert_eq!(
        read_expiry("PX", "x", 10),
        Err("value is not an integer or out of range".to_string())
    );
    assert_eq!(
        read_expiry("EX", "9223372036854775807", i128::MAX - 1),
        Err("invalid expire time in 'set' command".to_string())
    );
    assert_eq!(
        read_expiry("PX", "9223372036854775807", 0),
        Ok(Some(9223372036854775807i128 * MILLI))
    );
}

#[test]
fn config_subcommands_in_upper_case() {
    let mut config = Config::new();
    config.set("dir", "/data");
    assert_eq!(
        config_subcommand(&config, "GET", strings(&["get", "dir"])),
        Ok(RespType::Array(Some(vec![bulk("dir"), bulk("/data")])))
    );
    assert_eq!(
        config_subcommand(&config, "get", strings(&["get", "dir"])),
        Err("Unknown config command: get".to_string())
    );
    assert_eq!(
        config_subcommand(&config, "SET", strings(&["Set", "dir", "/x"])),
        Err("Unknown config command: Set".to_string())
    );
    assert_eq!(
        config_subcommand(&config, "GET", vec![]),
        Err("wrong number of arguments for 'config' command".to_string())
    );
    assert_eq!(
        config_subcommand(&config, "GET", strings(&["GET"])),
        Err("wrong number of arguments for 'config|get' command".to_string())
    );
}
