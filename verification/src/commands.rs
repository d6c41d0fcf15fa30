//! The commands: what each one does to the store and what it replies.
//!
//! A request is an array of bulk strings: the name of a command, in
//! whatever case, and its arguments. A request that cannot be served is
//! answered with an error text, and changes nothing.

use vstd::prelude::*;
use vstd::slice::slice_to_vec;
use vstd::string::StringExecFns;
use vstd::utf8::decode_utf8;
use vstd::utf8::encode_utf8;
use vstd::utf8::valid_utf8;
use crate::clock::now_unix_nanos;
use crate::config::Config;
use crate::decimal::decimal_i64;
use crate::decimal::parse_i64;
use crate::pattern::pattern_regex;
use crate::pattern::regex_compiles;
use crate::resp::decode;
use crate::resp::lemma_messages_index;
use crate::resp::lemma_messages_push;
use crate::resp::messages;
use crate::resp::spec_decode;
use crate::resp::spec_encode;
use crate::resp::Message;
use crate::resp::RespType;
use crate::storage::spec_get;
use crate::storage::spec_keys;
use crate::storage::spec_set;
use crate::storage::ItemModel;
use crate::storage::Store;
use crate::storage::NANOS_PER_MILLI;
use crate::text::same_text;
use crate::text::spec_lookup;
use crate::text::string_from_utf8;
use crate::text::texts;

verus! {

/// How many nanoseconds make a second.
pub const NANOS_PER_SECOND: i128 = 1_000_000_000;

/// The upper-case form of `text`: what `str::to_uppercase` returns.
pub uninterp spec fn uppercase(text: Seq<char>) -> Seq<char>;

/// Calls `str::to_uppercase`. Trusted: the result is a function of the
/// text alone.
#[verifier::external_body]
fn to_uppercase(text: &str) -> (upper: String)
    ensures
        upper@ == uppercase(text@),
{
    text.to_uppercase()
}

/// What a command gives back: a reply, or the text of an error.
pub type Reply = Result<Message, Seq<char>>;

/// `r` is the reply `expected`.
pub open spec fn is_reply(r: Result<RespType, String>, expected: Reply) -> bool {
    match expected {
        Ok(m) => r is Ok && r->Ok_0@ == m,
        Err(e) => r is Err && r->Err_0@ == e,
    }
}

/// The error of a command that got too few or too many arguments.
pub open spec fn wrong_arity(command: Seq<char>) -> Seq<char> {
    "wrong number of arguments for '"@ + command + "' command"@
}

/// The error of a command that got too few or too many arguments.
fn wrong_arity_text(command: &str) -> (text: String)
    ensures
        text@ == wrong_arity(command@),
{
    let mut text = "wrong number of arguments for '".to_owned();
    text.append(command);
    text.append("' command");
    text
}

/// The reply to `ECHO`: its first argument.
pub open spec fn echo_reply(args: Seq<Seq<char>>) -> Reply {
    if args.len() >= 1 {
        Ok(Message::SimpleString(args[0]))
    } else {
        Err(wrong_arity("echo"@))
    }
}

/// Replies with its first argument.
pub fn echo(args: Vec<String>) -> (r: Result<RespType, String>)
    ensures
        is_reply(r, echo_reply(texts(args@))),
{
    if args.len() >= 1 {
        Ok(RespType::SimpleString(args[0].clone()))
    } else {
        Err(wrong_arity_text("echo"))
    }
}

/// The instant that lies `count` units of `unit` nanoseconds after `now`,
/// where it can be told in 128 bits.
pub open spec fn deadline_after(now: i128, count: i64, unit: i128) -> Option<i128> {
    if i128::MIN <= now + count * unit <= i128::MAX {
        Some((now + count * unit) as i128)
    } else {
        None
    }
}

/// The expiry that an option of `SET`, given in upper case, asks for at the
/// instant `now`: under `PX` or `EX`, the instant as many milliseconds or
/// seconds after `now` as `count` says; under any other option, none.
pub open spec fn expiry_of(option: Seq<char>, count: Seq<char>, now: i128) -> Result<
    Option<i128>,
    Seq<char>,
> {
    if option == "PX"@ || option == "EX"@ {
        let unit = if option == "PX"@ {
            NANOS_PER_MILLI
        } else {
            NANOS_PER_SECOND
        };
        match decimal_i64(encode_utf8(count)) {
            Some(units) => match deadline_after(now, units, unit) {
                Some(deadline) => Ok(Some(deadline)),
                None => Err("invalid expire time in 'set' command"@),
            },
            None => Err("value is not an integer or out of range"@),
        }
    } else {
        Ok(None)
    }
}

/// The expiry that the arguments of `SET` ask for at the instant `now`:
/// with four arguments, what the third, in whatever case, asks for as an
/// option with the fourth as its count; with any other arguments, none.
pub open spec fn set_expiry(args: Seq<Seq<char>>, now: i128) -> Result<Option<i128>, Seq<char>> {
    if args.len() == 4 {
        expiry_of(uppercase(args[2]), args[3], now)
    } else {
        Ok(None)
    }
}

/// What `SET` replies at the instant `now`, and what it leaves in the
/// store: the value of the second argument under the key of the first.
pub open spec fn set_effect(args: Seq<Seq<char>>, store: Seq<ItemModel>, now: i128) -> (
    Reply,
    Seq<ItemModel>,
) {
    if args.len() < 2 {
        (Err(wrong_arity("set"@)), store)
    } else {
        match set_expiry(args, now) {
            Ok(expires) => (
                Ok(Message::SimpleString("OK"@)),
                spec_set(store, args[0], args[1], expires, now),
            ),
            Err(e) => (Err(e), store),
        }
    }
}

/// The instant `count` units after `now`.
fn deadline(now: i128, count: i64, unit: i128) -> (r: Option<i128>)
    requires
        unit == NANOS_PER_MILLI || unit == NANOS_PER_SECOND,
    ensures
        r == deadline_after(now, count, unit),
{
    let span: i128 = count as i128 * unit;
    now.checked_add(span)
}

/// Reads the expiry that an option of `SET`, given in upper case, asks for
/// at the instant `now`, with `count` as its count.
pub fn read_expiry(option: &str, count: &str, now: i128) -> (r: Result<Option<i128>, String>)
    ensures
        match expiry_of(option@, count@, now) {
            Ok(expires) => r == Ok::<Option<i128>, String>(expires),
            Err(e) => r is Err && r->Err_0@ == e,
        },
{
    let unit: i128 = if same_text(option, "PX") {
        NANOS_PER_MILLI
    } else if same_text(option, "EX") {
        NANOS_PER_SECOND
    } else {
        return Ok(None);
    };
    match parse_i64(count.as_bytes()) {
        Some(units) => match deadline(now, units, unit) {
            Some(instant) => Ok(Some(instant)),
            None => Err("invalid expire time in 'set' command".to_owned()),
        },
        None => Err("value is not an integer or out of range".to_owned()),
    }
}

/// Reads the expiry that the arguments of `SET` ask for.
fn read_set_expiry(args: &Vec<String>, now: i128) -> (r: Result<Option<i128>, String>)
    ensures
        match set_expiry(texts(args@), now) {
            Ok(expires) => r == Ok::<Option<i128>, String>(expires),
            Err(e) => r is Err && r->Err_0@ == e,
        },
{
    if args.len() != 4 {
        return Ok(None);
    }
    let option = to_uppercase(args[2].as_str());
    read_expiry(option.as_str(), args[3].as_str(), now)
}

/// Writes the value of the second argument under the key of the first, at
/// the instant `now`.
pub fn set(store: &mut Store, args: Vec<String>, now: i128) -> (r: Result<RespType, String>)
    ensures
        is_reply(r, set_effect(texts(args@), old(store)@, now).0),
        final(store)@ == set_effect(texts(args@), old(store)@, now).1,
{
    if args.len() < 2 {
        return Err(wrong_arity_text("set"));
    }
    match read_set_expiry(&args, now) {
        Ok(expires) => {
            store.set_at(args[0].as_str(), args[1].as_str(), expires, now);
            Ok(RespType::SimpleString("OK".to_owned()))
        },
        Err(e) => Err(e),
    }
}

/// The reply to `GET` at the instant `now`: what a reader finds under the
/// key of the first argument, or the null bulk string.
pub open spec fn get_reply(args: Seq<Seq<char>>, store: Seq<ItemModel>, now: i128) -> Reply {
    if args.len() < 1 {
        Err(wrong_arity("get"@))
    } else {
        match spec_get(store, args[0], now) {
            Some(value) => Ok(Message::SimpleString(value)),
            None => Ok(Message::BulkString(None)),
        }
    }
}

/// Replies with what a reader finds under the key of the first argument at
/// the instant `now`.
pub fn get(store: &Store, args: Vec<String>, now: i128) -> (r: Result<RespType, String>)
    ensures
        is_reply(r, get_reply(texts(args@), store@, now)),
{
    if args.len() < 1 {
        return Err(wrong_arity_text("get"));
    }
    match store.get_at(args[0].as_str(), now) {
        Some(value) => Ok(RespType::SimpleString(value)),
        None => Ok(RespType::BulkString(None)),
    }
}

/// Each text as a simple string.
pub open spec fn simple_strings(keys: Seq<Seq<char>>) -> Seq<Message> {
    keys.map_values(|key: Seq<char>| Message::SimpleString(key))
}

/// The reply to `KEYS` at the instant `now`: the keys that the pattern of
/// its one argument matches, and an error where the `regex` crate refuses
/// the expression of the pattern.
pub open spec fn keys_reply(args: Seq<Seq<char>>, store: Seq<ItemModel>, now: i128) -> Reply {
    if args.len() != 1 {
        Ok(Message::SimpleError(wrong_arity("keys"@)))
    } else if !regex_compiles(pattern_regex(args[0])) {
        Err("invalid pattern"@)
    } else {
        Ok(Message::Array(Some(simple_strings(spec_keys(store, pattern_regex(args[0]), now)))))
    }
}

/// Replies with the keys that the pattern of its one argument matches at
/// the instant `now`.
pub fn keys(store: &Store, args: Vec<String>, now: i128) -> (r: Result<RespType, String>)
    ensures
        is_reply(r, keys_reply(texts(args@), store@, now)),
{
    if args.len() != 1 {
        return Ok(RespType::SimpleError(wrong_arity_text("keys")));
    }
    match store.keys_at(args[0].as_str(), now) {
        Some(found) => {
            let mut values: Vec<RespType> = Vec::new();
            let mut i: usize = 0;
            assert(messages(values@) =~= simple_strings(texts(found@)).subrange(0, 0));
            while i < found.len()
                invariant
                    i <= found.len(),
                    messages(values@) == simple_strings(texts(found@)).subrange(0, i as int),
                decreases found.len() - i,
            {
                let value = RespType::SimpleString(found[i].clone());
                proof {
                    lemma_messages_push(values@, value);
                }
                values.push(value);
                i += 1;
                assert(messages(values@) =~= simple_strings(texts(found@)).subrange(
                    0,
                    i as int,
                ));
            }
            assert(messages(values@) =~= simple_strings(texts(found@)));
            Ok(RespType::Array(Some(values)))
        },
        None => Err("invalid pattern".to_owned()),
    }
}

/// The reply to `CONFIG GET`: the name of the second argument and its
/// value, or nothing where it has none.
pub open spec fn config_get_reply(
    args: Seq<Seq<char>>,
    config: Seq<(Seq<char>, Seq<char>)>,
) -> Reply {
    if args.len() < 2 {
        Err(wrong_arity("config|get"@))
    } else {
        match spec_lookup(config, args[1]) {
            Some(value) => Ok(
                Message::Array(
                    Some(
                        seq![
                            Message::BulkString(Some(encode_utf8(args[1]))),
                            Message::BulkString(Some(encode_utf8(value))),
                        ],
                    ),
                ),
            ),
            None => Ok(Message::Array(Some(Seq::empty()))),
        }
    }
}

/// `text` as a bulk string.
fn bulk_string(text: &String) -> (r: RespType)
    ensures
        r@ == Message::BulkString(Some(encode_utf8(text@))),
{
    RespType::BulkString(Some(slice_to_vec(text.as_str().as_bytes())))
}

/// Replies with the name of the second argument and its value.
pub fn config_get(config: &Config, args: Vec<String>) -> (r: Result<RespType, String>)
    ensures
        is_reply(r, config_get_reply(texts(args@), config@)),
{
    if args.len() < 2 {
        return Err(wrong_arity_text("config|get"));
    }
    let mut values: Vec<RespType> = Vec::new();
    assert(messages(values@) =~= Seq::empty());
    match config.get(args[1].as_str()) {
        Some(value) => {
            let name = bulk_string(&args[1]);
            let held = bulk_string(&value);
            proof {
                lemma_messages_push(values@, name);
                lemma_messages_push(values@.push(name), held);
            }
            values.push(name);
            values.push(held);
            assert(messages(values@) =~= seq![name@, held@]);
        },
        None => {},
    }
    Ok(RespType::Array(Some(values)))
}

/// The reply to `INFO`: the role, which is `slave` where `replicaof` is set
/// and `master` where it is not.
pub open spec fn info_reply(config: Seq<(Seq<char>, Seq<char>)>) -> Reply {
    if spec_lookup(config, "replicaof"@) is Some {
        Ok(Message::SimpleString("role: slave"@))
    } else {
        Ok(Message::SimpleString("role: master"@))
    }
}

/// Replies with the role.
pub fn info(config: &Config) -> (r: Result<RespType, String>)
    ensures
        is_reply(r, info_reply(config@)),
{
    match config.get("replicaof") {
        Some(_) => Ok(RespType::SimpleString("role: slave".to_owned())),
        None => Ok(RespType::SimpleString("role: master".to_owned())),
    }
}

/// The reply to `CONFIG` under the subcommand `sub`, given in upper case:
/// that of `CONFIG GET` under `GET`, and else an error that names the first
/// argument.
pub open spec fn config_sub_reply(
    sub: Seq<char>,
    args: Seq<Seq<char>>,
    config: Seq<(Seq<char>, Seq<char>)>,
) -> Reply {
    if args.len() < 1 {
        Err(wrong_arity("config"@))
    } else if sub == "GET"@ {
        config_get_reply(args, config)
    } else {
        Err("Unknown config command: "@ + args[0])
    }
}

/// The reply to `CONFIG`: what it replies under its first argument, in
/// whatever case, as the subcommand.
pub open spec fn config_reply(args: Seq<Seq<char>>, config: Seq<(Seq<char>, Seq<char>)>) -> Reply {
    if args.len() < 1 {
        Err(wrong_arity("config"@))
    } else {
        config_sub_reply(uppercase(args[0]), args, config)
    }
}

/// The arguments among `items`: the text of each bulk string, in order.
/// Items of other kinds are passed over; a bulk string that is not text is
/// an error.
pub open spec fn arguments(items: Seq<Message>) -> Result<Seq<Seq<char>>, Seq<char>>
    decreases items.len(),
{
    if items.len() == 0 {
        Ok(Seq::empty())
    } else {
        match arguments(items.drop_last()) {
            Err(e) => Err(e),
            Ok(before) => match items.last() {
                Message::BulkString(Some(bytes)) => if valid_utf8(bytes) {
                    Ok(before.push(decode_utf8(bytes)))
                } else {
                    Err("Invalid UTF-8 in bulk string"@)
                },
                _ => Ok(before),
            },
        }
    }
}

/// What the command `command`, in upper case, replies to `args` at the
/// instant `now`, and what it leaves in the store.
pub open spec fn dispatch_effect(
    command: Seq<char>,
    args: Seq<Seq<char>>,
    store: Seq<ItemModel>,
    config: Seq<(Seq<char>, Seq<char>)>,
    now: i128,
) -> (Reply, Seq<ItemModel>) {
    if command == "ECHO"@ {
        (echo_reply(args), store)
    } else if command == "SET"@ {
        set_effect(args, store, now)
    } else if command == "GET"@ {
        (get_reply(args, store, now), store)
    } else if command == "PING"@ {
        (Ok(Message::SimpleString("PONG"@)), store)
    } else if command == "CONFIG"@ {
        (config_reply(args, config), store)
    } else if command == "KEYS"@ {
        (keys_reply(args, store, now), store)
    } else if command == "SAVE"@ {
        (Err("snapshot writing is not supported"@), store)
    } else if command == "INFO"@ {
        (info_reply(config), store)
    } else {
        (Err("Unknown command: "@ + command), store)
    }
}

/// The command that `request` names, in upper case, with its arguments; or,
/// where it names none, the text of the error.
///
/// A request is an array whose first item is a bulk string, the name of
/// the command. An array without one is an error, and so is anything but
/// an array.
pub open spec fn command_of(request: Message) -> Result<(Seq<char>, Seq<Seq<char>>), Seq<char>> {
    match request {
        Message::Array(Some(items)) => if items.len() == 0 {
            Err("Invalid command format"@)
        } else {
            match items[0] {
                Message::BulkString(Some(name)) => if !valid_utf8(name) {
                    Err("Invalid UTF-8 in bulk string"@)
                } else {
                    match arguments(items.subrange(1, items.len() as int)) {
                        Ok(args) => Ok((uppercase(decode_utf8(name)), args)),
                        Err(e) => Err(e),
                    }
                },
                _ => Err("Invalid command format"@),
            }
        },
        _ => Err("Invalid command"@),
    }
}

/// What the request `request` is answered with at the instant `now`, and
/// what it leaves in the store: what the command that it names replies and
/// leaves, and an error where it names none.
pub open spec fn execute_effect(
    request: Message,
    store: Seq<ItemModel>,
    config: Seq<(Seq<char>, Seq<char>)>,
    now: i128,
) -> (Reply, Seq<ItemModel>) {
    match command_of(request) {
        Ok((command, args)) => dispatch_effect(command, args, store, config, now),
        Err(e) => (Err(e), store),
    }
}

/// The request asks for a write: it names the command `SET`.
pub open spec fn writes(request: Message) -> bool {
    command_of(request) matches Ok((command, _)) && command == "SET"@
}

/// A request that is answered with an error leaves the store as it was.
pub proof fn lemma_error_changes_nothing(
    request: Message,
    store: Seq<ItemModel>,
    config: Seq<(Seq<char>, Seq<char>)>,
    now: i128,
)
    ensures
        execute_effect(request, store, config, now).0 is Err ==> execute_effect(
            request,
            store,
            config,
            now,
        ).1 == store,
{
}

/// The request names a command: it is an array whose first item is a bulk
/// string.
pub open spec fn has_command_name(request: Message) -> bool {
    request matches Message::Array(Some(items)) && items.len() > 0 && items[0] matches Message::BulkString(
        Some(_),
    )
}

/// A request that is no array with the name of a command first is answered
/// with an error, and leaves the store as it was.
pub proof fn lemma_bad_shape_is_an_error(
    request: Message,
    store: Seq<ItemModel>,
    config: Seq<(Seq<char>, Seq<char>)>,
    now: i128,
)
    requires
        !has_command_name(request),
    ensures
        execute_effect(request, store, config, now).0 is Err,
        execute_effect(request, store, config, now).1 == store,
{
}

/// A request that asks for no write leaves the store as it was.
pub proof fn lemma_queries_change_nothing(
    request: Message,
    store: Seq<ItemModel>,
    config: Seq<(Seq<char>, Seq<char>)>,
    now: i128,
)
    requires
        !writes(request),
    ensures
        execute_effect(request, store, config, now).1 == store,
{
}

/// No command but `SET` writes to the store.
pub proof fn lemma_only_set_writes(
    command: Seq<char>,
    args: Seq<Seq<char>>,
    store: Seq<ItemModel>,
    config: Seq<(Seq<char>, Seq<char>)>,
    now: i128,
)
    requires
        command != "SET"@,
    ensures
        dispatch_effect(command, args, store, config, now).1 == store,
{
}

/// Reads the arguments among `elements`, from the second on.
fn read_arguments(elements: &Vec<RespType>) -> (r: Result<Vec<String>, String>)
    requires
        elements.len() >= 1,
    ensures
        match arguments(messages(elements@).subrange(1, elements.len() as int)) {
            Ok(args) => r is Ok && texts(r->Ok_0@) == args,
            Err(e) => r is Err && r->Err_0@ == e,
        },
{
    let ghost all = messages(elements@);
    proof {
        lemma_messages_index(elements@);
    }
    let mut args: Vec<String> = Vec::new();
    let mut i: usize = 1;
    assert(all.subrange(1, 1) =~= Seq::empty());
    assert(texts(args@) =~= Seq::empty());
    while i < elements.len()
        invariant
            1 <= i <= elements.len(),
            all == messages(elements@),
            all.len() == elements.len(),
            forall|j: int| 0 <= j < elements.len() ==> (#[trigger] all[j]) == elements[j]@,
            arguments(all.subrange(1, i as int)) == Ok::<Seq<Seq<char>>, Seq<char>>(texts(args@)),
        decreases elements.len() - i,
    {
        let ghost longer = all.subrange(1, i + 1);
        assert(longer.drop_last() =~= all.subrange(1, i as int));
        assert(longer.last() == elements[i as int]@);
        match &elements[i] {
            RespType::BulkString(Some(bytes)) => {
                match string_from_utf8(bytes.as_slice()) {
                    Some(text) => {
                        let ghost before = texts(args@);
                        args.push(text);
                        assert(texts(args@) =~= before.push(text@));
                    },
                    None => {
                        proof {
                            lemma_arguments_error(all.subrange(1, elements.len() as int), i - 1);
                        }
                        return Err("Invalid UTF-8 in bulk string".to_owned());
                    },
                }
            },
            _ => {},
        }
        i += 1;
    }
    assert(all.subrange(1, elements.len() as int) =~= all.subrange(1, i as int));
    Ok(args)
}

/// Arguments cannot be read where one of the items is a bulk string that is
/// not text.
pub proof fn lemma_arguments_error(items: Seq<Message>, at: int)
    requires
        0 <= at < items.len(),
        items[at] matches Message::BulkString(Some(bytes)) && !valid_utf8(bytes),
    ensures
        arguments(items) == Err::<Seq<Seq<char>>, Seq<char>>("Invalid UTF-8 in bulk string"@),
    decreases items.len(),
{
    if at < items.len() - 1 {
        lemma_arguments_error(items.drop_last(), at);
    } else {
        lemma_arguments_fail_alike(items.drop_last());
    }
}

/// Where arguments cannot be read, the error is always the same.
pub proof fn lemma_arguments_fail_alike(items: Seq<Message>)
    ensures
        arguments(items) matches Err(e) ==> e == "Invalid UTF-8 in bulk string"@,
    decreases items.len(),
{
    if items.len() > 0 {
        lemma_arguments_fail_alike(items.drop_last());
    }
}

/// Serves the `CONFIG` command under the subcommand `sub`, given in upper
/// case.
pub fn config_subcommand(config: &Config, sub: &str, args: Vec<String>) -> (r: Result<
    RespType,
    String,
>)
    ensures
        is_reply(r, config_sub_reply(sub@, texts(args@), config@)),
{
    if args.len() < 1 {
        return Err(wrong_arity_text("config"));
    }
    if same_text(sub, "GET") {
        config_get(config, args)
    } else {
        let mut text = "Unknown config command: ".to_owned();
        text.append(args[0].as_str());
        Err(text)
    }
}

/// Serves the `CONFIG` command.
fn config_command(config: &Config, args: Vec<String>) -> (r: Result<RespType, String>)
    ensures
        is_reply(r, config_reply(texts(args@), config@)),
{
    if args.len() < 1 {
        return Err(wrong_arity_text("config"));
    }
    let sub = to_uppercase(args[0].as_str());
    config_subcommand(config, sub.as_str(), args)
}

/// Serves a command that does not write: any command but `SET`.
fn dispatch_query(
    command: &String,
    args: Vec<String>,
    store: &Store,
    config: &Config,
    now: i128,
) -> (r: Result<RespType, String>)
    requires
        command@ != "SET"@,
    ensures
        is_reply(r, dispatch_effect(command@, texts(args@), store@, config@, now).0),
{
    let name = command.as_str();
    if same_text(name, "ECHO") {
        echo(args)
    } else if same_text(name, "GET") {
        get(store, args, now)
    } else if same_text(name, "PING") {
        Ok(RespType::SimpleString("PONG".to_owned()))
    } else if same_text(name, "CONFIG") {
        config_command(config, args)
    } else if same_text(name, "KEYS") {
        keys(store, args, now)
    } else if same_text(name, "SAVE") {
        Err("snapshot writing is not supported".to_owned())
    } else if same_text(name, "INFO") {
        info(config)
    } else {
        let mut text = "Unknown command: ".to_owned();
        text.append(name);
        Err(text)
    }
}

/// Serves the command `command`, given in upper case, at the instant `now`.
pub fn dispatch(
    command: &String,
    args: Vec<String>,
    store: &mut Store,
    config: &Config,
    now: i128,
) -> (r: Result<RespType, String>)
    ensures
        is_reply(r, dispatch_effect(command@, texts(args@), old(store)@, config@, now).0),
        final(store)@ == dispatch_effect(command@, texts(args@), old(store)@, config@, now).1,
{
    proof {
        reveal_strlit("ECHO");
        reveal_strlit("SET");
    }
    if same_text(command.as_str(), "SET") {
        set(store, args, now)
    } else {
        dispatch_query(command, args, &*store, config, now)
    }
}

/// Reads the command that `resp` names, in upper case, and its arguments;
/// or, where it names none, the text of the error.
fn read_command(resp: &RespType) -> (r: Result<(String, Vec<String>), String>)
    ensures
        match command_of(resp@) {
            Ok((command, args)) => r is Ok && r->Ok_0.0@ == command && texts(r->Ok_0.1@) == args,
            Err(e) => r is Err && r->Err_0@ == e,
        },
{
    match resp {
        RespType::Array(Some(elements)) => {
            proof {
                lemma_messages_index(elements@);
            }
            if elements.len() == 0 {
                return Err("Invalid command format".to_owned());
            }
            let command = match &elements[0] {
                RespType::BulkString(Some(name)) => match string_from_utf8(name.as_slice()) {
                    Some(text) => to_uppercase(text.as_str()),
                    None => {
                        return Err("Invalid UTF-8 in bulk string".to_owned());
                    },
                },
                _ => {
                    return Err("Invalid command format".to_owned());
                },
            };
            match read_arguments(elements) {
                Ok(args) => Ok((command, args)),
                Err(e) => Err(e),
            }
        },
        _ => Err("Invalid command".to_owned()),
    }
}

/// Serves the request `resp` at the instant `now`.
pub fn execute_command_at(resp: RespType, store: &mut Store, config: &Config, now: i128) -> (r:
    Result<RespType, String>)
    ensures
        is_reply(r, execute_effect(resp@, old(store)@, config@, now).0),
        final(store)@ == execute_effect(resp@, old(store)@, config@, now).1,
{
    match read_command(&resp) {
        Ok((command, args)) => dispatch(&command, args, store, config, now),
        Err(e) => Err(e),
    }
}

/// Serves the request `resp` at the instant `now` from a store that it may
/// only read: a request that asks for a write is not served.
pub fn execute_query_at(resp: &RespType, store: &Store, config: &Config, now: i128) -> (r: Option<
    Result<RespType, String>,
>)
    ensures
        r is None <==> writes(resp@),
        r matches Some(reply) ==> is_reply(reply, execute_effect(resp@, store@, config@, now).0),
{
    match read_command(resp) {
        Ok((command, args)) => if same_text(command.as_str(), "SET") {
            None
        } else {
            Some(dispatch_query(&command, args, store, config, now))
        },
        Err(e) => Some(Err(e)),
    }
}

/// Serves the request `resp` now.
pub fn execute_command(resp: RespType, store: &mut Store, config: &Config) -> (r: Result<
    RespType,
    String,
>)
    ensures
        exists|now: i128|
            {
                &&& is_reply(r, (#[trigger] execute_effect(resp@, old(store)@, config@, now)).0)
                &&& final(store)@ == execute_effect(resp@, old(store)@, config@, now).1
            },
{
    let now: i128 = now_unix_nanos();
    execute_command_at(resp, store, config, now)
}

/// The bytes that answer the request in `buffer` at the instant `now`, and
/// what the request leaves in the store.
///
/// A buffer that cannot be decoded and a request that cannot be served
/// are answered with a simple error.
pub open spec fn respond_effect(
    buffer: Seq<u8>,
    store: Seq<ItemModel>,
    config: Seq<(Seq<char>, Seq<char>)>,
    now: i128,
) -> (Seq<u8>, Seq<ItemModel>) {
    match spec_decode(buffer) {
        Ok((request, _)) => {
            let (reply, after) = execute_effect(request, store, config, now);
            match reply {
                Ok(m) => (spec_encode(m), after),
                Err(e) => (spec_encode(Message::SimpleError(e)), after),
            }
        },
        Err(e) => (spec_encode(Message::SimpleError(e.message_text())), store),
    }
}

/// Every failure is answered with one simple error and changes nothing: a
/// buffer that cannot be decoded with the text of the decoding error, and
/// a request that cannot be served with the text of its error.
pub proof fn lemma_failure_is_a_simple_error(
    buffer: Seq<u8>,
    store: Seq<ItemModel>,
    config: Seq<(Seq<char>, Seq<char>)>,
    now: i128,
)
    ensures
        match spec_decode(buffer) {
            Err(e) => respond_effect(buffer, store, config, now) == (
                spec_encode(Message::SimpleError(e.message_text())),
                store,
            ),
            Ok((request, _)) => match execute_effect(request, store, config, now).0 {
                Err(e) => respond_effect(buffer, store, config, now) == (
                    spec_encode(Message::SimpleError(e)),
                    store,
                ),
                Ok(_) => true,
            },
        },
{
}

/// Answers the request in `buffer` at the instant `now`.
pub fn respond_at(store: &mut Store, config: &Config, buffer: &[u8], now: i128) -> (reply: Vec<u8>)
    ensures
        reply@ == respond_effect(buffer@, old(store)@, config@, now).0,
        final(store)@ == respond_effect(buffer@, old(store)@, config@, now).1,
{
    match decode(buffer) {
        Ok(request) => match execute_command_at(request, store, config, now) {
            Ok(response) => response.serialize(),
            Err(e) => RespType::SimpleError(e).serialize(),
        },
        Err(e) => RespType::SimpleError(e.message().to_owned()).serialize(),
    }
}

/// The request in `buffer` asks for a write.
pub open spec fn buffer_writes(buffer: Seq<u8>) -> bool {
    spec_decode(buffer) matches Ok((request, _)) && writes(request)
}

/// A buffer that asks for no write leaves the store as it was.
pub proof fn lemma_answer_without_write(
    buffer: Seq<u8>,
    store: Seq<ItemModel>,
    config: Seq<(Seq<char>, Seq<char>)>,
    now: i128,
)
    requires
        !buffer_writes(buffer),
    ensures
        respond_effect(buffer, store, config, now).1 == store,
{
}

/// Answers the request in `buffer` at the instant `now` from a store that
/// it may only read. A request that asks for a write is not answered: it
/// is for [`respond_at`].
pub fn respond_query_at(store: &Store, config: &Config, buffer: &[u8], now: i128) -> (reply: Option<
    Vec<u8>,
>)
    ensures
        reply is None <==> buffer_writes(buffer@),
        reply matches Some(bytes) ==> bytes@ == respond_effect(buffer@, store@, config@, now).0,
{
    match decode(buffer) {
        Ok(request) => match execute_query_at(&request, store, config, now) {
            Some(Ok(response)) => Some(response.serialize()),
            Some(Err(e)) => Some(RespType::SimpleError(e).serialize()),
            None => None,
        },
        Err(e) => Some(RespType::SimpleError(e.message().to_owned()).serialize()),
    }
}

/// Answers the request in `buffer` now from a store that it may only read.
/// A request that asks for a write is not answered: it is for [`respond`].
pub fn respond_query(store: &Store, config: &Config, buffer: &[u8]) -> (reply: Option<Vec<u8>>)
    ensures
        reply is None <==> buffer_writes(buffer@),
        reply matches Some(bytes) ==> exists|now: i128|
            bytes@ == (#[trigger] respond_effect(buffer@, store@, config@, now)).0,
{
    let now: i128 = now_unix_nanos();
    respond_query_at(store, config, buffer, now)
}

/// Answers the request in `buffer` now.
pub fn respond(store: &mut Store, config: &Config, buffer: &[u8]) -> (reply: Vec<u8>)
    ensures
        exists|now: i128|
            {
                &&& reply@ == (#[trigger] respond_effect(buffer@, old(store)@, config@, now)).0
                &&& final(store)@ == respond_effect(buffer@, old(store)@, config@, now).1
            },
{
    let now: i128 = now_unix_nanos();
    respond_at(store, config, buffer, now)
}

} // verus!
