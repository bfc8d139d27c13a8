//! The commands that the server understands: reading them from RESP arrays
//! and running them against a store.
use vstd::prelude::*;
use vstd::utf8::{decode_utf8, encode_utf8};
use crate::decimal::{parse_u64, parse_u64_text};
use crate::resp::{Resp, RespModel};
use crate::store::{
    count_live, counter_matches, counter_result, counter_store, deadline, live, purge, purge_all,
    ttl_of, EntryModel, Store, StoreModel,
};
use crate::text::{
    ascii_upper, concat, owned, str_eq, string_bytes, string_from_utf8, to_ascii_uppercase,
    utf8_text,
};

verus! {

broadcast use vstd::utf8::group_utf8_lib;

/// A command that the server understands.
#[derive(Debug, Clone, PartialEq)]
pub enum Command {
    /// PING: answers PONG.
    Ping,
    /// ECHO message: answers the message.
    Echo(String),
    /// SET key value: stores a value.
    SetKey { key: String, value: String },
    /// GET key: reads a value.
    Get { key: String },
    /// DEL key...: deletes keys.
    Delete { keys: Vec<String> },
    /// EXISTS key...: counts the keys that exist.
    Exists { keys: Vec<String> },
    /// INCR key: adds one to a counter.
    Incr { key: String },
    /// DECR key: subtracts one from a counter.
    Decr { key: String },
    /// EXPIRE key seconds: sets a timeout on a key.
    Expire { key: String, seconds: u64 },
    /// TTL key: the remaining time to live of a key.
    Ttl { key: String },
    /// An unknown command name or invalid arguments, with the reason.
    Unknown(String),
}

/// The mathematical value of a `Command`.
pub enum CommandModel {
    Ping,
    Echo(Seq<char>),
    SetKey { key: Seq<char>, value: Seq<char> },
    Get { key: Seq<char> },
    Delete { keys: Seq<Seq<char>> },
    Exists { keys: Seq<Seq<char>> },
    Incr { key: Seq<char> },
    Decr { key: Seq<char> },
    Expire { key: Seq<char>, seconds: u64 },
    Ttl { key: Seq<char> },
    Unknown(Seq<char>),
}

/// The characters of each string.
pub open spec fn texts(keys: Seq<String>) -> Seq<Seq<char>> {
    keys.map_values(|k: String| k@)
}

impl View for Command {
    type V = CommandModel;

    open spec fn view(&self) -> CommandModel {
        match self {
            Command::Ping => CommandModel::Ping,
            Command::Echo(m) => CommandModel::Echo(m@),
            Command::SetKey { key, value } => CommandModel::SetKey { key: key@, value: value@ },
            Command::Get { key } => CommandModel::Get { key: key@ },
            Command::Delete { keys } => CommandModel::Delete { keys: texts(keys@) },
            Command::Exists { keys } => CommandModel::Exists { keys: texts(keys@) },
            Command::Incr { key } => CommandModel::Incr { key: key@ },
            Command::Decr { key } => CommandModel::Decr { key: key@ },
            Command::Expire { key, seconds } => CommandModel::Expire {
                key: key@,
                seconds: *seconds,
            },
            Command::Ttl { key } => CommandModel::Ttl { key: key@ },
            Command::Unknown(m) => CommandModel::Unknown(m@),
        }
    }
}

// ---------------------------------------------------------------------------
// Reading a command
// ---------------------------------------------------------------------------
/// The text of a bulk string: its bytes decoded, where they are valid UTF-8.
pub open spec fn bulk_text(r: RespModel) -> Option<Seq<char>> {
    match r {
        RespModel::BulkString(b) => utf8_text(b),
        _ => None,
    }
}

/// The texts of the bulk strings `items`, where every one has a text.
pub open spec fn keys_text(items: Seq<RespModel>) -> Option<Seq<Seq<char>>> {
    if forall|i: int| 0 <= i < items.len() ==> #[trigger] bulk_text(items[i]) is Some {
        Some(Seq::new(items.len(), |i: int| bulk_text(items[i])->0))
    } else {
        None
    }
}

/// A command that takes exactly one key.
pub open spec fn one_key_command(
    items: Seq<RespModel>,
    usage: Seq<char>,
    not_bulk: Seq<char>,
    make: spec_fn(Seq<char>) -> CommandModel,
) -> CommandModel {
    if items.len() != 2 {
        CommandModel::Unknown(usage)
    } else {
        match bulk_text(items[1]) {
            Some(key) => make(key),
            None => CommandModel::Unknown(not_bulk),
        }
    }
}

/// A command that takes one or more keys.
pub open spec fn many_keys_command(
    items: Seq<RespModel>,
    name: Seq<char>,
    make: spec_fn(Seq<Seq<char>>) -> CommandModel,
) -> CommandModel {
    if items.len() < 2 {
        CommandModel::Unknown(name + " expects at least one key"@)
    } else {
        match keys_text(items.subrange(1, items.len() as int)) {
            Some(keys) => make(keys),
            None => CommandModel::Unknown(name + " "@ + "key must be a bulk string"@),
        }
    }
}

/// The command that the items of a RESP array name, the first item holding
/// the command's name in upper case.
pub open spec fn command_named(name: Seq<char>, items: Seq<RespModel>) -> CommandModel {
    if name == "PING"@ {
        CommandModel::Ping
    } else if name == "ECHO"@ {
        if items.len() != 2 {
            CommandModel::Unknown("ECHO expects one argument"@)
        } else {
            match bulk_text(items[1]) {
                Some(m) => CommandModel::Echo(m),
                None => CommandModel::Unknown("ECHO argument must be a bulk string"@),
            }
        }
    } else if name == "SET"@ {
        if items.len() != 3 {
            CommandModel::Unknown("SET expects key and value"@)
        } else {
            match bulk_text(items[1]) {
                None => CommandModel::Unknown("SET key must be a bulk string"@),
                Some(key) => match bulk_text(items[2]) {
                    None => CommandModel::Unknown("SET value must be a bulk string"@),
                    Some(value) => CommandModel::SetKey { key, value },
                },
            }
        }
    } else if name == "GET"@ {
        one_key_command(
            items,
            "GET expects key"@,
            "GET key must be a bulk string"@,
            |key: Seq<char>| CommandModel::Get { key },
        )
    } else if name == "DEL"@ {
        many_keys_command(items, "DEL"@, |keys: Seq<Seq<char>>| CommandModel::Delete { keys })
    } else if name == "EXISTS"@ {
        many_keys_command(items, "EXISTS"@, |keys: Seq<Seq<char>>| CommandModel::Exists { keys })
    } else if name == "INCR"@ {
        one_key_command(
            items,
            "INCR expects key"@,
            "INCR key must be a bulk string"@,
            |key: Seq<char>| CommandModel::Incr { key },
        )
    } else if name == "DECR"@ {
        one_key_command(
            items,
            "DECR expects key"@,
            "DECR key must be a bulk string"@,
            |key: Seq<char>| CommandModel::Decr { key },
        )
    } else if name == "EXPIRE"@ {
        if items.len() != 3 {
            CommandModel::Unknown("EXPIRE expects key and seconds"@)
        } else {
            match bulk_text(items[1]) {
                None => CommandModel::Unknown("EXPIRE key must be a bulk string"@),
                Some(key) => match bulk_text(items[2]) {
                    None => CommandModel::Unknown("EXPIRE seconds must be a bulk string"@),
                    Some(text) => match parse_u64_text(encode_utf8(text)) {
                        Some(seconds) => CommandModel::Expire { key, seconds },
                        None => CommandModel::Unknown("EXPIRE seconds must be an integer"@),
                    },
                },
            }
        }
    } else if name == "TTL"@ {
        one_key_command(
            items,
            "TTL expects key"@,
            "TTL key must be a bulk string"@,
            |key: Seq<char>| CommandModel::Ttl { key },
        )
    } else {
        CommandModel::Unknown("unknown command: "@ + name)
    }
}

/// The command that a RESP value stands for.
pub open spec fn command_of(r: RespModel) -> CommandModel {
    match r {
        RespModel::Array(items) => if items.len() == 0 {
            CommandModel::Unknown("empty command"@)
        } else {
            match bulk_text(items[0]) {
                None => CommandModel::Unknown("command must be a bulk string"@),
                Some(name) => command_named(ascii_upper(name), items),
            }
        },
        _ => CommandModel::Unknown("Expected command array"@),
    }
}

/// The text of a bulk string, where its bytes are valid UTF-8.
pub fn bulk_string_to_string(resp: &Resp) -> (result: Option<String>)
    ensures
        match result {
            Some(s) => bulk_text(resp@) == Some(s@),
            None => bulk_text(resp@) is None,
        },
{
    match resp {
        Resp::BulkString(bytes) => string_from_utf8(vstd::slice::slice_to_vec(bytes.as_slice())),
        _ => None,
    }
}

/// The texts of all the bulk strings `items`, or an error where one of them
/// is not a bulk string of valid UTF-8.
pub fn bulk_string_to_keys(items: &[Resp]) -> (result: Result<Vec<String>, String>)
    ensures
        match result {
            Ok(keys) => keys_text(crate::resp::models(items@)) == Some(texts(keys@)),
            Err(e) => keys_text(crate::resp::models(items@)) is None && e@
                == "key must be a bulk string"@,
        },
{
    let ghost ms = crate::resp::models(items@);
    proof {
        crate::resp::lemma_models(items@);
    }
    let mut keys: Vec<String> = Vec::new();
    let mut i: usize = 0;
    while i < items.len()
        invariant
            i <= items@.len(),
            ms == crate::resp::models(items@),
            ms.len() == items@.len(),
            forall|j: int| 0 <= j < items@.len() ==> #[trigger] ms[j] == items@[j]@,
            keys@.len() == i,
            forall|j: int| 0 <= j < i ==> #[trigger] bulk_text(ms[j]) == Some(keys@[j]@),
        decreases items@.len() - i,
    {
        match bulk_string_to_string(&items[i]) {
            Some(key) => {
                keys.push(key);
            },
            None => {
                assert(bulk_text(ms[i as int]) is None);
                return Err(owned("key must be a bulk string"));
            },
        }
        i = i + 1;
    }
    assert(forall|j: int| 0 <= j < ms.len() ==> #[trigger] bulk_text(ms[j]) is Some);
    assert(Seq::new(ms.len(), |j: int| bulk_text(ms[j])->0) =~= texts(keys@));
    Ok(keys)
}

/// The key of a one-key command read from `items`, or the reason why there
/// is none.
fn read_key(items: &Vec<Resp>, usage: &str, not_bulk: &str) -> (result: Result<String, String>)
    ensures
        ({
            let ms = crate::resp::models(items@);
            match result {
                Ok(key) => ms.len() == 2 && bulk_text(ms[1]) == Some(key@),
                Err(reason) => if ms.len() != 2 {
                    reason@ == usage@
                } else {
                    bulk_text(ms[1]) is None && reason@ == not_bulk@
                },
            }
        }),
{
    proof {
        crate::resp::lemma_models(items@);
    }
    if items.len() != 2 {
        return Err(owned(usage));
    }
    match bulk_string_to_string(&items[1]) {
        Some(key) => Ok(key),
        None => Err(owned(not_bulk)),
    }
}

/// A many-key command read from `items`.
fn read_many_keys(items: &Vec<Resp>, name: &str, delete: bool) -> (command: Command)
    ensures
        command@ == many_keys_command(
            crate::resp::models(items@),
            name@,
            |keys: Seq<Seq<char>>|
                if delete {
                    CommandModel::Delete { keys }
                } else {
                    CommandModel::Exists { keys }
                },
        ),
{
    proof {
        crate::resp::lemma_models(items@);
    }
    if items.len() < 2 {
        return Command::Unknown(concat(name, " expects at least one key"));
    }
    let rest = vstd::slice::slice_subrange(items.as_slice(), 1, items.len());
    proof {
        let ms = crate::resp::models(items@);
        crate::resp::lemma_models(rest@);
        assert(crate::resp::models(rest@) =~= ms.subrange(1, ms.len() as int));
    }
    match bulk_string_to_keys(rest) {
        Ok(keys) => if delete {
            Command::Delete { keys }
        } else {
            Command::Exists { keys }
        },
        Err(err) => {
            let tail = concat(" ", err.as_str());
            let reason = concat(name, tail.as_str());
            assert(reason@ =~= name@ + " "@ + "key must be a bulk string"@);
            Command::Unknown(reason)
        },
    }
}

impl Command {
    /// The command that a RESP value stands for; anything else becomes
    /// `Unknown` with the reason.
    pub fn from_resp(resp: Resp) -> (command: Command)
        ensures
            command@ == command_of(resp@),
    {
        let items = match resp {
            Resp::Array(items) => items,
            _ => {
                return Command::Unknown(owned("Expected command array"));
            },
        };
        proof {
            crate::resp::lemma_models(items@);
        }
        if items.len() == 0 {
            return Command::Unknown(owned("empty command"));
        }
        let name = match bulk_string_to_string(&items[0]) {
            Some(name) => to_ascii_uppercase(name.as_str()),
            None => {
                return Command::Unknown(owned("command must be a bulk string"));
            },
        };
        let name = name.as_str();
        if str_eq(name, "PING") {
            Command::Ping
        } else if str_eq(name, "ECHO") {
            if items.len() != 2 {
                return Command::Unknown(owned("ECHO expects one argument"));
            }
            match bulk_string_to_string(&items[1]) {
                Some(message) => Command::Echo(message),
                None => Command::Unknown(owned("ECHO argument must be a bulk string")),
            }
        } else if str_eq(name, "SET") {
            if items.len() != 3 {
                return Command::Unknown(owned("SET expects key and value"));
            }
            let key = match bulk_string_to_string(&items[1]) {
                Some(key) => key,
                None => {
                    return Command::Unknown(owned("SET key must be a bulk string"));
                },
            };
            let value = match bulk_string_to_string(&items[2]) {
                Some(value) => value,
                None => {
                    return Command::Unknown(owned("SET value must be a bulk string"));
                },
            };
            Command::SetKey { key, value }
        } else if str_eq(name, "GET") {
            match read_key(&items, "GET expects key", "GET key must be a bulk string") {
                Ok(key) => Command::Get { key },
                Err(reason) => Command::Unknown(reason),
            }
        } else if str_eq(name, "DEL") {
            read_many_keys(&items, "DEL", true)
        } else if str_eq(name, "EXISTS") {
            read_many_keys(&items, "EXISTS", false)
        } else if str_eq(name, "INCR") {
            match read_key(&items, "INCR expects key", "INCR key must be a bulk string") {
                Ok(key) => Command::Incr { key },
                Err(reason) => Command::Unknown(reason),
            }
        } else if str_eq(name, "DECR") {
            match read_key(&items, "DECR expects key", "DECR key must be a bulk string") {
                Ok(key) => Command::Decr { key },
                Err(reason) => Command::Unknown(reason),
            }
        } else if str_eq(name, "EXPIRE") {
            if items.len() != 3 {
                return Command::Unknown(owned("EXPIRE expects key and seconds"));
            }
            let key = match bulk_string_to_string(&items[1]) {
                Some(key) => key,
                None => {
                    return Command::Unknown(owned("EXPIRE key must be a bulk string"));
                },
            };
            let seconds_text = match bulk_string_to_string(&items[2]) {
                Some(text) => text,
                None => {
                    return Command::Unknown(owned("EXPIRE seconds must be a bulk string"));
                },
            };
            let bytes = seconds_text.as_str().as_bytes();
            let parsed = parse_u64(bytes, 0, bytes.len());
            assert(bytes@.subrange(0, bytes@.len() as int) =~= bytes@);
            match parsed {
                Some(seconds) => Command::Expire { key, seconds },
                None => Command::Unknown(owned("EXPIRE seconds must be an integer")),
            }
        } else if str_eq(name, "TTL") {
            match read_key(&items, "TTL expects key", "TTL key must be a bulk string") {
                Ok(key) => Command::Ttl { key },
                Err(reason) => Command::Unknown(reason),
            }
        } else {
            Command::Unknown(concat("unknown command: ", name))
        }
    }
}

// ---------------------------------------------------------------------------
// Running a command
// ---------------------------------------------------------------------------
/// Whether the key lists of a command are short enough for their counts to
/// fit in an `i64` reply.
pub open spec fn fits_reply(c: CommandModel) -> bool {
    match c {
        CommandModel::Delete { keys } => keys.len() <= i64::MAX,
        CommandModel::Exists { keys } => keys.len() <= i64::MAX,
        _ => true,
    }
}

/// The command that an array of at most `i64::MAX` items stands for has
/// replies that fit.
pub proof fn lemma_command_fits(r: RespModel)
    requires
        r matches RespModel::Array(items) ==> items.len() <= i64::MAX,
    ensures
        fits_reply(command_of(r)),
{
}

/// The reply to a counter command.
pub open spec fn counter_reply(r: Result<i64, Seq<char>>) -> RespModel {
    match r {
        Ok(n) => RespModel::Integer(n),
        Err(e) => RespModel::Error("ERR "@ + e),
    }
}

/// The reply to command `c` on a store that holds `m` at time `now`, and what
/// the store then holds.
pub open spec fn execute_model(c: CommandModel, m: StoreModel, now: u64) -> (RespModel, StoreModel) {
    match c {
        CommandModel::Ping => (RespModel::SimpleString("PONG"@), m),
        CommandModel::Echo(msg) => (RespModel::BulkString(encode_utf8(msg)), m),
        CommandModel::SetKey { key, value } => (
            RespModel::SimpleString("OK"@),
            m.insert(key, EntryModel { value, expires_at: None }),
        ),
        CommandModel::Get { key } => (
            if live(m, key, now) {
                RespModel::BulkString(encode_utf8(m[key].value))
            } else {
                RespModel::Null
            },
            purge(m, key, now),
        ),
        CommandModel::Delete { keys } => (
            RespModel::Integer(keys.to_set().filter(|k: Seq<char>| live(m, k, now)).len() as i64),
            m.remove_keys(keys.to_set()),
        ),
        CommandModel::Exists { keys } => (
            RespModel::Integer(count_live(m, keys, now) as i64),
            purge_all(m, keys.to_set(), now),
        ),
        CommandModel::Incr { key } => (
            counter_reply(counter_result(m, key, now, 1)),
            counter_store(m, key, now, 1),
        ),
        CommandModel::Decr { key } => (
            counter_reply(counter_result(m, key, now, -1)),
            counter_store(m, key, now, -1),
        ),
        CommandModel::Expire { key, seconds } => if live(m, key, now) {
            (
                RespModel::Integer(1),
                m.insert(
                    key,
                    EntryModel { value: m[key].value, expires_at: Some(deadline(now, seconds)) },
                ),
            )
        } else {
            (RespModel::Integer(0), purge(m, key, now))
        },
        CommandModel::Ttl { key } => (
            RespModel::Integer(ttl_of(m, key, now) as i64),
            purge(m, key, now),
        ),
        CommandModel::Unknown(msg) => (RespModel::Error("ERR "@ + msg), m),
    }
}

/// The reply to a counter command, from the store's result.
fn counter_response(result: Result<i64, String>, Ghost(expected): Ghost<Result<i64, Seq<char>>>) -> (response: Resp)
    requires
        counter_matches(result, expected),
    ensures
        response@ == counter_reply(expected),
{
    match result {
        Ok(value) => Resp::Integer(value),
        Err(err) => Resp::Error(concat("ERR ", err.as_str())),
    }
}

impl Command {
    /// Runs the command against `store` at time `now` and gives the reply.
    pub fn execute(self, store: &mut Store, now: u64) -> (response: Resp)
        requires
            fits_reply(self@),
        ensures
            (response@, final(store)@) == execute_model(self@, old(store)@, now),
    {
        match self {
            Command::Ping => Resp::SimpleString(owned("PONG")),
            Command::Echo(message) => Resp::BulkString(string_bytes(message.as_str())),
            Command::SetKey { key, value } => {
                store.set(key, value);
                Resp::SimpleString(owned("OK"))
            },
            Command::Get { key } => match store.get(key.as_str(), now) {
                Some(value) => Resp::BulkString(string_bytes(value.as_str())),
                None => Resp::Null,
            },
            Command::Delete { keys } => {
                let removed = store.del_many(keys.as_slice(), now);
                Resp::Integer(removed)
            },
            Command::Exists { keys } => {
                let count = store.exists_many(keys.as_slice(), now);
                Resp::Integer(count)
            },
            Command::Incr { key } => {
                let result = store.incr(key.as_str(), now);
                counter_response(result, Ghost(counter_result(old(store)@, key@, now, 1)))
            },
            Command::Decr { key } => {
                let result = store.decr(key.as_str(), now);
                counter_response(result, Ghost(counter_result(old(store)@, key@, now, -1)))
            },
            Command::Expire { key, seconds } => {
                if store.expire(key.as_str(), seconds, now) {
                    Resp::Integer(1)
                } else {
                    Resp::Integer(0)
                }
            },
            Command::Ttl { key } => Resp::Integer(store.ttl(key.as_str(), now)),
            Command::Unknown(message) => Resp::Error(concat("ERR ", message.as_str())),
        }
    }
}

/// Law: GET after SET answers the value that was set, at any later time,
/// and leaves the store as SET left it.
pub proof fn law_set_then_get(m: StoreModel, key: Seq<char>, value: Seq<char>, now: u64, later: u64)
    ensures
        ({
            let (set_reply, m1) = execute_model(CommandModel::SetKey { key, value }, m, now);
            let (get_reply, m2) = execute_model(CommandModel::Get { key }, m1, later);
            &&& set_reply == RespModel::SimpleString("OK"@)
            &&& get_reply == RespModel::BulkString(encode_utf8(value))
            &&& m2 == m1
        }),
{
}

/// Law: INCR on a missing key answers 1, and a second INCR answers 2.
pub proof fn law_incr_twice(m: StoreModel, key: Seq<char>, now: u64)
    requires
        !live(m, key, now),
    ensures
        ({
            let (r1, m1) = execute_model(CommandModel::Incr { key }, m, now);
            let (r2, m2) = execute_model(CommandModel::Incr { key }, m1, now);
            r1 == RespModel::Integer(1) && r2 == RespModel::Integer(2)
        }),
{
    crate::store::law_counter_starts_at_zero(m, key, now);
    crate::store::law_counter_steps_compose(m, key, now, 1, 1);
}

/// Law: command names are matched without regard to ASCII case. Two arrays
/// that differ only in their first item, whose texts are the same once
/// upper-cased, stand for the same command (an unknown name is reported
/// upper-cased either way).
pub proof fn law_command_name_case(items: Seq<RespModel>, name1: Seq<u8>, name2: Seq<u8>)
    requires
        items.len() > 0,
        utf8_text(name1) is Some,
        utf8_text(name2) is Some,
        ascii_upper(utf8_text(name1)->0) == ascii_upper(utf8_text(name2)->0),
    ensures
        command_of(RespModel::Array(items.update(0, RespModel::BulkString(name1)))) == command_of(
            RespModel::Array(items.update(0, RespModel::BulkString(name2))),
        ),
{
    let a = items.update(0, RespModel::BulkString(name1));
    let b = items.update(0, RespModel::BulkString(name2));
    assert(a.subrange(1, a.len() as int) =~= b.subrange(1, b.len() as int));
    if a.len() > 1 {
        assert(a[1] == b[1]);
    }
    if a.len() > 2 {
        assert(a[2] == b[2]);
    }
}

/// Law: for an ASCII command name, upper-casing its bytes does not change the
/// command (so `ping`, `Ping` and `PING` are all PING).
pub proof fn law_ascii_command_name_case(items: Seq<RespModel>, name: Seq<u8>)
    requires
        items.len() > 0,
        crate::text::ascii_bytes(name),
    ensures
        command_of(RespModel::Array(items.update(0, RespModel::BulkString(name)))) == command_of(
            RespModel::Array(
                items.update(0, RespModel::BulkString(crate::text::ascii_upper_bytes(name))),
            ),
        ),
{
    let up = crate::text::ascii_upper_bytes(name);
    assert(crate::text::ascii_bytes(up)) by {
        assert forall|i: int| 0 <= i < up.len() implies #[trigger] up[i] < 128 by {
            assert(name[i] < 128);
        }
    }
    crate::text::lemma_ascii_utf8(name);
    crate::text::lemma_ascii_utf8(up);
    let t1 = decode_utf8(name);
    let t2 = decode_utf8(up);
    assert(ascii_upper(t1) =~= ascii_upper(t2)) by {
        assert forall|i: int| 0 <= i < t1.len() implies ascii_upper(t1)[i] == ascii_upper(t2)[i] by {
            let x = name[i];
            assert(t1[i] == x as char);
            assert(t2[i] == crate::text::ascii_upper_byte(x) as char);
        }
    }
    law_command_name_case(items, name, up);
}

/// Law: command names are matched without regard to ASCII case, whatever
/// their bytes: upper-casing the bytes of the first item byte by byte does not
/// change the command. Bytes that are not valid UTF-8 stay invalid, and both
/// arrays then stand for "command must be a bulk string".
pub proof fn law_command_name_bytes_case(name: Seq<u8>, rest: Seq<RespModel>)
    ensures
        command_of(RespModel::Array(seq![RespModel::BulkString(name)] + rest)) == command_of(
            RespModel::Array(
                seq![RespModel::BulkString(crate::text::ascii_upper_bytes(name))] + rest,
            ),
        ),
{
    let up = crate::text::ascii_upper_bytes(name);
    let a = seq![RespModel::BulkString(name)] + rest;
    let b = seq![RespModel::BulkString(up)] + rest;
    crate::text::lemma_ascii_upper_bytes_utf8(name);
    assert(a[0] == RespModel::BulkString(name));
    assert(b[0] == RespModel::BulkString(up));
    if utf8_text(name) is Some {
        crate::text::lemma_ascii_upper_idempotent(decode_utf8(name));
        assert(a.update(0, RespModel::BulkString(name)) =~= a);
        assert(a.update(0, RespModel::BulkString(up)) =~= b);
        law_command_name_case(a, name, up);
    }
}

} // verus!
