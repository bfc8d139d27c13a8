//! What each command is for, stated over the requests a client sends and the
//! store the command meets: which command a request is read as, what it
//! answers, and what it leaves in the store.
use vstd::prelude::*;
use vstd::utf8::{decode_utf8, encode_utf8};
use crate::command::{command_of, execute_model, CommandModel};
use crate::decimal::{int_text, nat_text, parse_i64_text};
use crate::resp::RespModel;
use crate::store::{live, StoreModel};
use crate::text::{ascii_upper, utf8_text};

verus! {

broadcast use vstd::utf8::group_utf8_lib;

/// The bulk string that carries the text `t`.
pub open spec fn bulk(t: Seq<char>) -> RespModel {
    RespModel::BulkString(encode_utf8(t))
}

/// The request a client sends for the words `words`: an array of bulk
/// strings, one per word, as `redis-cli` sends it.
pub open spec fn request(words: Seq<Seq<char>>) -> RespModel {
    RespModel::Array(bulks(words))
}

/// One bulk string per word.
pub open spec fn bulks(words: Seq<Seq<char>>) -> Seq<RespModel> {
    words.map_values(|w: Seq<char>| bulk(w))
}

/// A bulk string reads back as the text it carries.
proof fn lemma_bulk_text(t: Seq<char>)
    ensures
        utf8_text(encode_utf8(t)) == Some(t),
{
}

/// The command names, written in upper case, are their own upper case and
/// differ from one another.
proof fn lemma_names()
    ensures
        ascii_upper("PING"@) == "PING"@,
        ascii_upper("ECHO"@) == "ECHO"@,
        ascii_upper("SET"@) == "SET"@,
        ascii_upper("GET"@) == "GET"@,
        ascii_upper("DEL"@) == "DEL"@,
        ascii_upper("EXISTS"@) == "EXISTS"@,
        ascii_upper("INCR"@) == "INCR"@,
        ascii_upper("DECR"@) == "DECR"@,
        ascii_upper("EXPIRE"@) == "EXPIRE"@,
        ascii_upper("TTL"@) == "TTL"@,
        "ECHO"@ != "PING"@,
        "SET"@ != "PING"@,
        "SET"@ != "ECHO"@,
        "GET"@ != "PING"@,
        "GET"@ != "ECHO"@,
        "GET"@ != "SET"@,
        "DEL"@ != "PING"@,
        "DEL"@ != "ECHO"@,
        "DEL"@ != "SET"@,
        "DEL"@ != "GET"@,
        "EXISTS"@ != "PING"@,
        "EXISTS"@ != "ECHO"@,
        "EXISTS"@ != "SET"@,
        "EXISTS"@ != "GET"@,
        "EXISTS"@ != "DEL"@,
        "INCR"@ != "PING"@,
        "INCR"@ != "ECHO"@,
        "INCR"@ != "SET"@,
        "INCR"@ != "GET"@,
        "INCR"@ != "DEL"@,
        "INCR"@ != "EXISTS"@,
        "DECR"@ != "PING"@,
        "DECR"@ != "ECHO"@,
        "DECR"@ != "SET"@,
        "DECR"@ != "GET"@,
        "DECR"@ != "DEL"@,
        "DECR"@ != "EXISTS"@,
        "DECR"@ != "INCR"@,
        "EXPIRE"@ != "PING"@,
        "EXPIRE"@ != "ECHO"@,
        "EXPIRE"@ != "SET"@,
        "EXPIRE"@ != "GET"@,
        "EXPIRE"@ != "DEL"@,
        "EXPIRE"@ != "EXISTS"@,
        "EXPIRE"@ != "INCR"@,
        "EXPIRE"@ != "DECR"@,
        "TTL"@ != "PING"@,
        "TTL"@ != "ECHO"@,
        "TTL"@ != "SET"@,
        "TTL"@ != "GET"@,
        "TTL"@ != "DEL"@,
        "TTL"@ != "EXISTS"@,
        "TTL"@ != "INCR"@,
        "TTL"@ != "DECR"@,
        "TTL"@ != "EXPIRE"@,
{
    reveal_strlit("PING");
    reveal_strlit("ECHO");
    reveal_strlit("SET");
    reveal_strlit("GET");
    reveal_strlit("DEL");
    reveal_strlit("EXISTS");
    reveal_strlit("INCR");
    reveal_strlit("DECR");
    reveal_strlit("EXPIRE");
    reveal_strlit("TTL");
    assert(ascii_upper("PING"@) =~= "PING"@);
    assert(ascii_upper("ECHO"@) =~= "ECHO"@);
    assert(ascii_upper("SET"@) =~= "SET"@);
    assert(ascii_upper("GET"@) =~= "GET"@);
    assert(ascii_upper("DEL"@) =~= "DEL"@);
    assert(ascii_upper("EXISTS"@) =~= "EXISTS"@);
    assert(ascii_upper("INCR"@) =~= "INCR"@);
    assert(ascii_upper("DECR"@) =~= "DECR"@);
    assert(ascii_upper("EXPIRE"@) =~= "EXPIRE"@);
    assert(ascii_upper("TTL"@) =~= "TTL"@);
    assert("ECHO"@[0] != "PING"@[0]);
    assert("GET"@[0] != "SET"@[0]);
    assert("DEL"@[0] != "SET"@[0]);
    assert("DEL"@[0] != "GET"@[0]);
    assert("INCR"@[0] != "PING"@[0]);
    assert("INCR"@[0] != "ECHO"@[0]);
    assert("DECR"@[0] != "PING"@[0]);
    assert("DECR"@[0] != "ECHO"@[0]);
    assert("DECR"@[0] != "INCR"@[0]);
    assert("EXPIRE"@[2] != "EXISTS"@[2]);
    assert("TTL"@[0] != "SET"@[0]);
    assert("TTL"@[0] != "GET"@[0]);
    assert("TTL"@[0] != "DEL"@[0]);
}

/// The items of a request, and the texts they carry.
proof fn lemma_request_items(words: Seq<Seq<char>>)
    ensures
        bulks(words).len() == words.len(),
        forall|i: int|
            0 <= i < words.len() ==> #[trigger] bulks(words)[i] == bulk(words[i]) && utf8_text(
                encode_utf8(words[i]),
            ) == Some(words[i]),
{
    assert forall|i: int| 0 <= i < words.len() implies utf8_text(encode_utf8(words[i])) == Some(
        words[i],
    ) by {
        lemma_bulk_text(words[i]);
    }
}

/// Law: `PING`, with or without further words, is read as PING.
pub proof fn law_read_ping(args: Seq<Seq<char>>)
    ensures
        command_of(request(seq!["PING"@] + args)) == CommandModel::Ping,
{
    lemma_names();
    lemma_request_items(seq!["PING"@] + args);
}

/// Law: `ECHO message` is read as ECHO of exactly that message.
pub proof fn law_read_echo(message: Seq<char>)
    ensures
        command_of(request(seq!["ECHO"@, message])) == CommandModel::Echo(message),
{
    lemma_names();
    lemma_request_items(seq!["ECHO"@, message]);
}

/// Law: `SET key value` is read as SET of that key to that value.
pub proof fn law_read_set(key: Seq<char>, value: Seq<char>)
    ensures
        command_of(request(seq!["SET"@, key, value])) == (CommandModel::SetKey { key, value }),
{
    lemma_names();
    lemma_request_items(seq!["SET"@, key, value]);
}

/// Law: `GET key`, `INCR key`, `DECR key` and `TTL key` are read as the
/// command of that name on that key.
pub proof fn law_read_one_key(key: Seq<char>)
    ensures
        command_of(request(seq!["GET"@, key])) == (CommandModel::Get { key }),
        command_of(request(seq!["INCR"@, key])) == (CommandModel::Incr { key }),
        command_of(request(seq!["DECR"@, key])) == (CommandModel::Decr { key }),
        command_of(request(seq!["TTL"@, key])) == (CommandModel::Ttl { key }),
{
    lemma_names();
    lemma_request_items(seq!["GET"@, key]);
    lemma_request_items(seq!["INCR"@, key]);
    lemma_request_items(seq!["DECR"@, key]);
    lemma_request_items(seq!["TTL"@, key]);
}

/// Law: `DEL k1 .. kn` and `EXISTS k1 .. kn`, for one key or more, are read
/// as the command of that name on exactly those keys, in that order; either
/// name without a key is refused.
pub proof fn law_read_many_keys(keys: Seq<Seq<char>>)
    requires
        keys.len() >= 1,
    ensures
        command_of(request(seq!["DEL"@] + keys)) == (CommandModel::Delete { keys }),
        command_of(request(seq!["EXISTS"@] + keys)) == (CommandModel::Exists { keys }),
        command_of(request(seq!["DEL"@])) == CommandModel::Unknown(
            "DEL"@ + " expects at least one key"@,
        ),
        command_of(request(seq!["EXISTS"@])) == CommandModel::Unknown(
            "EXISTS"@ + " expects at least one key"@,
        ),
{
    lemma_names();
    let del = seq!["DEL"@] + keys;
    let ex = seq!["EXISTS"@] + keys;
    lemma_request_items(del);
    lemma_request_items(ex);
    lemma_request_items(seq!["DEL"@]);
    lemma_request_items(seq!["EXISTS"@]);
    let di = bulks(del);
    let ei = bulks(ex);
    lemma_request_items(keys);
    let ki = bulks(keys);
    assert(di.subrange(1, di.len() as int) =~= ki);
    assert(ei.subrange(1, ei.len() as int) =~= ki);
    assert(crate::command::keys_text(ki) == Some(keys)) by {
        assert forall|i: int| 0 <= i < ki.len() implies #[trigger] crate::command::bulk_text(ki[i])
            is Some by {}
        assert(Seq::new(ki.len(), |i: int| crate::command::bulk_text(ki[i])->0) =~= keys);
    }
}

/// Law: `EXPIRE key n`, for the decimal digits of any `n`, is read as EXPIRE
/// of that key by exactly `n` seconds.
pub proof fn law_read_expire(key: Seq<char>, seconds: u64)
    ensures
        command_of(request(seq!["EXPIRE"@, key, decode_utf8(nat_text(seconds as nat))])) == (
        CommandModel::Expire { key, seconds }),
{
    lemma_names();
    let digits = nat_text(seconds as nat);
    crate::decimal::lemma_int_text_ascii(seconds as int);
    assert(int_text(seconds as int) == digits);
    crate::text::lemma_ascii_utf8(digits);
    crate::decimal::lemma_u64_text_roundtrip(seconds);
    lemma_request_items(seq!["EXPIRE"@, key, decode_utf8(digits)]);
}

/// Law: PING answers PONG and leaves the store alone.
pub proof fn law_ping(m: StoreModel, now: u64)
    ensures
        execute_model(CommandModel::Ping, m, now) == (RespModel::SimpleString("PONG"@), m),
{
}

/// Law: ECHO answers a bulk string of exactly the UTF-8 bytes of its
/// message, which read back as the message, and leaves the store alone.
pub proof fn law_echo(message: Seq<char>, m: StoreModel, now: u64)
    ensures
        ({
            let (reply, m2) = execute_model(CommandModel::Echo(message), m, now);
            &&& reply == RespModel::BulkString(encode_utf8(message))
            &&& decode_utf8(reply->BulkString_0) == message
            &&& m2 == m
        }),
{
}

/// Law: SET answers OK; afterwards the key holds the value, with no
/// timeout, at every time, and every other key is as it was.
pub proof fn law_set(key: Seq<char>, value: Seq<char>, m: StoreModel, now: u64)
    ensures
        ({
            let (reply, m2) = execute_model(CommandModel::SetKey { key, value }, m, now);
            &&& reply == RespModel::SimpleString("OK"@)
            &&& forall|t: u64| #[trigger] live(m2, key, t)
            &&& m2[key].value == value
            &&& m2[key].expires_at is None
            &&& forall|k: Seq<char>|
                k != key ==> (#[trigger] m2.contains_key(k) == m.contains_key(k) && (m.contains_key(k)
                    ==> m2[k] == m[k]))
        }),
{
}

/// Law: GET answers the bytes of the value of a live key and nil for a
/// missing or expired one; it changes no key's value and which keys are live.
pub proof fn law_get(key: Seq<char>, m: StoreModel, now: u64)
    ensures
        ({
            let (reply, m2) = execute_model(CommandModel::Get { key }, m, now);
            &&& live(m, key, now) ==> reply == RespModel::BulkString(encode_utf8(m[key].value))
            &&& !live(m, key, now) ==> reply == RespModel::Null
            &&& forall|k: Seq<char>|
                #[trigger] live(m2, k, now) == live(m, k, now) && (live(m, k, now) ==> m2[k] == m[k])
        }),
{
}

/// Law: DEL removes every key it names and touches no other; it answers how
/// many of the keys named (each counted once) held a live value, so a DEL of
/// one live key answers 1 and one of a missing or expired key answers 0.
pub proof fn law_del(keys: Seq<Seq<char>>, m: StoreModel, now: u64)
    requires
        keys.len() <= i64::MAX,
    ensures
        ({
            let (reply, m2) = execute_model(CommandModel::Delete { keys }, m, now);
            let named_live = keys.to_set().filter(|k: Seq<char>| live(m, k, now));
            &&& reply == RespModel::Integer(named_live.len() as i64)
            &&& named_live.len() <= keys.len()
            &&& forall|i: int| 0 <= i < keys.len() ==> !#[trigger] m2.contains_key(keys[i])
            &&& forall|k: Seq<char>|
                !keys.contains(k) ==> (#[trigger] m2.contains_key(k) == m.contains_key(k) && (
                m.contains_key(k) ==> m2[k] == m[k]))
            &&& keys.len() == 1 ==> reply == RespModel::Integer(
                if live(m, keys[0], now) {
                    1
                } else {
                    0
                },
            )
        }),
{
    let named_live = keys.to_set().filter(|k: Seq<char>| live(m, k, now));
    keys.lemma_cardinality_of_set();
    assert(named_live.subset_of(keys.to_set()));
    vstd::set_lib::lemma_len_subset(named_live, keys.to_set());
    assert forall|i: int| 0 <= i < keys.len() implies !#[trigger] execute_model(
        CommandModel::Delete { keys },
        m,
        now,
    ).1.contains_key(keys[i]) by {
        assert(keys.to_set().contains(keys[i]));
    }
    if keys.len() == 1 {
        let k = keys[0];
        assert(keys.to_set() =~= set![k]);
        if live(m, k, now) {
            assert(named_live =~= set![k]);
        } else {
            assert(named_live =~= Set::<Seq<char>>::empty());
        }
    }
}

/// Law: EXISTS answers how many of the keys named are live, one for each
/// time a live key is named, so one live key answers 1 and a missing or
/// expired one 0; it changes no key's value and which keys are live.
pub proof fn law_exists(keys: Seq<Seq<char>>, m: StoreModel, now: u64)
    requires
        keys.len() <= i64::MAX,
    ensures
        ({
            let (reply, m2) = execute_model(CommandModel::Exists { keys }, m, now);
            &&& keys.len() == 0 ==> reply == RespModel::Integer(0)
            &&& keys.len() > 0 ==> ({
                let (r1, _) = execute_model(CommandModel::Exists { keys: keys.drop_last() }, m, now);
                &&& r1 is Integer
                &&& reply == RespModel::Integer(
                    (r1->Integer_0 + if live(m, keys.last(), now) {
                        1int
                    } else {
                        0int
                    }) as i64,
                )
            })
            &&& keys.len() == 1 ==> reply == RespModel::Integer(
                if live(m, keys[0], now) {
                    1
                } else {
                    0
                },
            )
            &&& forall|k: Seq<char>|
                #[trigger] live(m2, k, now) == live(m, k, now) && (live(m, k, now) ==> m2[k] == m[k])
        }),
{
    crate::store::law_count_live_bounded(m, keys, now);
    if keys.len() > 0 {
        crate::store::law_count_live_bounded(m, keys.drop_last(), now);
    }
    if keys.len() == 1 {
        assert(keys.drop_last().len() == 0);
    }
}

/// Law: INCR and DECR add one to, or take one from, the number the key holds
/// (a missing or expired key holding 0). A number as reply is what the key
/// holds afterwards, as decimal text, and is one more (INCR) or one less
/// (DECR) than what it held before: a missing key answers 1 to INCR and -1
/// to DECR. Where the value is not an integer, or the step would leave the
/// `i64` range, the reply is an error and the key keeps its value.
pub proof fn law_counter_step(key: Seq<char>, up: bool, m: StoreModel, now: u64)
    ensures
        ({
            let c = if up {
                CommandModel::Incr { key }
            } else {
                CommandModel::Decr { key }
            };
            let delta: int = if up {
                1
            } else {
                -1
            };
            let (reply, m2) = execute_model(c, m, now);
            let held: Option<i64> = if live(m, key, now) {
                parse_i64_text(encode_utf8(m[key].value))
            } else {
                Some(0)
            };
            &&& !live(m, key, now) ==> reply == RespModel::Integer(delta as i64)
            &&& reply is Integer ==> {
                let n = reply->Integer_0;
                &&& live(m2, key, now)
                &&& encode_utf8(m2[key].value) == int_text(n as int)
                &&& parse_i64_text(encode_utf8(m2[key].value)) == Some(n)
                &&& held == Some((n - delta) as i64)
                &&& live(m, key, now) ==> m2[key].expires_at == m[key].expires_at
            }
            &&& (held is Some && i64::MIN <= held->0 + delta <= i64::MAX) ==> reply
                == RespModel::Integer((held->0 + delta) as i64)
            &&& held is None ==> reply == RespModel::Error(
                "ERR "@ + "value is not an integer or out of range"@,
            ) && m2 == m
            &&& (held is Some && !(i64::MIN <= held->0 + delta <= i64::MAX)) ==> reply
                == RespModel::Error("ERR "@ + "increment or decrement would overflow"@) && m2 == m
            &&& forall|k: Seq<char>|
                k != key ==> (#[trigger] m2.contains_key(k) == m.contains_key(k) && (m.contains_key(k)
                    ==> m2[k] == m[k]))
        }),
{
    let delta: int = if up {
        1
    } else {
        -1
    };
    if crate::store::counter_result(m, key, now, delta) is Ok {
        crate::store::lemma_counter_stored(m, key, now, delta);
    }
}

/// Law: EXPIRE on a live key answers 1 and gives it a timeout of exactly the
/// seconds asked for: it expires `1000 * seconds` milliseconds after `now`
/// (at the end of the clock where that lies beyond it), keeps its value until
/// then, and TTL at `now` answers those seconds. On a missing or expired key
/// it answers 0 and the key stays missing. No other key changes.
pub proof fn law_expire(key: Seq<char>, seconds: u64, m: StoreModel, now: u64)
    ensures
        ({
            let (reply, m2) = execute_model(CommandModel::Expire { key, seconds }, m, now);
            &&& live(m, key, now) ==> {
                &&& reply == RespModel::Integer(1)
                &&& m2.contains_key(key)
                &&& m2[key].value == m[key].value
                &&& now + 1000 * seconds <= u64::MAX ==> m2[key].expires_at == Some(
                    (now + 1000 * seconds) as u64,
                )
                &&& now + 1000 * seconds > u64::MAX ==> m2[key].expires_at == Some(u64::MAX)
                &&& now + 1000 * seconds <= u64::MAX ==> forall|t: u64|
                    #[trigger] live(m2, key, t) <==> t < now + 1000 * seconds
                &&& 0 < seconds && now + 1000 * seconds <= u64::MAX ==> execute_model(
                    CommandModel::Ttl { key },
                    m2,
                    now,
                ).0 == RespModel::Integer(seconds as i64)
            }
            &&& !live(m, key, now) ==> reply == RespModel::Integer(0) && !live(m2, key, now)
            &&& forall|k: Seq<char>|
                k != key ==> (#[trigger] m2.contains_key(k) == m.contains_key(k) && (m.contains_key(k)
                    ==> m2[k] == m[k]))
        }),
{
    if live(m, key, now) {
        crate::store::law_expire_deadline(m, key, seconds, now, now);
        assert(1000 * seconds == seconds * 1000);
        if now + 1000 * seconds <= u64::MAX {
            assert(seconds <= u64::MAX / 1000) by (nonlinear_arith)
                requires
                    1000 * seconds <= u64::MAX,
            ;
            assert(crate::store::deadline(now, seconds) == now + 1000 * seconds);
        }
    }
}

/// Law: TTL answers -2 for a missing or expired key, -1 for a live key
/// without a timeout, and otherwise the whole seconds left: the number `n`
/// with `1000 * n <= expires_at - now < 1000 * (n + 1)`. It changes no key's
/// value and which keys are live.
pub proof fn law_ttl(key: Seq<char>, m: StoreModel, now: u64)
    ensures
        ({
            let (reply, m2) = execute_model(CommandModel::Ttl { key }, m, now);
            &&& !live(m, key, now) ==> reply == RespModel::Integer(-2i64)
            &&& live(m, key, now) && m[key].expires_at is None ==> reply == RespModel::Integer(-1i64)
            &&& (live(m, key, now) && m[key].expires_at is Some) ==> {
                let t = m[key].expires_at->0;
                &&& reply is Integer
                &&& 0 <= reply->Integer_0
                &&& 1000 * reply->Integer_0 <= t - now < 1000 * (reply->Integer_0 + 1)
            }
            &&& forall|k: Seq<char>|
                #[trigger] live(m2, k, now) == live(m, k, now) && (live(m, k, now) ==> m2[k] == m[k])
        }),
{
    if live(m, key, now) && m[key].expires_at is Some {
        let t = m[key].expires_at->0;
        let d: int = t - now;
        assert(d > 0);
        assert(0 <= d / 1000 <= d);
        assert(1000 * (d / 1000) <= d < 1000 * (d / 1000 + 1));
    }
}

/// Law: a command that could not be read answers the error that says why,
/// and leaves the store alone.
pub proof fn law_unknown(reason: Seq<char>, m: StoreModel, now: u64)
    ensures
        execute_model(CommandModel::Unknown(reason), m, now) == (
        RespModel::Error("ERR "@ + reason), m),
{
}

} // verus!
