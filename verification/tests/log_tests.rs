use crache::aof::{apply, replay, Command, CorruptLog};
use crache::handler::dispatch;
use crache::resp::{decode, Value};
use crache::session::{step, Step};
use crache::store::Store;

fn bytes(s: &str) -> Vec<u8> {
    s.as_bytes().to_vec()
}

fn command(words: &[&str]) -> Command {
    Command { verb: bytes(words[0]), args: words[1..].iter().map(|w| bytes(w)).collect() }
}

fn request(words: &[&str]) -> Vec<u8> {
    command(words).to_value().marshal()
}

/// What a client can see of a store: the replies to a fixed set of reads.
fn observed(store: &mut Store) -> Vec<Value> {
    let mut seen = Vec::new();
    for key in ["a", "b", "c", "h", "g", "k", "key", ""] {
        seen.push(dispatch(store, b"GET", &vec![bytes(key)]));
        let listing = dispatch(store, b"HGETALL", &vec![bytes(key)]);
        let items = match listing {
            Value::Array(Some(items)) => items,
            other => panic!("not an array: {:?}", other),
        };
        let mut pairs: Vec<(Vec<u8>, Vec<u8>)> = Vec::new();
        for i in (0..items.len()).step_by(2) {
            match (&items[i], &items[i + 1]) {
                (Value::BulkString(Some(f)), Value::BulkString(Some(v))) => {
                    pairs.push((f.clone(), v.clone()))
                }
                other => panic!("not a pair: {:?}", other),
            }
        }
        pairs.sort();
        for (f, v) in pairs {
            seen.push(Value::BulkString(Some(f)));
            seen.push(Value::BulkString(Some(v)));
        }
        seen.push(Value::Array(None));
    }
    seen
}

#[test]
fn a_value_is_a_command_if_it_is_a_non_empty_array_of_bulk_strings() {
    let value = decode(b"*3\r\n$3\r\nSET\r\n$3\r\nkey\r\n$5\r\nvalue\r\n").unwrap().0;
    let c = Command::from_value(&value).unwrap();
    assert_eq!(c.verb, b"SET");
    assert_eq!(c.args, vec![bytes("key"), bytes("value")]);
    assert_eq!(c.to_value(), value);

    let c = Command::from_value(&decode(b"*1\r\n$4\r\nPING\r\n").unwrap().0).unwrap();
    assert_eq!(c.verb, b"PING");
    assert!(c.args.is_empty());

    for input in [
        &b"*0\r\n"[..],
        b"*-1\r\n",
        b"+PING\r\n",
        b":1\r\n",
        b"$4\r\nPING\r\n",
        b"$-1\r\n",
        b"*1\r\n+PING\r\n",
        b"*1\r\n$-1\r\n",
        b"*2\r\n$3\r\nGET\r\n:1\r\n",
        b"*2\r\n$3\r\nGET\r\n$-1\r\n",
        b"*2\r\n$3\r\nGET\r\n*1\r\n$1\r\nk\r\n",
        b"*2\r\n:1\r\n$3\r\nGET\r\n",
    ] {
        assert!(Command::from_value(&decode(input).unwrap().0).is_none(), "{:?}", input);
    }
}

#[test]
fn only_commands_that_change_the_store_are_logged() {
    assert!(command(&["SET", "k", "v"]).is_logged());
    assert!(command(&["set", "k", "v"]).is_logged());
    assert!(command(&["HSET", "h", "f", "v"]).is_logged());
    assert!(command(&["hSeT", "h", "f", "v"]).is_logged());
    assert!(!command(&["GET", "k"]).is_logged());
    assert!(!command(&["HGET", "h", "f"]).is_logged());
    assert!(!command(&["HGETALL", "h"]).is_logged());
    assert!(!command(&["PING"]).is_logged());
    assert!(!command(&["FOO", "k", "v"]).is_logged());
    // not carried out, so not logged
    assert!(!command(&["SET", "k"]).is_logged());
    assert!(!command(&["HSET", "h", "f"]).is_logged());
    assert!(!command(&["SET", "k", "v", "x"]).is_logged());
}

#[test]
fn a_record_is_the_canonical_encoding_with_the_verb_in_upper_case() {
    assert_eq!(
        command(&["SET", "key", "value"]).record(),
        b"*3\r\n$3\r\nSET\r\n$3\r\nkey\r\n$5\r\nvalue\r\n"
    );
    assert_eq!(
        command(&["set", "Key", "value"]).record(),
        b"*3\r\n$3\r\nSET\r\n$3\r\nKey\r\n$5\r\nvalue\r\n"
    );
    assert_eq!(
        command(&["hset", "h", "", "\r\n"]).record(),
        b"*4\r\n$4\r\nHSET\r\n$1\r\nh\r\n$0\r\n\r\n$2\r\n\r\n\r\n"
    );
}

#[test]
fn replaying_the_log_restores_the_store() {
    let requests: Vec<Vec<u8>> = vec![
        request(&["SET", "a", "1"]),
        request(&["GET", "a"]),
        request(&["set", "b", "2"]),
        request(&["HSET", "h", "f1", "x"]),
        request(&["SET", "a", "3"]),
        request(&["FOO", "a"]),
        request(&["HSET", "h", "f2", "y"]),
        request(&["HSET", "h"]),
        request(&["hset", "h", "f1", "z"]),
        request(&["HSET", "g", "", ""]),
        request(&["SET", "", "\r\n\x00"]),
        request(&["HGETALL", "h"]),
        request(&["PING"]),
        b":5\r\n".to_vec(),
    ];
    let mut store = Store::new();
    let mut log: Vec<u8> = Vec::new();
    for r in &requests {
        match step(&mut store, r) {
            Step::Replied { consumed, record, .. } => {
                assert_eq!(consumed, r.len());
                if let Some(record) = record {
                    log.extend_from_slice(&record);
                }
            }
            Step::Skipped { consumed } => assert_eq!(consumed, r.len()),
            other => panic!("unexpected step: {:?}", other),
        }
    }
    // eight of the commands changed the store
    assert_eq!(decode_all(&log).len(), 8);

    let mut restarted = Store::new();
    assert_eq!(replay(&mut restarted, &log), Ok(log.len()));
    assert_eq!(observed(&mut restarted), observed(&mut store));
    assert_eq!(restarted.get(b"a"), Some(bytes("3")));
    assert_eq!(restarted.get(b"b"), Some(bytes("2")));
    assert_eq!(restarted.get(b""), Some(b"\r\n\x00".to_vec()));
    assert_eq!(restarted.hget(b"h", b"f1"), Some(bytes("z")));
    assert_eq!(restarted.hget(b"h", b"f2"), Some(bytes("y")));
    assert_eq!(restarted.hget(b"g", b""), Some(vec![]));

    // replay does not care how often it is done on a fresh store
    let mut again = Store::new();
    assert_eq!(replay(&mut again, &log), Ok(log.len()));
    assert_eq!(observed(&mut again), observed(&mut store));
}

fn decode_all(mut bytes: &[u8]) -> Vec<Value> {
    let mut values = Vec::new();
    while let Ok((v, n)) = decode(bytes) {
        values.push(v);
        bytes = &bytes[n..];
    }
    values
}

#[test]
fn an_empty_log_gives_an_empty_store() {
    let mut store = Store::new();
    assert_eq!(replay(&mut store, b""), Ok(0));
    assert_eq!(store.get(b"k"), None);
}

#[test]
fn a_record_cut_short_at_the_end_is_dropped() {
    let mut log = request(&["SET", "a", "1"]);
    let whole = log.len();
    let second = request(&["SET", "b", "2"]);
    for cut in 0..second.len() {
        let mut torn = log.clone();
        torn.extend_from_slice(&second[..cut]);
        let mut store = Store::new();
        assert_eq!(replay(&mut store, &torn), Ok(whole), "cut at {}", cut);
        assert_eq!(store.get(b"a"), Some(bytes("1")));
        assert_eq!(store.get(b"b"), None);
    }
    log.extend_from_slice(&second);
    let mut store = Store::new();
    assert_eq!(replay(&mut store, &log), Ok(log.len()));
    assert_eq!(store.get(b"b"), Some(bytes("2")));
}

#[test]
fn a_corrupt_log_is_an_error() {
    let first = request(&["SET", "a", "1"]);
    let mut log = first.clone();
    log.extend_from_slice(b"*3\r\n$3\r\nSET\r\n$x\r\nb\r\n$1\r\n2\r\n");
    log.extend_from_slice(&request(&["SET", "c", "3"]));
    let mut store = Store::new();
    assert_eq!(replay(&mut store, &log), Err(CorruptLog { offset: first.len() }));
    // what came before the corruption was applied, what came after was not
    assert_eq!(store.get(b"a"), Some(bytes("1")));
    assert_eq!(store.get(b"c"), None);

    let mut store = Store::new();
    assert_eq!(replay(&mut store, b"garbage"), Err(CorruptLog { offset: 0 }));
    let mut store = Store::new();
    assert_eq!(
        replay(&mut store, b"*1\r\n$4\r\nPINGxx"),
        Err(CorruptLog { offset: 0 })
    );
}

#[test]
fn replay_passes_over_what_does_not_change_the_store() {
    let mut log = Vec::new();
    log.extend_from_slice(&request(&["FUTURE", "a", "1"]));
    log.extend_from_slice(&request(&["GET", "a"]));
    log.extend_from_slice(&request(&["SET", "a"]));
    log.extend_from_slice(b"+OK\r\n:12\r\n$-1\r\n*0\r\n*-1\r\n*1\r\n:1\r\n");
    log.extend_from_slice(&request(&["set", "a", "1"]));
    log.extend_from_slice(&request(&["PING", "x"]));
    let mut store = Store::new();
    assert_eq!(replay(&mut store, &log), Ok(log.len()));
    assert_eq!(store.get(b"a"), Some(bytes("1")));
    let mut expected = Store::new();
    expected.set(b"a", b"1");
    assert_eq!(observed(&mut store), observed(&mut expected));
}

#[test]
fn apply_carries_out_one_logged_command() {
    let mut store = Store::new();
    apply(&mut store, &command(&["SET", "k", "v"]).to_value());
    assert_eq!(store.get(b"k"), Some(bytes("v")));
    apply(&mut store, &command(&["HSET", "h", "f", "v"]).to_value());
    assert_eq!(store.hget(b"h", b"f"), Some(bytes("v")));
    apply(&mut store, &command(&["SET", "k"]).to_value());
    apply(&mut store, &command(&["NOPE", "k", "w"]).to_value());
    apply(&mut store, &Value::Integer(3));
    apply(&mut store, &Value::Array(Some(vec![])));
    assert_eq!(store.get(b"k"), Some(bytes("v")));
}
