//! Laws of the store, the dispatcher and the durability log.

use vstd::prelude::*;
use vstd::string::{is_ascii_spec_bytes, StringSliceAdditionalSpecFns};
use crate::aof::{
    applied, bulk_content, command_of, command_value, is_logged, record_of, replayed, Replayed,
};
use crate::handler::{
    alternating, dispatch_answers, dispatched_store, handler_named, lists_hash, upper_all, Handler,
};
use crate::roundtrip::lemma_parse_encoding;
use crate::store::StoreView;
use crate::wire::{decoding, representable, DecodeError, ValueView, MAX_DEPTH};

verus! {

/// The bytes of the verbs under which the handlers are registered.
pub proof fn lemma_verb_bytes()
    ensures
        "PING".spec_bytes() == seq![80u8, 73u8, 78u8, 71u8],
        "SET".spec_bytes() == seq![83u8, 69u8, 84u8],
        "GET".spec_bytes() == seq![71u8, 69u8, 84u8],
        "HSET".spec_bytes() == seq![72u8, 83u8, 69u8, 84u8],
        "HGET".spec_bytes() == seq![72u8, 71u8, 69u8, 84u8],
        "HGETALL".spec_bytes() == seq![72u8, 71u8, 69u8, 84u8, 65u8, 76u8, 76u8],
{
    reveal_strlit("PING");
    reveal_strlit("SET");
    reveal_strlit("GET");
    reveal_strlit("HSET");
    reveal_strlit("HGET");
    reveal_strlit("HGETALL");
    is_ascii_spec_bytes("PING");
    is_ascii_spec_bytes("SET");
    is_ascii_spec_bytes("GET");
    is_ascii_spec_bytes("HSET");
    is_ascii_spec_bytes("HGET");
    is_ascii_spec_bytes("HGETALL");
    assert("PING".spec_bytes() =~= seq![80u8, 73u8, 78u8, 71u8]);
    assert("SET".spec_bytes() =~= seq![83u8, 69u8, 84u8]);
    assert("GET".spec_bytes() =~= seq![71u8, 69u8, 84u8]);
    assert("HSET".spec_bytes() =~= seq![72u8, 83u8, 69u8, 84u8]);
    assert("HGET".spec_bytes() =~= seq![72u8, 71u8, 69u8, 84u8]);
    assert("HGETALL".spec_bytes() =~= seq![72u8, 71u8, 69u8, 84u8, 65u8, 76u8, 76u8]);
}

/// Every handler is registered under its verb, and its verb is in upper
/// case already: a verb is found whatever the case of its letters.
pub proof fn lemma_registry(h: Handler)
    ensures
        upper_all(h.name()) == h.name(),
        handler_named(h.name()) == Some(h),
{
    lemma_verb_bytes();
    assert(upper_all(h.name()) =~= h.name());
    let p = "PING".spec_bytes();
    let s = "SET".spec_bytes();
    let g = "GET".spec_bytes();
    let hs = "HSET".spec_bytes();
    let hg = "HGET".spec_bytes();
    let ha = "HGETALL".spec_bytes();
    assert(p[0] != s[0] && p[0] != g[0] && p[0] != hs[0]);
    assert(s[0] != g[0] && s[0] != hs[0]);
    assert(g[0] != hs[0]);
    assert(hs[1] != hg[1] && hs[1] != ha[1]);
    assert(hg.len() != ha.len());
}

/// Last write wins: after `SET key first` and `SET key second`, `GET key`
/// answers `second` and nothing else. The verbs may be written in any case.
pub proof fn law_last_write_wins(
    store: StoreView,
    set: Seq<u8>,
    get: Seq<u8>,
    key: Seq<u8>,
    first: Seq<u8>,
    second: Seq<u8>,
)
    requires
        upper_all(set) == "SET".spec_bytes(),
        upper_all(get) == "GET".spec_bytes(),
    ensures
        ({
            let once = dispatched_store(store, set, seq![key, first]);
            let twice = dispatched_store(once, set, seq![key, second]);
            forall|reply: ValueView| #[trigger]
                dispatch_answers(twice, get, seq![key], reply) <==> reply
                    == ValueView::BulkString(Some(second))
        }),
{
    lemma_registry(Handler::SetKey);
    lemma_registry(Handler::GetKey);
}

/// The field at position `j` of a listing of fields and values in turn.
pub open spec fn field_at(items: Seq<ValueView>, j: int) -> ValueView {
    items[2 * j]
}

/// The value at position `j` of a listing of fields and values in turn.
pub open spec fn value_at(items: Seq<ValueView>, j: int) -> ValueView {
    items[2 * j + 1]
}

/// A reply that lists a hash of N fields is an array of exactly 2N
/// elements; each pair in it is a field of the hash and the value of that
/// field; and each field of the hash comes in exactly one pair.
pub proof fn law_listing_is_exact(reply: ValueView, m: Map<Seq<u8>, Seq<u8>>)
    requires
        lists_hash(reply, m),
    ensures
        m.dom().finite(),
        reply matches ValueView::Array(Some(items)) && {
            &&& items.len() == 2 * m.dom().len()
            &&& forall|j: int|
                0 <= j < m.dom().len() ==> ((#[trigger] field_at(items, j)) matches ValueView::BulkString(
                    Some(f),
                ) && m.contains_key(f) && value_at(items, j) == ValueView::BulkString(Some(m[f])))
            &&& forall|f: Seq<u8>| #[trigger]
                m.contains_key(f) ==> exists|j: int|
                    0 <= j < m.dom().len() && #[trigger] field_at(items, j)
                        == ValueView::BulkString(Some(f))
            &&& forall|j: int, k: int|
                0 <= j < k < m.dom().len() ==> #[trigger] field_at(items, j) != #[trigger] field_at(
                    items,
                    k,
                )
        },
{
    let fields = choose|fields: Seq<Seq<u8>>|
        fields.no_duplicates() && fields.to_set() == m.dom() && reply == ValueView::Array(
            Some(#[trigger] alternating(fields, m)),
        );
    let items = alternating(fields, m);
    fields.unique_seq_to_set();
    assert forall|j: int| 0 <= j < fields.len() implies field_at(items, j)
        == ValueView::BulkString(Some(fields[j])) && value_at(items, j) == ValueView::BulkString(
        Some(m[fields[j]]),
    ) && m.contains_key(fields[j]) by {
        assert((2 * j) / 2 == j && (2 * j) % 2 == 0);
        assert((2 * j + 1) / 2 == j && (2 * j + 1) % 2 == 1);
        assert(fields.to_set().contains(fields[j]));
    }
    assert forall|f: Seq<u8>| #[trigger] m.contains_key(f) implies exists|j: int|
        0 <= j < m.dom().len() && #[trigger] field_at(items, j) == ValueView::BulkString(
            Some(f),
        ) by {
        assert(fields.to_set().contains(f));
        let j = fields.index_of(f);
        assert(field_at(items, j) == ValueView::BulkString(Some(f)));
    }
}

/// `HGETALL` on a hash answers with a listing of that hash, whatever the
/// case of the verb; on a hash that is not there, with the empty array.
pub proof fn law_hgetall_lists_the_hash(
    store: StoreView,
    verb: Seq<u8>,
    key: Seq<u8>,
    reply: ValueView,
)
    requires
        upper_all(verb) == "HGETALL".spec_bytes(),
        dispatch_answers(store, verb, seq![key], reply),
    ensures
        lists_hash(reply, store.fields(key)),
        !store.hashes.contains_key(key) ==> reply == ValueView::Array(
            Some(Seq::<ValueView>::empty()),
        ),
{
    lemma_registry(Handler::HGetAll);
    if !store.hashes.contains_key(key) {
        let m = store.fields(key);
        let fields = choose|fields: Seq<Seq<u8>>|
            fields.no_duplicates() && fields.to_set() == m.dom() && reply == ValueView::Array(
                Some(#[trigger] alternating(fields, m)),
            );
        if fields.len() > 0 {
            assert(fields.to_set().contains(fields[0]));
        }
        assert(alternating(fields, m) =~= Seq::<ValueView>::empty());
    }
}

// ---------------------------------------------------------------------------
// The durability log
// ---------------------------------------------------------------------------

/// A command: its verb and its arguments.
pub type CommandView = (Seq<u8>, Seq<Seq<u8>>);

/// The store after the commands are dispatched in order.
pub open spec fn run(store: StoreView, commands: Seq<CommandView>) -> StoreView
    decreases commands.len(),
{
    if commands.len() == 0 {
        store
    } else {
        run(
            dispatched_store(store, commands[0].0, commands[0].1),
            commands.drop_first(),
        )
    }
}

/// The log that dispatching the commands in order leaves behind: the
/// records of those that belong in the log.
pub open spec fn log_of(commands: Seq<CommandView>) -> Seq<u8>
    decreases commands.len(),
{
    if commands.len() == 0 {
        Seq::empty()
    } else {
        let first = if is_logged(commands[0].0, commands[0].1) {
            record_of(commands[0].0, commands[0].1)
        } else {
            Seq::empty()
        };
        first + log_of(commands.drop_first())
    }
}

/// Whether the wire format can carry the command: the lengths of the verb
/// and of the arguments, and the number of elements, fit a 64-bit header.
pub open spec fn sendable(command: CommandView) -> bool {
    &&& command.0.len() <= i64::MAX
    &&& command.1.len() < i64::MAX
    &&& forall|i: int| 0 <= i < command.1.len() ==> (#[trigger] command.1[i]).len() <= i64::MAX
}

/// Putting letters in upper case twice is putting them in upper case once.
pub proof fn lemma_upper_twice(s: Seq<u8>)
    ensures
        upper_all(upper_all(s)) == upper_all(s),
{
    assert(upper_all(upper_all(s)) =~= upper_all(s));
}

/// The value that carries a command carries that command, and the wire
/// format can carry it if it can carry the command.
pub proof fn lemma_command_value(verb: Seq<u8>, args: Seq<Seq<u8>>)
    ensures
        command_of(command_value(verb, args)) == Some((verb, args)),
        sendable((verb, args)) ==> representable(command_value(verb, args), MAX_DEPTH as nat),
{
    let items = command_value(verb, args)->Array_0->Some_0;
    assert forall|i: int| 0 <= i < items.len() implies bulk_content(#[trigger] items[i]) is Some by {}
    let got = command_of(command_value(verb, args))->Some_0;
    assert(got.1 =~= args);
    if sendable((verb, args)) {
        assert forall|i: int| 0 <= i < items.len() implies representable(
            #[trigger] items[i],
            (MAX_DEPTH - 1) as nat,
        ) by {
            if i > 0 {
                assert(args[i - 1].len() <= i64::MAX);
            }
        }
    }
}

/// A command that does not belong in the log leaves the store as it is.
pub proof fn lemma_unlogged_changes_nothing(store: StoreView, verb: Seq<u8>, args: Seq<Seq<u8>>)
    requires
        !is_logged(verb, args),
    ensures
        dispatched_store(store, verb, args) == store,
{
}

/// Replaying one record, with more log after it, carries out its command
/// and goes on with the rest.
pub proof fn lemma_replay_record(store: StoreView, verb: Seq<u8>, args: Seq<Seq<u8>>, rest: Seq<u8>)
    requires
        sendable((verb, args)),
        is_logged(verb, args),
    ensures
        ({
            let record = record_of(verb, args);
            let after = replayed(dispatched_store(store, verb, args), rest);
            &&& record.len() > 0
            &&& replayed(store, record + rest) == Replayed {
                store: after.store,
                read: record.len() + after.read,
                corrupt: after.corrupt,
            }
        }),
{
    let name = upper_all(verb);
    let value = command_value(name, args);
    let record = record_of(verb, args);
    lemma_upper_twice(verb);
    lemma_command_value(name, args);
    assert(sendable((name, args)));
    lemma_parse_encoding(value, rest, MAX_DEPTH as nat, false);
    assert(decoding(record + rest) == Ok::<(ValueView, int), DecodeError>(
        (value, record.len() as int),
    ));
    assert(record.len() > 0);
    assert((record + rest).skip(record.len() as int) =~= rest);
    assert(applied(store, value) == dispatched_store(store, verb, args));
}

/// Replay restores the store: whatever commands are dispatched on a
/// store, replaying on the same store the log that they leave behind gives
/// the store that they gave, reads the whole log and finds nothing wrong
/// with it. With the empty store at the start this is a restart.
pub proof fn law_replay_restores(store: StoreView, commands: Seq<CommandView>)
    requires
        forall|i: int| 0 <= i < commands.len() ==> sendable(#[trigger] commands[i]),
    ensures
        replayed(store, log_of(commands)) == (Replayed {
            store: run(store, commands),
            read: log_of(commands).len() as int,
            corrupt: false,
        }),
    decreases commands.len(),
{
    if commands.len() == 0 {
        assert(decoding(Seq::<u8>::empty()) == Err::<(ValueView, int), DecodeError>(
            DecodeError::Incomplete,
        ));
    } else {
        let (verb, args) = commands[0];
        let rest = commands.drop_first();
        let next = dispatched_store(store, verb, args);
        assert(sendable(commands[0]));
        assert forall|i: int| 0 <= i < rest.len() implies sendable(#[trigger] rest[i]) by {
            assert(rest[i] == commands[i + 1]);
        }
        law_replay_restores(next, rest);
        if is_logged(verb, args) {
            lemma_replay_record(store, verb, args, log_of(rest));
        } else {
            lemma_unlogged_changes_nothing(store, verb, args);
            assert(log_of(commands) =~= log_of(rest));
        }
    }
}

} // verus!
