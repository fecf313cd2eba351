//! The command registry and the dispatcher.
//!
//! A command is a verb and its arguments, all byte strings. The registry maps
//! a verb in upper case to a handler, which has an arity rule, a flag that
//! says whether it changes the store, and a reply for every store and every
//! argument list.

use vstd::prelude::*;
use vstd::slice::slice_to_vec;
use vstd::string::StringSliceAdditionalSpecFns;
use crate::resp::{lemma_views_of, views_of, Value};
use crate::store::{same_bytes, table_view, Store, StoreView};
use crate::wire::ValueView;

verus! {

/// A registered command.
#[derive(Clone, Copy, Debug, PartialEq, Eq, Structural)]
pub enum Handler {
    Ping,
    SetKey,
    GetKey,
    HSet,
    HGet,
    HGetAll,
}

/// The upper-case form of an ASCII letter; any other byte is itself.
pub open spec fn upper(b: u8) -> u8 {
    if 97 <= b <= 122 {
        (b - 32) as u8
    } else {
        b
    }
}

/// `s` with its ASCII letters in upper case.
pub open spec fn upper_all(s: Seq<u8>) -> Seq<u8> {
    Seq::new(s.len(), |i: int| upper(s[i]))
}

/// The views of a list of byte strings.
pub open spec fn byte_views(args: Seq<Vec<u8>>) -> Seq<Seq<u8>> {
    Seq::new(args.len(), |i: int| args[i]@)
}

/// The message for a verb that the registry does not know.
pub open spec fn unknown_command_text(verb: Seq<u8>) -> Seq<u8> {
    "ERR unknown command '".spec_bytes() + verb + "'".spec_bytes()
}

/// The message for an argument list that breaks the arity rule of `verb`.
pub open spec fn wrong_arity_text(verb: Seq<u8>) -> Seq<u8> {
    "ERR wrong number of arguments for '".spec_bytes() + verb + "' command".spec_bytes()
}

/// The handler registered under `name`, which is matched as it stands.
pub open spec fn handler_named(name: Seq<u8>) -> Option<Handler> {
    if name == "PING".spec_bytes() {
        Some(Handler::Ping)
    } else if name == "SET".spec_bytes() {
        Some(Handler::SetKey)
    } else if name == "GET".spec_bytes() {
        Some(Handler::GetKey)
    } else if name == "HSET".spec_bytes() {
        Some(Handler::HSet)
    } else if name == "HGET".spec_bytes() {
        Some(Handler::HGet)
    } else if name == "HGETALL".spec_bytes() {
        Some(Handler::HGetAll)
    } else {
        None
    }
}

/// Fields and their values in turn: the field at `fields[0]`, its value,
/// the field at `fields[1]`, its value, and so on, as bulk strings.
pub open spec fn alternating(fields: Seq<Seq<u8>>, m: Map<Seq<u8>, Seq<u8>>) -> Seq<ValueView> {
    Seq::new(
        2 * fields.len(),
        |i: int|
            if i % 2 == 0 {
                ValueView::BulkString(Some(fields[i / 2]))
            } else {
                ValueView::BulkString(Some(m[fields[i / 2]]))
            },
    )
}

/// Whether `reply` lists the hash `m`: it is the array of fields and values
/// in turn, for some order of the fields of `m` in which each comes once.
pub open spec fn lists_hash(reply: ValueView, m: Map<Seq<u8>, Seq<u8>>) -> bool {
    exists|fields: Seq<Seq<u8>>|
        fields.no_duplicates() && fields.to_set() == m.dom() && reply == ValueView::Array(
            Some(#[trigger] alternating(fields, m)),
        )
}

impl Handler {
    /// The verb under which the handler is registered.
    pub open spec fn name(self) -> Seq<u8> {
        match self {
            Handler::Ping => "PING".spec_bytes(),
            Handler::SetKey => "SET".spec_bytes(),
            Handler::GetKey => "GET".spec_bytes(),
            Handler::HSet => "HSET".spec_bytes(),
            Handler::HGet => "HGET".spec_bytes(),
            Handler::HGetAll => "HGETALL".spec_bytes(),
        }
    }

    /// The smallest number of arguments that the handler takes.
    pub open spec fn min_args(self) -> nat {
        match self {
            Handler::Ping => 0,
            Handler::SetKey => 2,
            Handler::GetKey => 1,
            Handler::HSet => 3,
            Handler::HGet => 2,
            Handler::HGetAll => 1,
        }
    }

    /// The largest number of arguments that the handler takes.
    pub open spec fn max_args(self) -> nat {
        match self {
            Handler::Ping => 1,
            Handler::SetKey => 2,
            Handler::GetKey => 1,
            Handler::HSet => 3,
            Handler::HGet => 2,
            Handler::HGetAll => 1,
        }
    }

    /// Whether `count` arguments meet the arity rule.
    pub open spec fn accepts(self, count: nat) -> bool {
        self.min_args() <= count <= self.max_args()
    }

    /// Whether the handler changes the store, so that a command it has
    /// carried out belongs in the durability log.
    pub open spec fn mutating(self) -> bool {
        self == Handler::SetKey || self == Handler::HSet
    }

    /// The store after the handler is called with `args`. A call that
    /// breaks the arity rule leaves the store as it is.
    pub open spec fn store_after(self, store: StoreView, args: Seq<Seq<u8>>) -> StoreView {
        if !self.accepts(args.len()) {
            store
        } else {
            match self {
                Handler::SetKey => store.set(args[0], args[1]),
                Handler::HSet => store.hset(args[0], args[1], args[2]),
                _ => store,
            }
        }
    }

    /// Whether `reply` is what the handler answers when called with `args`
    /// on `store`. All replies but that of `HGETALL` are determined; that
    /// one is determined up to the order of the fields.
    pub open spec fn answers(self, store: StoreView, args: Seq<Seq<u8>>, reply: ValueView) -> bool {
        if !self.accepts(args.len()) {
            reply == ValueView::Error(wrong_arity_text(self.name()))
        } else {
            match self {
                Handler::Ping => reply == ValueView::SimpleString(
                    if args.len() == 0 {
                        "PONG".spec_bytes()
                    } else {
                        args[0]
                    },
                ),
                Handler::SetKey => reply == ValueView::SimpleString("OK".spec_bytes()),
                Handler::GetKey => reply == ValueView::BulkString(
                    if store.strings.contains_key(args[0]) {
                        Some(store.strings[args[0]])
                    } else {
                        None
                    },
                ),
                Handler::HSet => reply == ValueView::SimpleString("OK".spec_bytes()),
                Handler::HGet => reply == ValueView::BulkString(store.hget(args[0], args[1])),
                Handler::HGetAll => lists_hash(reply, store.fields(args[0])),
            }
        }
    }

    /// The verb under which the handler is registered.
    pub fn verb(&self) -> (r: Vec<u8>)
        ensures
            r@ == self.name(),
    {
        match self {
            Handler::Ping => slice_to_vec("PING".as_bytes()),
            Handler::SetKey => slice_to_vec("SET".as_bytes()),
            Handler::GetKey => slice_to_vec("GET".as_bytes()),
            Handler::HSet => slice_to_vec("HSET".as_bytes()),
            Handler::HGet => slice_to_vec("HGET".as_bytes()),
            Handler::HGetAll => slice_to_vec("HGETALL".as_bytes()),
        }
    }

    /// The arity rule: the smallest and the largest number of arguments.
    pub fn arity(&self) -> (r: (usize, usize))
        ensures
            r.0 == self.min_args(),
            r.1 == self.max_args(),
    {
        match self {
            Handler::Ping => (0, 1),
            Handler::SetKey => (2, 2),
            Handler::GetKey => (1, 1),
            Handler::HSet => (3, 3),
            Handler::HGet => (2, 2),
            Handler::HGetAll => (1, 1),
        }
    }

    /// Whether the handler changes the store.
    pub fn is_mutating(&self) -> (r: bool)
        ensures
            r == self.mutating(),
    {
        match self {
            Handler::SetKey => true,
            Handler::HSet => true,
            _ => false,
        }
    }

    /// Calls the handler with `args` on `store`. An argument list that
    /// breaks the arity rule is answered with an error, and the store is
    /// left alone.
    pub fn call(&self, store: &mut Store, args: &Vec<Vec<u8>>) -> (reply: Value)
        ensures
            final(store)@ == self.store_after(old(store)@, byte_views(args@)),
            self.answers(old(store)@, byte_views(args@), reply@),
    {
        let (min, max) = self.arity();
        if args.len() < min || args.len() > max {
            let name = self.verb();
            return Value::Error(wrong_arity_message(name.as_slice()));
        }
        match self {
            Handler::Ping => ping_handler(args),
            Handler::SetKey => set_handler(store, args),
            Handler::GetKey => fn_get_handler(store, args),
            Handler::HSet => hset_handler(store, args),
            Handler::HGet => hget_handler(store, args),
            Handler::HGetAll => hgetall_handler(store, args),
        }
    }
}

fn concat3(a: &[u8], b: &[u8], c: &[u8]) -> (r: Vec<u8>)
    ensures
        r@ == a@ + b@ + c@,
{
    let mut r = slice_to_vec(a);
    r.extend_from_slice(b);
    r.extend_from_slice(c);
    assert(r@ =~= a@ + b@ + c@);
    r
}

fn wrong_arity_message(verb: &[u8]) -> (r: Vec<u8>)
    ensures
        r@ == wrong_arity_text(verb@),
{
    concat3("ERR wrong number of arguments for '".as_bytes(), verb, "' command".as_bytes())
}

fn unknown_command_message(verb: &[u8]) -> (r: Vec<u8>)
    ensures
        r@ == unknown_command_text(verb@),
{
    concat3("ERR unknown command '".as_bytes(), verb, "'".as_bytes())
}

fn ok_reply() -> (r: Value)
    ensures
        r@ == ValueView::SimpleString("OK".spec_bytes()),
{
    Value::SimpleString(slice_to_vec("OK".as_bytes()))
}

/// `PING`: answers `PONG`, or echoes its argument.
fn ping_handler(args: &Vec<Vec<u8>>) -> (reply: Value)
    requires
        Handler::Ping.accepts(args.len() as nat),
    ensures
        forall|store: StoreView| Handler::Ping.answers(store, byte_views(args@), reply@),
{
    if args.len() == 0 {
        Value::SimpleString(slice_to_vec("PONG".as_bytes()))
    } else {
        Value::SimpleString(slice_to_vec(args[0].as_slice()))
    }
}

/// `GET key`: the value under the key, or the null bulk string.
fn fn_get_handler(store: &Store, args: &Vec<Vec<u8>>) -> (reply: Value)
    requires
        Handler::GetKey.accepts(args.len() as nat),
    ensures
        Handler::GetKey.answers(store@, byte_views(args@), reply@),
{
    Value::BulkString(store.get(args[0].as_slice()))
}

/// `SET key value`: writes the value under the key.
fn set_handler(store: &mut Store, args: &Vec<Vec<u8>>) -> (reply: Value)
    requires
        Handler::SetKey.accepts(args.len() as nat),
    ensures
        final(store)@ == Handler::SetKey.store_after(old(store)@, byte_views(args@)),
        Handler::SetKey.answers(old(store)@, byte_views(args@), reply@),
{
    store.set(args[0].as_slice(), args[1].as_slice());
    ok_reply()
}

/// `HSET hash field value`: writes the value under the field of the hash.
fn hset_handler(store: &mut Store, args: &Vec<Vec<u8>>) -> (reply: Value)
    requires
        Handler::HSet.accepts(args.len() as nat),
    ensures
        final(store)@ == Handler::HSet.store_after(old(store)@, byte_views(args@)),
        Handler::HSet.answers(old(store)@, byte_views(args@), reply@),
{
    store.hset(args[0].as_slice(), args[1].as_slice(), args[2].as_slice());
    ok_reply()
}

/// `HGET hash field`: the value under the field of the hash, or the null
/// bulk string where the hash or the field is missing.
fn hget_handler(store: &Store, args: &Vec<Vec<u8>>) -> (reply: Value)
    requires
        Handler::HGet.accepts(args.len() as nat),
    ensures
        Handler::HGet.answers(store@, byte_views(args@), reply@),
{
    Value::BulkString(store.hget(args[0].as_slice(), args[1].as_slice()))
}

/// `HGETALL hash`: the fields of the hash and their values in turn; the
/// empty array where the hash is missing.
fn hgetall_handler(store: &Store, args: &Vec<Vec<u8>>) -> (reply: Value)
    requires
        Handler::HGetAll.accepts(args.len() as nat),
    ensures
        Handler::HGetAll.answers(store@, byte_views(args@), reply@),
{
    let mut items: Vec<Value> = Vec::new();
    let ghost m = store@.fields(args[0]@);
    let ghost order = Seq::<Seq<u8>>::empty();
    match store.fields(args[0].as_slice()) {
        Some(fields) => {
            let n = fields.len();
            proof {
                order = fields.order();
            }
            let mut i: usize = 0;
            while i < n
                invariant
                    i <= n,
                    n == fields.order().len(),
                    m == table_view(*fields),
                    forall|key: Seq<u8>| fields.order().contains(key) <==> fields@.contains_key(key),
                    items.len() == 2 * i,
                    views_of(items@) == alternating(fields.order().take(i as int), m),
                decreases n - i,
            {
                let (f, v) = fields.entry(i);
                let ghost before = items@;
                items.push(Value::BulkString(Some(slice_to_vec(f.as_slice()))));
                items.push(Value::BulkString(Some(slice_to_vec(v.as_slice()))));
                proof {
                    let prefix = fields.order().take(i as int);
                    let next = fields.order().take(i + 1);
                    lemma_views_of(before);
                    lemma_views_of(items@);
                    assert forall|k: int| 0 <= k < 2 * (i + 1) implies views_of(items@)[k]
                        == alternating(next, m)[k] by {
                        if k < 2 * i {
                            assert(views_of(items@)[k] == views_of(before)[k]);
                            assert(alternating(prefix, m)[k] == alternating(next, m)[k]);
                        }
                    }
                    assert(views_of(items@) =~= alternating(next, m));
                }
                i += 1;
            }
            proof {
                assert(fields.order().take(n as int) =~= fields.order());
                assert(order.to_set() =~= m.dom());
            }
        },
        None => {
            proof {
                lemma_views_of(items@);
                assert(views_of(items@) =~= alternating(order, m));
                assert(order.to_set() =~= m.dom());
            }
        },
    }
    Value::Array(Some(items))
}

/// The handler registered under `command`. The verb is matched as it
/// stands: the registry holds upper-case verbs.
pub fn get_handler(command: &str) -> (r: Option<Handler>)
    ensures
        r == handler_named(command.spec_bytes()),
{
    lookup(command.as_bytes())
}

pub fn lookup(name: &[u8]) -> (r: Option<Handler>)
    ensures
        r == handler_named(name@),
{
    if same_bytes(name, "PING".as_bytes()) {
        Some(Handler::Ping)
    } else if same_bytes(name, "SET".as_bytes()) {
        Some(Handler::SetKey)
    } else if same_bytes(name, "GET".as_bytes()) {
        Some(Handler::GetKey)
    } else if same_bytes(name, "HSET".as_bytes()) {
        Some(Handler::HSet)
    } else if same_bytes(name, "HGET".as_bytes()) {
        Some(Handler::HGet)
    } else if same_bytes(name, "HGETALL".as_bytes()) {
        Some(Handler::HGetAll)
    } else {
        None
    }
}

/// `verb` with its ASCII letters in upper case.
pub fn normalize(verb: &[u8]) -> (r: Vec<u8>)
    ensures
        r@ == upper_all(verb@),
{
    let mut r: Vec<u8> = Vec::new();
    let mut i: usize = 0;
    while i < verb.len()
        invariant
            i <= verb.len(),
            r@ == upper_all(verb@).take(i as int),
        decreases verb.len() - i,
    {
        let b = verb[i];
        let u: u8 = if 97 <= b && b <= 122 { b - 32 } else { b };
        r.push(u);
        assert(r@ =~= upper_all(verb@).take(i + 1));
        i += 1;
    }
    assert(upper_all(verb@).take(verb.len() as int) =~= upper_all(verb@));
    r
}

/// The store after `verb` is dispatched with `args`.
pub open spec fn dispatched_store(store: StoreView, verb: Seq<u8>, args: Seq<Seq<u8>>) -> StoreView {
    match handler_named(upper_all(verb)) {
        Some(h) => h.store_after(store, args),
        None => store,
    }
}

/// Whether `reply` is what dispatching `verb` with `args` on `store`
/// answers.
pub open spec fn dispatch_answers(
    store: StoreView,
    verb: Seq<u8>,
    args: Seq<Seq<u8>>,
    reply: ValueView,
) -> bool {
    match handler_named(upper_all(verb)) {
        Some(h) => h.answers(store, args, reply),
        None => reply == ValueView::Error(unknown_command_text(upper_all(verb))),
    }
}

/// Whether dispatching `verb` with `args` changes the store, or may: the
/// verb names a handler that changes the store, and the arguments meet the
/// handler's arity rule.
pub open spec fn changes_store(verb: Seq<u8>, args: Seq<Seq<u8>>) -> bool {
    match handler_named(upper_all(verb)) {
        Some(h) => h.mutating() && h.accepts(args.len()),
        None => false,
    }
}

/// Dispatches a command that only reads the store, with shared access. A
/// command that changes the store is not carried out: `None` says that it
/// needs exclusive access.
pub fn dispatch_shared(store: &Store, verb: &[u8], args: &Vec<Vec<u8>>) -> (r: Option<Value>)
    ensures
        match r {
            Some(reply) => !changes_store(verb@, byte_views(args@)) && dispatch_answers(
                store@,
                verb@,
                byte_views(args@),
                reply@,
            ),
            None => changes_store(verb@, byte_views(args@)),
        },
{
    let name = normalize(verb);
    match lookup(name.as_slice()) {
        Some(h) => {
            let (min, max) = h.arity();
            if args.len() < min || args.len() > max {
                let label = h.verb();
                return Some(Value::Error(wrong_arity_message(label.as_slice())));
            }
            match h {
                Handler::Ping => Some(ping_handler(args)),
                Handler::GetKey => Some(fn_get_handler(store, args)),
                Handler::HGet => Some(hget_handler(store, args)),
                Handler::HGetAll => Some(hgetall_handler(store, args)),
                Handler::SetKey => None,
                Handler::HSet => None,
            }
        },
        None => Some(Value::Error(unknown_command_message(name.as_slice()))),
    }
}

/// Dispatches a command: puts the verb in upper case and looks it up; an
/// unknown verb is answered with an error, an argument list that breaks
/// the handler's arity rule likewise, without the handler being run;
/// otherwise the handler is run on the store and its reply returned.
pub fn dispatch(store: &mut Store, verb: &[u8], args: &Vec<Vec<u8>>) -> (reply: Value)
    ensures
        final(store)@ == dispatched_store(old(store)@, verb@, byte_views(args@)),
        dispatch_answers(old(store)@, verb@, byte_views(args@), reply@),
{
    let name = normalize(verb);
    match lookup(name.as_slice()) {
        Some(h) => h.call(store, args),
        None => Value::Error(unknown_command_message(name.as_slice())),
    }
}

} // verus!
