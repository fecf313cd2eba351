//! The durability log: what goes into it, and how a store is rebuilt from it.
//!
//! The log is the concatenation of the canonical encodings of the commands
//! that changed the store, in the order in which they were carried out. It has
//! no header and no checksums. Replay decodes it from the start and carries
//! out each command again, without logging it a second time. A log that ends
//! in the middle of a record was cut short by a crash: replay stops there. A
//! log that holds malformed bytes is unreadable: replay reports it.

use vstd::prelude::*;
use vstd::slice::{slice_subrange, slice_to_vec};
use crate::handler::{
    byte_views, changes_store, dispatch, dispatched_store, lookup, normalize, upper_all,
};
use crate::resp::{decode, lemma_views_of, views_of, Value};
use crate::store::{Store, StoreView};
use crate::wire::{decoding, encoding, DecodeError, ValueView};

verus! {

/// A command: a verb and its arguments.
pub struct Command {
    pub verb: Vec<u8>,
    pub args: Vec<Vec<u8>>,
}

/// The content of a bulk string that is not null.
pub open spec fn bulk_content(v: ValueView) -> Option<Seq<u8>> {
    match v {
        ValueView::BulkString(Some(data)) => Some(data),
        _ => None,
    }
}

/// The verb and the arguments that a value carries, if it is a command: an
/// array that is not empty and holds only bulk strings that are not null.
pub open spec fn command_of(v: ValueView) -> Option<(Seq<u8>, Seq<Seq<u8>>)> {
    match v {
        ValueView::Array(Some(items)) => if items.len() > 0 && (forall|i: int|
            0 <= i < items.len() ==> bulk_content(#[trigger] items[i]) is Some) {
            Some(
                (
                    bulk_content(items[0])->Some_0,
                    Seq::new((items.len() - 1) as nat, |i: int| bulk_content(items[i + 1])->Some_0),
                ),
            )
        } else {
            None
        },
        _ => None,
    }
}

/// The value that carries a command: the array of the verb and the
/// arguments as bulk strings.
pub open spec fn command_value(verb: Seq<u8>, args: Seq<Seq<u8>>) -> ValueView {
    ValueView::Array(
        Some(
            Seq::new(
                args.len() + 1,
                |i: int|
                    if i == 0 {
                        ValueView::BulkString(Some(verb))
                    } else {
                        ValueView::BulkString(Some(args[i - 1]))
                    },
            ),
        ),
    )
}

/// The log record of a command: the canonical encoding of the command with
/// its verb in upper case.
pub open spec fn record_of(verb: Seq<u8>, args: Seq<Seq<u8>>) -> Seq<u8> {
    encoding(command_value(upper_all(verb), args))
}

/// Whether a command belongs in the log once it has been carried out:
/// it does if it changes the store.
pub open spec fn is_logged(verb: Seq<u8>, args: Seq<Seq<u8>>) -> bool {
    changes_store(verb, args)
}

/// The store after the value `v` from the log is applied: a command whose
/// verb names a handler that changes the store is carried out; a command
/// with another verb, known or not, and a value that is no command are
/// passed over.
pub open spec fn applied(store: StoreView, v: ValueView) -> StoreView {
    match command_of(v) {
        Some((verb, args)) => if is_logged(verb, args) {
            dispatched_store(store, verb, args)
        } else {
            store
        },
        None => store,
    }
}

/// How a replay of `log` on `store` ends.
pub struct Replayed {
    /// The store after the records that were read.
    pub store: StoreView,
    /// The number of bytes that the records that were read take.
    pub read: int,
    /// Whether the bytes after them are malformed.
    pub corrupt: bool,
}

/// Replay: values are decoded from the start of the log and applied one
/// by one, until the log ends, or ends in the middle of a value, or holds
/// malformed bytes.
pub open spec fn replayed(store: StoreView, log: Seq<u8>) -> Replayed
    decreases log.len(),
{
    match decoding(log) {
        Ok((v, n)) => if 0 < n <= log.len() {
            let rest = replayed(applied(store, v), log.skip(n));
            Replayed { store: rest.store, read: n + rest.read, corrupt: rest.corrupt }
        } else {
            Replayed { store, read: 0, corrupt: false }
        },
        Err(DecodeError::Incomplete) => Replayed { store, read: 0, corrupt: false },
        Err(DecodeError::Protocol) => Replayed { store, read: 0, corrupt: true },
    }
}

/// The log holds bytes that cannot be the start of any value.
#[derive(Clone, Copy, Debug, PartialEq, Eq)]
pub struct CorruptLog {
    /// Where the malformed bytes start; what lies before was applied.
    pub offset: usize,
}

impl Command {
    /// The command that `v` carries, if it carries one.
    pub fn from_value(v: &Value) -> (r: Option<Command>)
        ensures
            match r {
                Some(c) => command_of(v@) == Some((c.verb@, byte_views(c.args@))),
                None => command_of(v@) is None,
            },
    {
        let items = match v {
            Value::Array(Some(items)) => items,
            _ => {
                return None;
            },
        };
        if items.len() == 0 {
            return None;
        }
        proof {
            lemma_views_of(items@);
        }
        let verb = match &items[0] {
            Value::BulkString(Some(data)) => slice_to_vec(data.as_slice()),
            _ => {
                assert(bulk_content(views_of(items@)[0]) is None);
                return None;
            },
        };
        let mut args: Vec<Vec<u8>> = Vec::new();
        let mut i: usize = 1;
        while i < items.len()
            invariant
                1 <= i <= items.len(),
                args.len() == i - 1,
                v@ == ValueView::Array(Some(views_of(items@))),
                forall|j: int| 0 <= j < i ==> bulk_content(#[trigger] views_of(items@)[j]) is Some,
                forall|j: int|
                    0 <= j < i - 1 ==> (#[trigger] args[j])@ == bulk_content(
                        views_of(items@)[j + 1],
                    )->Some_0,
            decreases items.len() - i,
        {
            proof {
                lemma_views_of(items@);
            }
            match &items[i] {
                Value::BulkString(Some(data)) => {
                    args.push(slice_to_vec(data.as_slice()));
                },
                _ => {
                    assert(bulk_content(views_of(items@)[i as int]) is None);
                    return None;
                },
            }
            i += 1;
        }
        assert(byte_views(args@) =~= command_of(v@)->Some_0.1);
        Some(Command { verb, args })
    }

    /// The value that carries the command.
    pub fn to_value(&self) -> (v: Value)
        ensures
            v@ == command_value(self.verb@, byte_views(self.args@)),
    {
        let mut items: Vec<Value> = Vec::new();
        items.push(Value::BulkString(Some(slice_to_vec(self.verb.as_slice()))));
        let mut i: usize = 0;
        while i < self.args.len()
            invariant
                i <= self.args.len(),
                items.len() == i + 1,
                items[0]@ == ValueView::BulkString(Some(self.verb@)),
                forall|j: int|
                    1 <= j <= i ==> (#[trigger] items[j])@ == ValueView::BulkString(
                        Some(self.args[j - 1]@),
                    ),
            decreases self.args.len() - i,
        {
            items.push(Value::BulkString(Some(slice_to_vec(self.args[i].as_slice()))));
            i += 1;
        }
        proof {
            lemma_views_of(items@);
            assert(views_of(items@) =~= command_value(
                self.verb@,
                byte_views(self.args@),
            )->Array_0->Some_0);
        }
        Value::Array(Some(items))
    }

    /// Whether the command belongs in the log once it has been carried out.
    pub fn is_logged(&self) -> (r: bool)
        ensures
            r == is_logged(self.verb@, byte_views(self.args@)),
    {
        let name = normalize(self.verb.as_slice());
        match lookup(name.as_slice()) {
            Some(h) => {
                let (min, max) = h.arity();
                h.is_mutating() && min <= self.args.len() && self.args.len() <= max
            },
            None => false,
        }
    }

    /// The log record of the command.
    pub fn record(&self) -> (r: Vec<u8>)
        ensures
            r@ == record_of(self.verb@, byte_views(self.args@)),
    {
        let canonical = Command {
            verb: normalize(self.verb.as_slice()),
            args: copy_args(&self.args),
        };
        canonical.to_value().marshal()
    }
}

fn copy_args(args: &Vec<Vec<u8>>) -> (r: Vec<Vec<u8>>)
    ensures
        byte_views(r@) == byte_views(args@),
{
    let mut r: Vec<Vec<u8>> = Vec::new();
    let mut i: usize = 0;
    while i < args.len()
        invariant
            i <= args.len(),
            r.len() == i,
            forall|j: int| 0 <= j < i ==> (#[trigger] r[j])@ == args[j]@,
        decreases args.len() - i,
    {
        r.push(slice_to_vec(args[i].as_slice()));
        i += 1;
    }
    assert(byte_views(r@) =~= byte_views(args@));
    r
}

/// Applies one value from the log to the store.
pub fn apply(store: &mut Store, v: &Value)
    ensures
        final(store)@ == applied(old(store)@, v@),
{
    match Command::from_value(v) {
        Some(c) => {
            if c.is_logged() {
                let _reply = dispatch(store, c.verb.as_slice(), &c.args);
            }
        },
        None => {},
    }
}

/// Rebuilds `store` from `log`: applies the records of the log in order.
/// Gives the number of bytes that the records read take, which is where
/// appending goes on; a record cut short at the end of the log is not
/// counted. Malformed bytes end the replay with an error that says where
/// they start; the records before them have been applied.
pub fn replay(store: &mut Store, log: &[u8]) -> (r: Result<usize, CorruptLog>)
    ensures
        final(store)@ == replayed(old(store)@, log@).store,
        match r {
            Ok(read) => !replayed(old(store)@, log@).corrupt && read == replayed(
                old(store)@,
                log@,
            ).read,
            Err(e) => replayed(old(store)@, log@).corrupt && e.offset == replayed(
                old(store)@,
                log@,
            ).read,
        },
{
    let ghost whole = replayed(store@, log@);
    let mut at: usize = 0;
    assert(log@.skip(0) =~= log@);
    loop
        invariant
            at <= log.len(),
            whole == replayed(old(store)@, log@),
            whole.store == replayed(store@, log@.skip(at as int)).store,
            whole.read == at + replayed(store@, log@.skip(at as int)).read,
            whole.corrupt == replayed(store@, log@.skip(at as int)).corrupt,
        decreases log.len() - at,
    {
        let rest = slice_subrange(log, at, log.len());
        assert(rest@ =~= log@.skip(at as int));
        match decode(rest) {
            Ok((v, n)) => {
                assert(log@.skip(at as int).skip(n as int) =~= log@.skip(at + n));
                apply(store, &v);
                at = at + n;
            },
            Err(DecodeError::Incomplete) => {
                return Ok(at);
            },
            Err(DecodeError::Protocol) => {
                return Err(CorruptLog { offset: at });
            },
        }
    }
}

} // verus!
