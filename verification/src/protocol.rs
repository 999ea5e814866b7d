//! The Memcached text commands that a store answers, and the bytes of its
//! answers.

use crate::clock::now;
use crate::engine::Bitcask;
use crate::model::acceptable;
use vstd::prelude::*;
use vstd::string::StringExecFns;
use vstd::utf8::encode_utf8;

verus! {

/// A command as it was read from a connection.
#[derive(Debug)]
pub enum Command {
    /// `get` or `gets`: the values of `keys` are asked for.
    Retrieval { keys: Vec<String> },
    /// `set`, `add`, `replace` and the like: `data_block` is to be stored
    /// under `key`. Flags and expiry time are read and not kept.
    Store {
        command_name: String,
        key: String,
        flags: u16,
        exptime: u32,
        bytes: u64,
        data_block: Vec<u8>,
    },
    /// `delete`: `key` is to be taken out.
    Delete { key: String },
}

/// One value of the answer to a retrieval.
#[derive(Debug)]
pub struct RetrievalResponseItem {
    pub key: String,
    pub flags: u16,
    pub bytes: u32,
    pub cas_unique: Option<u64>,
    pub data_block: Vec<u8>,
}

/// The answer to a store command.
#[derive(Clone, Copy, Debug, PartialEq, Eq, Structural)]
pub enum StoreResponse {
    Stored,
    NotStored,
}

/// The answer to a delete command.
#[derive(Clone, Copy, Debug, PartialEq, Eq, Structural)]
pub enum DeleteResponse {
    Deleted,
    NotFound,
}

/// The answer to a command.
#[derive(Debug)]
pub enum Response {
    Retrieval(Vec<RetrievalResponseItem>),
    Store(StoreResponse),
    Delete(DeleteResponse),
}

/// The item that answers `key` with `value`: no flags, no check-and-set
/// token.
pub open spec fn answers(item: RetrievalResponseItem, key: Seq<char>, value: Seq<u8>) -> bool {
    &&& item.key@ == key
    &&& item.flags == 0
    &&& item.bytes == value.len()
    &&& item.cas_unique is None
    &&& item.data_block@ == value
}

/// The keys among `keys` that the store holds a value for, in the order they
/// were asked for.
pub open spec fn found_keys(store: Map<Seq<u8>, Seq<u8>>, keys: Seq<String>) -> Seq<Seq<char>>
    decreases keys.len(),
{
    if keys.len() == 0 {
        Seq::empty()
    } else if store.contains_key(encode_utf8(keys.last()@)) {
        found_keys(store, keys.drop_last()).push(keys.last()@)
    } else {
        found_keys(store, keys.drop_last())
    }
}

/// Whether `items` answer `keys` from `store`: one item for each key that the
/// store holds, in the order of the keys, with the value of the key.
pub open spec fn retrieved(
    store: Map<Seq<u8>, Seq<u8>>,
    keys: Seq<String>,
    items: Seq<RetrievalResponseItem>,
) -> bool {
    &&& items.len() == found_keys(store, keys).len()
    &&& forall|i: int|
        0 <= i < items.len() ==> answers(
            #[trigger] items[i],
            found_keys(store, keys)[i],
            store[encode_utf8(found_keys(store, keys)[i])],
        )
}

/// Whether a store command is one that the store carries out: `set`.
pub open spec fn is_set(command_name: Seq<char>) -> bool {
    command_name == "set"@
}

/// What carrying out `command` as of `timestamp` does to a store, and what it
/// answers.
///
/// A retrieval changes nothing and answers with the values of the keys that
/// the store holds. A `set` stores the data block and answers `Stored`; it
/// answers `NotStored`, and changes nothing, where key or data block do not
/// fit a record. Any other store command changes nothing and answers
/// `NotStored`. A delete takes the key out and answers `Deleted` where the
/// store held it and `NotFound` where it did not.
pub open spec fn executed(
    before: Bitcask,
    after: Bitcask,
    timestamp: u32,
    command: Command,
    response: Response,
) -> bool {
    match command {
        Command::Retrieval { keys } => {
            &&& after.state() == before.state()
            &&& response matches Response::Retrieval(items)
            &&& retrieved(before@, keys@, items@)
        },
        Command::Store { command_name, key, data_block, .. } => {
            if is_set(command_name@) && acceptable(encode_utf8(key@), data_block@) {
                &&& response matches Response::Store(StoreResponse::Stored)
                &&& after.state() == before.state().put(
                    before.limit(),
                    timestamp,
                    encode_utf8(key@),
                    data_block@,
                )
                &&& after@ == before@.insert(encode_utf8(key@), data_block@)
                &&& before.durable() ==> after.durable()
            } else {
                &&& response matches Response::Store(StoreResponse::NotStored)
                &&& after.state() == before.state()
            }
        },
        Command::Delete { key } => {
            &&& response matches Response::Delete(answer)
            &&& answer == if before@.contains_key(encode_utf8(key@)) {
                DeleteResponse::Deleted
            } else {
                DeleteResponse::NotFound
            }
            &&& if encode_utf8(key@).len() <= u8::MAX {
                &&& after.state() == before.state().delete(
                    before.limit(),
                    timestamp,
                    encode_utf8(key@),
                )
                &&& after@ == before@.remove(encode_utf8(key@))
                &&& before.durable() ==> after.durable()
            } else {
                after.state() == before.state()
            }
        },
    }
}

/// The values that `db` holds for `keys`: one item for each key that is
/// there, in the order of the keys.
pub fn retrieve(db: &Bitcask, keys: &Vec<String>) -> (items: Vec<RetrievalResponseItem>)
    requires
        db.wf(),
    ensures
        retrieved(db@, keys@, items@),
{
    let mut items: Vec<RetrievalResponseItem> = Vec::new();
    let mut i: usize = 0;
    assert(keys@.take(0) =~= Seq::<String>::empty());
    while i < keys.len()
        invariant
            i <= keys@.len(),
            db.wf(),
            retrieved(db@, keys@.take(i as int), items@),
        decreases keys@.len() - i,
    {
        let ghost sofar = keys@.take(i as int);
        let ghost next = keys@.take(i + 1);
        let ghost before = items@;
        assert(next.drop_last() =~= sofar);
        assert(next.last() == keys@[i as int]);
        let key = keys[i].clone();
        match db.get(keys[i].clone()) {
            Some(value) => {
                let item = RetrievalResponseItem {
                    key,
                    flags: 0,
                    bytes: value.len() as u32,
                    cas_unique: None,
                    data_block: value,
                };
                items.push(item);
                assert forall|j: int| 0 <= j < items@.len() implies answers(
                    #[trigger] items@[j],
                    found_keys(db@, next)[j],
                    db@[encode_utf8(found_keys(db@, next)[j])],
                ) by {
                    if j < before.len() {
                        assert(items@[j] == before[j]);
                    }
                }
            },
            None => {},
        }
        i = i + 1;
    }
    assert(keys@.take(i as int) =~= keys@);
    items
}

/// Answers `command` without changing the store, where that can be done:
/// a retrieval is answered, and any other command is left to `execute`.
pub fn execute_read(db: &Bitcask, command: &Command) -> (response: Option<Response>)
    requires
        db.wf(),
    ensures
        match *command {
            Command::Retrieval { keys } => {
                &&& response matches Some(Response::Retrieval(items))
                &&& retrieved(db@, keys@, items@)
            },
            _ => response is None,
        },
{
    match command {
        Command::Retrieval { keys } => Some(Response::Retrieval(retrieve(db, keys))),
        _ => None,
    }
}

/// Carries out `command` on `db`, as of `timestamp`, and returns the answer.
pub fn execute_at(db: &mut Bitcask, timestamp: u32, command: Command) -> (response: Response)
    requires
        old(db).wf(),
    ensures
        final(db).wf(),
        final(db).limit() == old(db).limit(),
        final(db).location() == old(db).location(),
        executed(*old(db), *final(db), timestamp, command, response),
{
    match command {
        Command::Retrieval { keys } => Response::Retrieval(retrieve(db, &keys)),
        Command::Store { command_name, key, flags: _, exptime: _, bytes: _, data_block } => {
            let set = String::from_str("set");
            if command_name == set {
                match db.put_at(timestamp, key, data_block) {
                    Ok(_) => Response::Store(StoreResponse::Stored),
                    Err(_) => Response::Store(StoreResponse::NotStored),
                }
            } else {
                Response::Store(StoreResponse::NotStored)
            }
        },
        Command::Delete { key } => {
            let present = db.get(key.clone()).is_some();
            let _ = db.delete_at(timestamp, key);
            if present {
                Response::Delete(DeleteResponse::Deleted)
            } else {
                Response::Delete(DeleteResponse::NotFound)
            }
        },
    }
}

/// Carries out `command` on `db` as of the time of the call: `execute_at`
/// with the timestamp that the clock gives.
pub fn execute(db: &mut Bitcask, command: Command) -> (response: Response)
    requires
        old(db).wf(),
    ensures
        final(db).wf(),
        final(db).limit() == old(db).limit(),
        final(db).location() == old(db).location(),
        exists|timestamp: u32| #[trigger] executed(*old(db), *final(db), timestamp, command, response),
{
    let timestamp = now();
    execute_at(db, timestamp, command)
}

/// Why no command could be read from a connection.
#[derive(Debug)]
pub enum Failure {
    /// The connection is lost: reading from it failed or it has ended.
    ConnectionLost,
    /// The line is not a command.
    NotACommand,
    /// The command is malformed; the message says how.
    Client(String),
    /// The server could not read the command; the message says why.
    Server(String),
}

/// What a connection is told after a failure to read a command.
#[derive(Debug)]
pub enum ErrorResponse {
    Error,
    ClientError(String),
    ServerError(String),
}

/// What to do after a failure to read a command: `None` to close the
/// connection, which is for a lost connection alone; otherwise the answer to
/// send before reading the next command.
pub fn on_failure(failure: Failure) -> (answer: Option<ErrorResponse>)
    ensures
        answer == match failure {
            Failure::ConnectionLost => None::<ErrorResponse>,
            Failure::NotACommand => Some(ErrorResponse::Error),
            Failure::Client(message) => Some(ErrorResponse::ClientError(message)),
            Failure::Server(message) => Some(ErrorResponse::ServerError(message)),
        },
{
    match failure {
        Failure::ConnectionLost => None,
        Failure::NotACommand => Some(ErrorResponse::Error),
        Failure::Client(message) => Some(ErrorResponse::ClientError(message)),
        Failure::Server(message) => Some(ErrorResponse::ServerError(message)),
    }
}

/// The bytes of a piece of text.
pub open spec fn text(s: &str) -> Seq<u8> {
    encode_utf8(s@)
}

/// `n` in decimal digits, without leading zeros.
pub open spec fn decimal_bytes(n: nat) -> Seq<u8>
    decreases n,
{
    if n < 10 {
        seq![(48 + n) as u8]
    } else {
        decimal_bytes(n / 10).push((48 + n % 10) as u8)
    }
}

/// The bytes of one retrieved value: a line with the key, the flags, the
/// length of the data block and, where there is one, the check-and-set
/// token; then the data block on a line of its own.
pub open spec fn item_wire(item: RetrievalResponseItem) -> Seq<u8> {
    text("VALUE ") + encode_utf8(item.key@) + text(" ") + decimal_bytes(item.flags as nat) + text(
        " ",
    ) + decimal_bytes(item.bytes as nat) + match item.cas_unique {
        Some(token) => text(" ") + decimal_bytes(token as nat),
        None => Seq::empty(),
    } + text("\r\n") + item.data_block@ + text("\r\n")
}

/// The bytes of the retrieved values, one after the other.
pub open spec fn items_wire(items: Seq<RetrievalResponseItem>) -> Seq<u8>
    decreases items.len(),
{
    if items.len() == 0 {
        Seq::empty()
    } else {
        items_wire(items.drop_last()) + item_wire(items.last())
    }
}

/// The bytes of an answer on the wire.
pub open spec fn wire(response: Response) -> Seq<u8> {
    match response {
        Response::Retrieval(items) => items_wire(items@) + text("END\r\n"),
        Response::Store(StoreResponse::Stored) => text("STORED\r\n"),
        Response::Store(StoreResponse::NotStored) => text("NOT_STORED\r\n"),
        Response::Delete(DeleteResponse::Deleted) => text("DELETED\r\n"),
        Response::Delete(DeleteResponse::NotFound) => text("NOT_FOUND\r\n"),
    }
}

/// The bytes of an error answer on the wire.
pub open spec fn error_wire(response: ErrorResponse) -> Seq<u8> {
    match response {
        ErrorResponse::Error => text("ERROR\r\n"),
        ErrorResponse::ClientError(message) => text("CLIENT_ERROR ") + encode_utf8(message@)
            + text("\r\n"),
        ErrorResponse::ServerError(message) => text("SERVER_ERROR ") + encode_utf8(message@)
            + text("\r\n"),
    }
}

fn push_text(out: &mut Vec<u8>, s: &str)
    ensures
        final(out)@ == old(out)@ + text(s),
{
    out.extend_from_slice(s.as_bytes());
}

fn push_decimal(out: &mut Vec<u8>, n: u64)
    ensures
        final(out)@ == old(out)@ + decimal_bytes(n as nat),
    decreases n,
{
    if n >= 10 {
        push_decimal(out, n / 10);
    }
    out.push((48 + n % 10) as u8);
    assert(out@ =~= old(out)@ + decimal_bytes(n as nat));
}

impl RetrievalResponseItem {
    /// The bytes of the item on the wire.
    pub fn to_bytes(&self) -> (out: Vec<u8>)
        ensures
            out@ == item_wire(*self),
    {
        let mut out: Vec<u8> = Vec::new();
        push_text(&mut out, "VALUE ");
        push_text(&mut out, self.key.as_str());
        push_text(&mut out, " ");
        push_decimal(&mut out, self.flags as u64);
        push_text(&mut out, " ");
        push_decimal(&mut out, self.bytes as u64);
        match self.cas_unique {
            Some(token) => {
                push_text(&mut out, " ");
                push_decimal(&mut out, token);
            },
            None => {},
        }
        push_text(&mut out, "\r\n");
        out.extend_from_slice(self.data_block.as_slice());
        push_text(&mut out, "\r\n");
        assert(out@ =~= item_wire(*self));
        out
    }
}

impl Response {
    /// The bytes of the answer on the wire.
    pub fn to_bytes(&self) -> (out: Vec<u8>)
        ensures
            out@ == wire(*self),
    {
        let mut out: Vec<u8> = Vec::new();
        match self {
            Response::Retrieval(items) => {
                let mut i: usize = 0;
                assert(items@.take(0) =~= Seq::<RetrievalResponseItem>::empty());
                while i < items.len()
                    invariant
                        i <= items@.len(),
                        out@ == items_wire(items@.take(i as int)),
                    decreases items@.len() - i,
                {
                    assert(items@.take(i + 1).drop_last() =~= items@.take(i as int));
                    assert(items@.take(i + 1).last() == items@[i as int]);
                    let bytes = items[i].to_bytes();
                    out.extend_from_slice(bytes.as_slice());
                    i = i + 1;
                }
                assert(items@.take(i as int) =~= items@);
                push_text(&mut out, "END\r\n");
            },
            Response::Store(StoreResponse::Stored) => {
                push_text(&mut out, "STORED\r\n");
            },
            Response::Store(StoreResponse::NotStored) => {
                push_text(&mut out, "NOT_STORED\r\n");
            },
            Response::Delete(DeleteResponse::Deleted) => {
                push_text(&mut out, "DELETED\r\n");
            },
            Response::Delete(DeleteResponse::NotFound) => {
                push_text(&mut out, "NOT_FOUND\r\n");
            },
        }
        assert(out@ =~= wire(*self));
        out
    }
}

impl ErrorResponse {
    /// The bytes of the answer on the wire.
    pub fn to_bytes(&self) -> (out: Vec<u8>)
        ensures
            out@ == error_wire(*self),
    {
        let mut out: Vec<u8> = Vec::new();
        match self {
            ErrorResponse::Error => {
                push_text(&mut out, "ERROR\r\n");
            },
            ErrorResponse::ClientError(message) => {
                push_text(&mut out, "CLIENT_ERROR ");
                push_text(&mut out, message.as_str());
                push_text(&mut out, "\r\n");
            },
            ErrorResponse::ServerError(message) => {
                push_text(&mut out, "SERVER_ERROR ");
                push_text(&mut out, message.as_str());
                push_text(&mut out, "\r\n");
            },
        }
        assert(out@ =~= error_wire(*self));
        out
    }
}

} // verus!
