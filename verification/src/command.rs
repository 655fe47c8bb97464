//! Commands: how a request frame names one, and what each does to the store.
use std::time::Duration;
use vstd::prelude::*;
use vstd::utf8::*;

use crate::decimal::{parse_u64, std_u64_of};
use crate::duration::duration_nanos;
use crate::frame::{Frame, FrameError, FrameModel};

verus! {

pub enum Command {
    Ping,
    Echo { message: String },
    Get { key: String },
    SetKey { key: String, value: String, expiry: Option<Duration> },
    Exists { key: String },
    Incr { key: String },
    Decr { key: String },
    Del { keys: Vec<String> },
    Mget { keys: Vec<String> },
    Mset { pairs: Vec<(String, String)> },
    Subscribe { channels: Vec<String> },
    Publish { channel: String, message: String },
}

/// A command as a mathematical value; an expiry is its length in nanoseconds.
pub enum CommandModel {
    Ping,
    Echo(Seq<char>),
    Get(Seq<char>),
    SetKey(Seq<char>, Seq<char>, Option<nat>),
    Exists(Seq<char>),
    Incr(Seq<char>),
    Decr(Seq<char>),
    Del(Seq<Seq<char>>),
    Mget(Seq<Seq<char>>),
    Mset(Seq<(Seq<char>, Seq<char>)>),
    Subscribe(Seq<Seq<char>>),
    Publish(Seq<char>, Seq<char>),
}

/// The characters of each string.
pub open spec fn strings_model(v: Seq<String>) -> Seq<Seq<char>> {
    v.map_values(|s: String| s@)
}

/// The characters of each string of each pair.
pub open spec fn pairs_model(v: Seq<(String, String)>) -> Seq<(Seq<char>, Seq<char>)> {
    v.map_values(|p: (String, String)| (p.0@, p.1@))
}

impl View for Command {
    type V = CommandModel;

    open spec fn view(&self) -> CommandModel {
        match self {
            Command::Ping => CommandModel::Ping,
            Command::Echo { message } => CommandModel::Echo(message@),
            Command::Get { key } => CommandModel::Get(key@),
            Command::SetKey { key, value, expiry } => CommandModel::SetKey(
                key@,
                value@,
                match expiry {
                    Some(d) => Some(duration_nanos(*d)),
                    None => None,
                },
            ),
            Command::Exists { key } => CommandModel::Exists(key@),
            Command::Incr { key } => CommandModel::Incr(key@),
            Command::Decr { key } => CommandModel::Decr(key@),
            Command::Del { keys } => CommandModel::Del(strings_model(keys@)),
            Command::Mget { keys } => CommandModel::Mget(strings_model(keys@)),
            Command::Mset { pairs } => CommandModel::Mset(pairs_model(pairs@)),
            Command::Subscribe { channels } => CommandModel::Subscribe(strings_model(channels@)),
            Command::Publish { channel, message } => CommandModel::Publish(channel@, message@),
        }
    }
}

/// ASCII letters `a` to `z` made upper case; every other byte kept.
pub open spec fn upper_byte(b: u8) -> u8 {
    if 97 <= b <= 122 {
        (b - 32) as u8
    } else {
        b
    }
}

/// The bytes of `s` with ASCII letters made upper case, as `str::to_ascii_uppercase` does.
pub open spec fn ascii_upper(s: Seq<u8>) -> Seq<u8> {
    s.map_values(|b: u8| upper_byte(b))
}

/// Whether the text `s`, ignoring ASCII case, is the upper-case word `w`.
pub open spec fn names(s: Seq<char>, w: Seq<u8>) -> bool {
    ascii_upper(encode_utf8(s)) == w
}

// The command words and options, as upper-case ASCII bytes.
pub open spec fn word_ping() -> Seq<u8> { seq![80u8, 73u8, 78u8, 71u8] }
pub open spec fn word_echo() -> Seq<u8> { seq![69u8, 67u8, 72u8, 79u8] }
pub open spec fn word_get() -> Seq<u8> { seq![71u8, 69u8, 84u8] }
pub open spec fn word_set() -> Seq<u8> { seq![83u8, 69u8, 84u8] }
pub open spec fn word_exists() -> Seq<u8> { seq![69u8, 88u8, 73u8, 83u8, 84u8, 83u8] }
pub open spec fn word_incr() -> Seq<u8> { seq![73u8, 78u8, 67u8, 82u8] }
pub open spec fn word_decr() -> Seq<u8> { seq![68u8, 69u8, 67u8, 82u8] }
pub open spec fn word_del() -> Seq<u8> { seq![68u8, 69u8, 76u8] }
pub open spec fn word_mget() -> Seq<u8> { seq![77u8, 71u8, 69u8, 84u8] }
pub open spec fn word_mset() -> Seq<u8> { seq![77u8, 83u8, 69u8, 84u8] }
pub open spec fn word_subscribe() -> Seq<u8> { seq![83u8, 85u8, 66u8, 83u8, 67u8, 82u8, 73u8, 66u8, 69u8] }
pub open spec fn word_publish() -> Seq<u8> { seq![80u8, 85u8, 66u8, 76u8, 73u8, 83u8, 72u8] }
pub open spec fn word_ex() -> Seq<u8> { seq![69u8, 88u8] }
pub open spec fn word_px() -> Seq<u8> { seq![80u8, 88u8] }

/// The text of the bulk string at index `i`, if there is one there.
pub open spec fn bulk_at(items: Seq<FrameModel>, i: int) -> Option<Seq<char>> {
    if 0 <= i < items.len() {
        match items[i] {
            FrameModel::Bulk(s) => Some(s),
            _ => None,
        }
    } else {
        None
    }
}

/// The texts of all the items, when every one is a bulk string.
pub open spec fn all_bulk(items: Seq<FrameModel>) -> Option<Seq<Seq<char>>> {
    if forall|i: int| 0 <= i < items.len() ==> #[trigger] bulk_at(items, i) is Some {
        Some(Seq::new(items.len(), |i: int| bulk_at(items, i)->0))
    } else {
        None
    }
}

/// The items taken two by two as pairs of texts, when they are all bulk strings
/// and come in pairs.
pub open spec fn bulk_pairs(items: Seq<FrameModel>) -> Option<Seq<(Seq<char>, Seq<char>)>> {
    if items.len() % 2 == 0 && all_bulk(items) is Some {
        Some(Seq::new(items.len() / 2, |i: int| (bulk_at(items, 2 * i)->0, bulk_at(items, 2 * i + 1)->0)))
    } else {
        None
    }
}

/// A command of one text argument, the first one; later arguments are ignored.
pub open spec fn one_arg(args: Seq<FrameModel>, make: spec_fn(Seq<char>) -> CommandModel) -> Result<CommandModel, FrameError> {
    match bulk_at(args, 0) {
        Some(s) => Ok(make(s)),
        None => Err(FrameError::Invalid),
    }
}

/// `SET key value [EX seconds | PX milliseconds]`.
pub open spec fn set_command(args: Seq<FrameModel>) -> Result<CommandModel, FrameError> {
    match (bulk_at(args, 0), bulk_at(args, 1)) {
        (Some(key), Some(value)) => {
            if args.len() == 2 {
                Ok(CommandModel::SetKey(key, value, None))
            } else {
                match (bulk_at(args, 2), bulk_at(args, 3)) {
                    (Some(scale), Some(amount)) => match std_u64_of(encode_utf8(amount)) {
                        None => Err(FrameError::Invalid),
                        Some(n) => {
                            if names(scale, word_ex()) {
                                Ok(CommandModel::SetKey(key, value, Some(n as nat * 1_000_000_000)))
                            } else if names(scale, word_px()) {
                                Ok(CommandModel::SetKey(key, value, Some(n as nat * 1_000_000)))
                            } else {
                                Err(FrameError::Invalid)
                            }
                        },
                    },
                    _ => Err(FrameError::Invalid),
                }
            }
        },
        _ => Err(FrameError::Invalid),
    }
}

/// The command that the upper-cased name `w` and the arguments `args` make.
pub open spec fn command_named(w: Seq<u8>, args: Seq<FrameModel>) -> Result<CommandModel, FrameError> {
    if w == word_ping() {
        Ok(CommandModel::Ping)
    } else if w == word_echo() {
        one_arg(args, |s: Seq<char>| CommandModel::Echo(s))
    } else if w == word_get() {
        one_arg(args, |s: Seq<char>| CommandModel::Get(s))
    } else if w == word_set() {
        set_command(args)
    } else if w == word_exists() {
        one_arg(args, |s: Seq<char>| CommandModel::Exists(s))
    } else if w == word_incr() {
        one_arg(args, |s: Seq<char>| CommandModel::Incr(s))
    } else if w == word_decr() {
        one_arg(args, |s: Seq<char>| CommandModel::Decr(s))
    } else if w == word_del() {
        match all_bulk(args) {
            Some(keys) => Ok(CommandModel::Del(keys)),
            None => Err(FrameError::Invalid),
        }
    } else if w == word_mget() {
        match all_bulk(args) {
            Some(keys) => Ok(CommandModel::Mget(keys)),
            None => Err(FrameError::Invalid),
        }
    } else if w == word_mset() {
        match bulk_pairs(args) {
            Some(pairs) => Ok(CommandModel::Mset(pairs)),
            None => Err(FrameError::Invalid),
        }
    } else if w == word_subscribe() {
        match all_bulk(args) {
            Some(channels) => Ok(CommandModel::Subscribe(channels)),
            None => Err(FrameError::Invalid),
        }
    } else if w == word_publish() {
        match (bulk_at(args, 0), bulk_at(args, 1)) {
            (Some(channel), Some(message)) => Ok(CommandModel::Publish(channel, message)),
            _ => Err(FrameError::Invalid),
        }
    } else {
        Err(FrameError::Invalid)
    }
}

/// The command that a request frame makes: an array whose first item is the
/// command's name as a bulk string, in any ASCII case, then its arguments.
pub open spec fn command_of(f: FrameModel) -> Result<CommandModel, FrameError> {
    match f {
        FrameModel::Array(items) => match bulk_at(items, 0) {
            Some(name) => command_named(ascii_upper(encode_utf8(name)), items.skip(1)),
            None => Err(FrameError::Invalid),
        },
        _ => Err(FrameError::Invalid),
    }
}

/// Command names are read without regard to ASCII case: two request frames whose
/// names differ only in the case of ASCII letters make the same command, or are
/// both refused.
pub proof fn law_names_ignore_case(c1: Seq<char>, c2: Seq<char>, rest: Seq<FrameModel>)
    requires
        ascii_upper(encode_utf8(c1)) == ascii_upper(encode_utf8(c2)),
    ensures
        command_of(FrameModel::Array(seq![FrameModel::Bulk(c1)] + rest))
            == command_of(FrameModel::Array(seq![FrameModel::Bulk(c2)] + rest)),
{
    let a = seq![FrameModel::Bulk(c1)] + rest;
    let b = seq![FrameModel::Bulk(c2)] + rest;
    assert(a.skip(1) =~= rest);
    assert(b.skip(1) =~= rest);
    assert(bulk_at(a, 0) == Some(c1));
    assert(bulk_at(b, 0) == Some(c2));
}

/// `SET`'s first argument is the key and its second the value, with or without
/// an expiry option: `SET key value` stores without a deadline, `SET key value EX
/// n` for `n` seconds and `SET key value PX n` for `n` milliseconds, where `n` is
/// the number the last argument reads as. Any other request whose name is `SET`
/// that is accepted still has its key and value in those places.
pub proof fn law_set_arguments(name: Seq<char>, key: Seq<char>, value: Seq<char>, rest: Seq<FrameModel>)
    requires
        names(name, word_set()),
    ensures
        ({
            let r = command_of(FrameModel::Array(seq![FrameModel::Bulk(name), FrameModel::Bulk(key), FrameModel::Bulk(value)] + rest));
            &&& r is Ok ==> (r->Ok_0 matches CommandModel::SetKey(k, v, _) && k == key && v == value)
            &&& rest.len() == 0 ==> r == Ok::<CommandModel, FrameError>(CommandModel::SetKey(key, value, None))
        }),
{
    let items = seq![FrameModel::Bulk(name), FrameModel::Bulk(key), FrameModel::Bulk(value)] + rest;
    let args = items.skip(1);
    assert(bulk_at(items, 0) == Some(name));
    assert(bulk_at(args, 0) == Some(key));
    assert(bulk_at(args, 1) == Some(value));
    assert(args.len() == rest.len() + 2);
}

/// `SET key value EX n` keeps the value for `n` seconds and `SET key value PX n`
/// for `n` milliseconds, `n` being the number that the amount reads as; the key
/// and the value are the first two arguments, as without an option.
pub proof fn law_set_with_expiry(name: Seq<char>, key: Seq<char>, value: Seq<char>, scale: Seq<char>, amount: Seq<char>, n: u64)
    requires
        names(name, word_set()),
        names(scale, word_ex()) || names(scale, word_px()),
        std_u64_of(encode_utf8(amount)) == Some(n),
    ensures
        command_of(FrameModel::Array(seq![
            FrameModel::Bulk(name), FrameModel::Bulk(key), FrameModel::Bulk(value),
            FrameModel::Bulk(scale), FrameModel::Bulk(amount),
        ])) == Ok::<CommandModel, FrameError>(CommandModel::SetKey(
            key,
            value,
            Some(if names(scale, word_ex()) { n as nat * 1_000_000_000 } else { n as nat * 1_000_000 }),
        )),
{
    let items = seq![
        FrameModel::Bulk(name), FrameModel::Bulk(key), FrameModel::Bulk(value),
        FrameModel::Bulk(scale), FrameModel::Bulk(amount),
    ];
    let args = items.skip(1);
    assert(bulk_at(items, 0) == Some(name));
    assert(bulk_at(args, 0) == Some(key));
    assert(bulk_at(args, 1) == Some(value));
    assert(bulk_at(args, 2) == Some(scale));
    assert(bulk_at(args, 3) == Some(amount));
    assert(args.len() == 4);
}

/// A request frame: the command's name, then each argument, all as bulk strings.
pub open spec fn request(name: Seq<char>, args: Seq<Seq<char>>) -> FrameModel {
    FrameModel::Array(seq![FrameModel::Bulk(name)] + args.map_values(|a: Seq<char>| FrameModel::Bulk(a)))
}

/// Each command takes its arguments in the order they are sent: `GET`, `ECHO`,
/// `EXISTS`, `INCR` and `DECR` their first argument; `DEL`, `MGET` and
/// `SUBSCRIBE` all of them; `MSET` consecutive key/value pairs, refusing an odd
/// count; `PUBLISH` the channel and then the message; `PING` none.
pub proof fn law_request_arguments(name: Seq<char>, args: Seq<Seq<char>>)
    ensures
        names(name, word_ping()) ==> command_of(request(name, args)) == Ok::<CommandModel, FrameError>(CommandModel::Ping),
        names(name, word_get()) && args.len() >= 1
            ==> command_of(request(name, args)) == Ok::<CommandModel, FrameError>(CommandModel::Get(args[0])),
        names(name, word_echo()) && args.len() >= 1
            ==> command_of(request(name, args)) == Ok::<CommandModel, FrameError>(CommandModel::Echo(args[0])),
        names(name, word_exists()) && args.len() >= 1
            ==> command_of(request(name, args)) == Ok::<CommandModel, FrameError>(CommandModel::Exists(args[0])),
        names(name, word_incr()) && args.len() >= 1
            ==> command_of(request(name, args)) == Ok::<CommandModel, FrameError>(CommandModel::Incr(args[0])),
        names(name, word_decr()) && args.len() >= 1
            ==> command_of(request(name, args)) == Ok::<CommandModel, FrameError>(CommandModel::Decr(args[0])),
        names(name, word_del()) ==> command_of(request(name, args)) == Ok::<CommandModel, FrameError>(CommandModel::Del(args)),
        names(name, word_mget()) ==> command_of(request(name, args)) == Ok::<CommandModel, FrameError>(CommandModel::Mget(args)),
        names(name, word_subscribe())
            ==> command_of(request(name, args)) == Ok::<CommandModel, FrameError>(CommandModel::Subscribe(args)),
        names(name, word_mset()) && args.len() % 2 == 0
            ==> command_of(request(name, args)) == Ok::<CommandModel, FrameError>(
                CommandModel::Mset(Seq::new(args.len() / 2, |i: int| (args[2 * i], args[2 * i + 1])))),
        names(name, word_mset()) && args.len() % 2 == 1
            ==> command_of(request(name, args)) == Err::<CommandModel, FrameError>(FrameError::Invalid),
        names(name, word_publish()) && args.len() >= 2
            ==> command_of(request(name, args)) == Ok::<CommandModel, FrameError>(CommandModel::Publish(args[0], args[1])),
{
    let items = seq![FrameModel::Bulk(name)] + args.map_values(|a: Seq<char>| FrameModel::Bulk(a));
    let rest = items.skip(1);
    assert(bulk_at(items, 0) == Some(name));
    assert(rest =~= args.map_values(|a: Seq<char>| FrameModel::Bulk(a)));
    assert forall|i: int| 0 <= i < args.len() implies #[trigger] bulk_at(rest, i) == Some(args[i]) by {
        assert(rest[i] == FrameModel::Bulk(args[i]));
    }
    assert(all_bulk(rest) == Some(args)) by {
        assert(Seq::new(rest.len(), |i: int| bulk_at(rest, i)->0) =~= args);
    }
    if args.len() % 2 == 0 {
        let ps = Seq::new(args.len() / 2, |i: int| (args[2 * i], args[2 * i + 1]));
        assert forall|i: int| 0 <= i < args.len() / 2 implies
            (bulk_at(rest, 2 * i)->0, bulk_at(rest, 2 * i + 1)->0) == #[trigger] ps[i] by {
            assert(bulk_at(rest, 2 * i) == Some(args[2 * i]));
            assert(bulk_at(rest, 2 * i + 1) == Some(args[2 * i + 1]));
        }
        assert(bulk_pairs(rest) == Some(ps)) by {
            assert(Seq::new(rest.len() / 2, |i: int| (bulk_at(rest, 2 * i)->0, bulk_at(rest, 2 * i + 1)->0)) =~= ps);
        }
    }
    if args.len() >= 1 {
        assert(bulk_at(rest, 0) == Some(args[0]));
    }
    if args.len() >= 2 {
        assert(bulk_at(rest, 1) == Some(args[1]));
    }
}

/// Whether the text `s`, ignoring ASCII case, is the upper-case word `word`.
fn is_word(s: &String, word: &[u8]) -> (r: bool)
    ensures
        r == names(s@, word@),
{
    let bytes = s.as_str().as_bytes();
    if bytes.len() != word.len() {
        proof {
            assert(ascii_upper(encode_utf8(s@)).len() == bytes@.len());
        }
        return false;
    }
    let mut i: usize = 0;
    while i < bytes.len()
        invariant
            bytes@ == encode_utf8(s@),
            bytes@.len() == word@.len(),
            0 <= i <= bytes@.len(),
            forall|j: int| 0 <= j < i ==> upper_byte(#[trigger] bytes@[j]) == word@[j],
        decreases bytes@.len() - i,
    {
        let b = bytes[i];
        let u = if 97 <= b && b <= 122 { b - 32 } else { b };
        if u != word[i] {
            proof {
                assert(ascii_upper(encode_utf8(s@))[i as int] != word@[i as int]);
            }
            return false;
        }
        i = i + 1;
    }
    assert(ascii_upper(encode_utf8(s@)) =~= word@);
    true
}

/// The models of a sequence of frames.
pub open spec fn items_model(v: Seq<Frame>) -> Seq<FrameModel> {
    Seq::new(v.len(), |i: int| v[i]@)
}

/// The bulk string at index `i`, copied.
fn bulk_arg(items: &Vec<Frame>, i: usize) -> (r: Option<String>)
    ensures
        match r {
            Some(s) => bulk_at(items_model(items@), i as int) == Some(s@),
            None => bulk_at(items_model(items@), i as int) is None,
        },
{
    if i < items.len() {
        match &items[i] {
            Frame::Bulk(s) => Some(s.clone()),
            _ => None,
        }
    } else {
        None
    }
}

/// The bulk strings from index `start` on, copied, when every item there is one.
fn bulk_args(items: &Vec<Frame>, start: usize) -> (r: Option<Vec<String>>)
    requires
        start <= items@.len(),
    ensures
        match r {
            Some(v) => all_bulk(items_model(items@).skip(start as int)) == Some(strings_model(v@)),
            None => all_bulk(items_model(items@).skip(start as int)) is None,
        },
{
    let ghost args = items_model(items@).skip(start as int);
    let mut out: Vec<String> = Vec::new();
    let mut i = start;
    while i < items.len()
        invariant
            start <= i <= items@.len(),
            args == items_model(items@).skip(start as int),
            out@.len() == i - start,
            forall|j: int| 0 <= j < i - start ==> #[trigger] bulk_at(args, j) == Some(out@[j]@),
        decreases items@.len() - i,
    {
        match &items[i] {
            Frame::Bulk(s) => {
                out.push(s.clone());
            },
            _ => {
                assert(bulk_at(args, i - start) is None);
                return None;
            },
        }
        i = i + 1;
    }
    assert(all_bulk(args) is Some);
    assert(Seq::new(args.len(), |j: int| bulk_at(args, j)->0) =~= strings_model(out@));
    Some(out)
}

/// The bulk strings from index `start` on, copied two by two, when every item
/// there is one and they come in pairs.
fn bulk_pair_args(items: &Vec<Frame>, start: usize) -> (r: Option<Vec<(String, String)>>)
    requires
        start <= items@.len(),
    ensures
        match r {
            Some(v) => bulk_pairs(items_model(items@).skip(start as int)) == Some(pairs_model(v@)),
            None => bulk_pairs(items_model(items@).skip(start as int)) is None,
        },
{
    let ghost args = items_model(items@).skip(start as int);
    if (items.len() - start) % 2 != 0 {
        return None;
    }
    let mut out: Vec<(String, String)> = Vec::new();
    let mut i = start;
    while i < items.len()
        invariant
            start <= i <= items@.len(),
            (items@.len() - start) % 2 == 0,
            (i - start) % 2 == 0,
            args == items_model(items@).skip(start as int),
            out@.len() * 2 == i - start,
            forall|j: int| 0 <= j < i - start ==> #[trigger] bulk_at(args, j) is Some,
            forall|j: int| 0 <= j < out@.len() ==> #[trigger] bulk_at(args, 2 * j) == Some(out@[j].0@)
                && bulk_at(args, 2 * j + 1) == Some(out@[j].1@),
        decreases items@.len() - i,
    {
        let key = match &items[i] {
            Frame::Bulk(s) => s.clone(),
            _ => {
                assert(bulk_at(args, i - start) is None);
                return None;
            },
        };
        let value = match &items[i + 1] {
            Frame::Bulk(s) => s.clone(),
            _ => {
                assert(bulk_at(args, i + 1 - start) is None);
                return None;
            },
        };
        out.push((key, value));
        i = i + 2;
    }
    assert(all_bulk(args) is Some);
    assert(Seq::new(args.len() / 2, |j: int| (bulk_at(args, 2 * j)->0, bulk_at(args, 2 * j + 1)->0)) =~= pairs_model(out@));
    Some(out)
}

impl Command {
    /// Reads the command that a request frame makes, as `command_of` says.
    pub fn from_frame(frame: Frame) -> (r: Result<Command, FrameError>)
        ensures
            match (r, command_of(frame@)) {
                (Ok(c), Ok(m)) => c@ == m,
                (Err(e), Err(e2)) => e == e2,
                _ => false,
            },
    {
        let ghost fm = frame@;
        let items = match frame {
            Frame::Array(items) => items,
            _ => {
                return Err(FrameError::Invalid);
            },
        };
        let ghost ms = items_model(items@);
        assert(fm == FrameModel::Array(ms)) by {
            let x = match fm {
                FrameModel::Array(x) => x,
                _ => Seq::empty(),
            };
            assert(x =~= ms);
        }
        let ghost args = ms.skip(1);
        let name = match bulk_arg(&items, 0) {
            Some(name) => name,
            None => {
                return Err(FrameError::Invalid);
            },
        };
        let ghost w = ascii_upper(encode_utf8(name@));
        assert(forall|k: int| 0 <= k ==> #[trigger] bulk_at(args, k) == bulk_at(ms, k + 1));
        if is_word(&name, &[80u8, 73u8, 78u8, 71u8]) {
            assert(w == word_ping());
            Ok(Command::Ping)
        } else if is_word(&name, &[69u8, 67u8, 72u8, 79u8]) {
            assert(w == word_echo());
            match bulk_arg(&items, 1) {
                Some(message) => Ok(Command::Echo { message }),
                None => Err(FrameError::Invalid),
            }
        } else if is_word(&name, &[71u8, 69u8, 84u8]) {
            assert(w == word_get());
            match bulk_arg(&items, 1) {
                Some(key) => Ok(Command::Get { key }),
                None => Err(FrameError::Invalid),
            }
        } else if is_word(&name, &[83u8, 69u8, 84u8]) {
            assert(w == word_set());
            Self::set_from_args(&items)
        } else if is_word(&name, &[69u8, 88u8, 73u8, 83u8, 84u8, 83u8]) {
            assert(w == word_exists());
            match bulk_arg(&items, 1) {
                Some(key) => Ok(Command::Exists { key }),
                None => Err(FrameError::Invalid),
            }
        } else if is_word(&name, &[73u8, 78u8, 67u8, 82u8]) {
            assert(w == word_incr());
            match bulk_arg(&items, 1) {
                Some(key) => Ok(Command::Incr { key }),
                None => Err(FrameError::Invalid),
            }
        } else if is_word(&name, &[68u8, 69u8, 67u8, 82u8]) {
            assert(w == word_decr());
            match bulk_arg(&items, 1) {
                Some(key) => Ok(Command::Decr { key }),
                None => Err(FrameError::Invalid),
            }
        } else if is_word(&name, &[68u8, 69u8, 76u8]) {
            assert(w == word_del());
            match bulk_args(&items, 1) {
                Some(keys) => Ok(Command::Del { keys }),
                None => Err(FrameError::Invalid),
            }
        } else if is_word(&name, &[77u8, 71u8, 69u8, 84u8]) {
            assert(w == word_mget());
            match bulk_args(&items, 1) {
                Some(keys) => Ok(Command::Mget { keys }),
                None => Err(FrameError::Invalid),
            }
        } else if is_word(&name, &[77u8, 83u8, 69u8, 84u8]) {
            assert(w == word_mset());
            match bulk_pair_args(&items, 1) {
                Some(pairs) => Ok(Command::Mset { pairs }),
                None => Err(FrameError::Invalid),
            }
        } else if is_word(&name, &[83u8, 85u8, 66u8, 83u8, 67u8, 82u8, 73u8, 66u8, 69u8]) {
            assert(w == word_subscribe());
            match bulk_args(&items, 1) {
                Some(channels) => Ok(Command::Subscribe { channels }),
                None => Err(FrameError::Invalid),
            }
        } else if is_word(&name, &[80u8, 85u8, 66u8, 76u8, 73u8, 83u8, 72u8]) {
            assert(w == word_publish());
            match (bulk_arg(&items, 1), bulk_arg(&items, 2)) {
                (Some(channel), Some(message)) => Ok(Command::Publish { channel, message }),
                _ => Err(FrameError::Invalid),
            }
        } else {
            Err(FrameError::Invalid)
        }
    }

    /// `SET key value [EX seconds | PX milliseconds]`, from the items after the name.
    fn set_from_args(items: &Vec<Frame>) -> (r: Result<Command, FrameError>)
        requires
            items@.len() >= 1,
        ensures
            match (r, set_command(items_model(items@).skip(1))) {
                (Ok(c), Ok(m)) => c@ == m,
                (Err(e), Err(e2)) => e == e2,
                _ => false,
            },
    {
        let ghost args = items_model(items@).skip(1);
        assert(forall|k: int| 0 <= k ==> #[trigger] bulk_at(args, k) == bulk_at(items_model(items@), k + 1));
        let key = match bulk_arg(items, 1) {
            Some(s) => s,
            None => {
                return Err(FrameError::Invalid);
            },
        };
        let value = match bulk_arg(items, 2) {
            Some(s) => s,
            None => {
                return Err(FrameError::Invalid);
            },
        };
        if items.len() == 3 {
            return Ok(Command::SetKey { key, value, expiry: None });
        }
        let (scale, amount) = match (bulk_arg(items, 3), bulk_arg(items, 4)) {
            (Some(scale), Some(amount)) => (scale, amount),
            _ => {
                return Err(FrameError::Invalid);
            },
        };
        let n = match parse_u64(amount.as_str().as_bytes()) {
            Some(n) => n,
            None => {
                return Err(FrameError::Invalid);
            },
        };
        if is_word(&scale, &[69u8, 88u8]) {
            Ok(Command::SetKey { key, value, expiry: Some(Duration::from_secs(n)) })
        } else if is_word(&scale, &[80u8, 88u8]) {
            Ok(Command::SetKey { key, value, expiry: Some(Duration::from_millis(n)) })
        } else {
            Err(FrameError::Invalid)
        }
    }
}

} // verus!
