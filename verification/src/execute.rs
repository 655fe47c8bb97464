//! What each command does to the store, and the reply it gives.
use vstd::prelude::*;
use vstd::utf8::*;

use crate::command::{Command, CommandModel, strings_model, pairs_model};
use crate::decimal::{decimal, is_digit, lemma_decimal_shape, lemma_nat_digits, nat_digits, parse_i64, std_i64_of};
use crate::duration::{duration_nanos, max_duration_nanos};
use crate::frame::{Frame, FrameModel};
use crate::store::{expired, live, Db, Entry, EntryModel};

verus! {

broadcast use vstd::string::group_string_axioms;

/// The store as a map from keys to entries.
pub type StoreModel = Map<Seq<char>, EntryModel>;

/// The decimal text of `n` as characters.
pub open spec fn decimal_text(n: int) -> Seq<char> {
    decimal(n).map_values(|b: u8| b as char)
}

/// The error reply of `INCR` and `DECR` on a value that is not an integer, or
/// whose result would not fit.
pub open spec fn not_integer_message() -> Seq<char> {
    "ERR value is not an integer or out of range"@
}

/// `GET`: the value of a live key; an expired key is dropped and reads as absent.
pub open spec fn get_step(m: StoreModel, k: Seq<char>, now: int) -> (StoreModel, FrameModel) {
    if m.contains_key(k) {
        if expired(m[k], now) {
            (m.remove(k), FrameModel::Null)
        } else {
            (m, FrameModel::Bulk(m[k].value))
        }
    } else {
        (m, FrameModel::Null)
    }
}

/// `EXISTS`: 1 for a live key, 0 otherwise; an expired key is dropped.
pub open spec fn exists_step(m: StoreModel, k: Seq<char>, now: int) -> (StoreModel, FrameModel) {
    if m.contains_key(k) {
        if expired(m[k], now) {
            (m.remove(k), FrameModel::Integer(0))
        } else {
            (m, FrameModel::Integer(1))
        }
    } else {
        (m, FrameModel::Integer(0))
    }
}

/// `INCR` and `DECR`: reads the live value as an integer (an absent or expired key
/// as 0), adds `delta`, and stores the result without expiry.
pub open spec fn incr_step(m: StoreModel, k: Seq<char>, delta: int, now: int) -> (StoreModel, FrameModel) {
    let current = if m.contains_key(k) && !expired(m[k], now) {
        std_i64_of(encode_utf8(m[k].value))
    } else {
        Some(0i64)
    };
    match current {
        Some(n) => {
            if i64::MIN <= n + delta <= i64::MAX {
                (
                    m.insert(k, EntryModel { value: decimal_text(n + delta), expires_at: None }),
                    FrameModel::Integer((n + delta) as i64),
                )
            } else {
                (m, FrameModel::Error(not_integer_message()))
            }
        },
        None => (m, FrameModel::Error(not_integer_message())),
    }
}

/// `DEL`: removes each key in turn, counting those that were live.
pub open spec fn del_fold(m: StoreModel, keys: Seq<Seq<char>>, now: int) -> (StoreModel, int)
    decreases keys.len(),
{
    if keys.len() == 0 {
        (m, 0)
    } else {
        let (m1, c) = del_fold(m, keys.drop_last(), now);
        let k = keys.last();
        (m1.remove(k), if m1.contains_key(k) && !expired(m1[k], now) { c + 1 } else { c })
    }
}

/// `MGET`: reads each key in turn as `GET` does.
pub open spec fn mget_fold(m: StoreModel, keys: Seq<Seq<char>>, now: int) -> (StoreModel, Seq<FrameModel>)
    decreases keys.len(),
{
    if keys.len() == 0 {
        (m, Seq::empty())
    } else {
        let (m1, fs) = mget_fold(m, keys.drop_last(), now);
        let (m2, f) = get_step(m1, keys.last(), now);
        (m2, fs.push(f))
    }
}

/// `MSET`: stores each pair in turn, without expiry.
pub open spec fn mset_fold(m: StoreModel, pairs: Seq<(Seq<char>, Seq<char>)>) -> StoreModel
    decreases pairs.len(),
{
    if pairs.len() == 0 {
        m
    } else {
        mset_fold(m, pairs.drop_last()).insert(
            pairs.last().0,
            EntryModel { value: pairs.last().1, expires_at: None },
        )
    }
}

/// The store after a command at clock reading `now`, and the reply. Publishing
/// and subscribing do not touch the store and are answered by the connection.
pub open spec fn run(c: CommandModel, m: StoreModel, now: int) -> (StoreModel, FrameModel) {
    match c {
        CommandModel::Ping => (m, FrameModel::Simple("PONG"@)),
        CommandModel::Echo(s) => (m, FrameModel::Bulk(s)),
        CommandModel::Get(k) => get_step(m, k, now),
        CommandModel::SetKey(k, v, e) => (
            m.insert(k, EntryModel {
                value: v,
                expires_at: match e {
                    Some(d) => Some((now + d) as nat),
                    None => None,
                },
            }),
            FrameModel::Simple("OK"@),
        ),
        CommandModel::Exists(k) => exists_step(m, k, now),
        CommandModel::Incr(k) => incr_step(m, k, 1, now),
        CommandModel::Decr(k) => incr_step(m, k, -1, now),
        CommandModel::Del(keys) => {
            let (m1, c) = del_fold(m, keys, now);
            (m1, FrameModel::Integer(c as i64))
        },
        CommandModel::Mget(keys) => {
            let (m1, fs) = mget_fold(m, keys, now);
            (m1, FrameModel::Array(fs))
        },
        CommandModel::Mset(pairs) => (mset_fold(m, pairs), FrameModel::Simple("OK"@)),
        CommandModel::Subscribe(_) => (m, FrameModel::Null),
        CommandModel::Publish(_, _) => (m, FrameModel::Null),
    }
}

/// Whether the store, rather than the connection, answers the command.
pub open spec fn runs_on_store(c: CommandModel) -> bool {
    !(c is Subscribe) && !(c is Publish)
}

/// What `SET` stores is what a later `GET` reads, until the entry's time runs out;
/// after that the key reads as absent.
pub proof fn law_set_then_get(m: StoreModel, k: Seq<char>, v: Seq<char>, e: Option<nat>, t1: int, t2: int)
    requires
        0 <= t1,
    ensures
        run(CommandModel::Get(k), run(CommandModel::SetKey(k, v, e), m, t1).0, t2).1 == (
            match e {
                Some(d) => if t2 > t1 + d { FrameModel::Null } else { FrameModel::Bulk(v) },
                None => FrameModel::Bulk(v),
            }),
{
}

/// Reads never change what clients see: after `GET`, `EXISTS` or `MGET`, the
/// live entries are the ones there were before (only expired entries may go).
pub proof fn law_reads_keep_live_view(c: CommandModel, m: StoreModel, now: int)
    requires
        c is Get || c is Exists || c is Mget,
    ensures
        live(run(c, m, now).0, now) == live(m, now),
{
    match c {
        CommandModel::Get(k) => {
            lemma_get_step_live(m, k, now);
        },
        CommandModel::Exists(k) => {
            assert(live(exists_step(m, k, now).0, now) =~= live(m, now));
        },
        CommandModel::Mget(keys) => {
            lemma_mget_fold_live(m, keys, now);
        },
        _ => {},
    }
}

proof fn lemma_get_step_live(m: StoreModel, k: Seq<char>, now: int)
    ensures
        live(get_step(m, k, now).0, now) == live(m, now),
{
    assert(live(get_step(m, k, now).0, now) =~= live(m, now));
}

proof fn lemma_mget_fold_live(m: StoreModel, keys: Seq<Seq<char>>, now: int)
    ensures
        live(mget_fold(m, keys, now).0, now) == live(m, now),
    decreases keys.len(),
{
    if keys.len() > 0 {
        lemma_mget_fold_live(m, keys.drop_last(), now);
        lemma_get_step_live(mget_fold(m, keys.drop_last(), now).0, keys.last(), now);
    }
}

/// After `MSET`, each key it names reads as the value of its last pair.
pub proof fn law_mset_then_get(m: StoreModel, pairs: Seq<(Seq<char>, Seq<char>)>, i: int, now: int)
    requires
        0 <= i < pairs.len(),
        forall|j: int| i < j < pairs.len() ==> #[trigger] pairs[j].0 != pairs[i].0,
    ensures
        get_step(mset_fold(m, pairs), pairs[i].0, now) == (mset_fold(m, pairs), FrameModel::Bulk(pairs[i].1)),
    decreases pairs.len(),
{
    if i < pairs.len() - 1 {
        let p = pairs.drop_last();
        assert(forall|j: int| i < j < p.len() ==> #[trigger] p[j] == pairs[j]);
        law_mset_then_get(m, p, i, now);
        assert(pairs.last().0 != pairs[i].0);
    }
}

/// `DEL` removes every key it names, and answers how many of them, counted once
/// each, were live.
pub proof fn law_del(m: StoreModel, keys: Seq<Seq<char>>, now: int)
    ensures
        del_fold(m, keys, now).0 == m.remove_keys(keys.to_set()),
        del_fold(m, keys, now).1 == keys.to_set().intersect(live(m, now).dom()).len(),
    decreases keys.len(),
{
    broadcast use vstd::seq_lib::seq_to_set_is_finite, vstd::set::axiom_set_intersect_finite,
        vstd::set::axiom_set_insert_len;

    if keys.len() == 0 {
        assert(keys.to_set() =~= Set::<Seq<char>>::empty());
        assert(m.remove_keys(keys.to_set()) =~= m);
        assert(keys.to_set().intersect(live(m, now).dom()) =~= Set::<Seq<char>>::empty());
    } else {
        let p = keys.drop_last();
        let k = keys.last();
        law_del(m, p, now);
        let ps = p.to_set();
        let l = live(m, now).dom();
        assert(keys =~= p.push(k));
        assert(keys.to_set() =~= ps.insert(k)) by {
            assert forall|x: Seq<char>| keys.to_set().contains(x) <==> ps.insert(k).contains(x) by {
                if keys.to_set().contains(x) {
                    let i = choose|i: int| 0 <= i < keys.len() && keys[i] == x;
                    if i < p.len() {
                        assert(p[i] == x);
                    }
                }
                if ps.contains(x) {
                    let i = choose|i: int| 0 <= i < p.len() && p[i] == x;
                    assert(keys[i] == x);
                }
                if x == k {
                    assert(keys[keys.len() - 1] == x);
                }
            }
        }
        let m1 = m.remove_keys(ps);
        assert(m1.remove(k) =~= m.remove_keys(ps.insert(k)));
        if l.contains(k) && !ps.contains(k) {
            assert(ps.insert(k).intersect(l) =~= ps.intersect(l).insert(k));
            assert(!ps.intersect(l).contains(k));
        } else {
            assert(ps.insert(k).intersect(l) =~= ps.intersect(l));
        }
    }
}

proof fn lemma_live_insert(m: StoreModel, k: Seq<char>, e: EntryModel, now: int)
    requires
        !expired(e, now),
    ensures
        live(m.insert(k, e), now) == live(m, now).insert(k, e),
{
    assert(live(m.insert(k, e), now) =~= live(m, now).insert(k, e));
}

proof fn lemma_live_remove(m: StoreModel, k: Seq<char>, now: int)
    ensures
        live(m.remove(k), now) == live(m, now).remove(k),
{
    assert(live(m.remove(k), now) =~= live(m, now).remove(k));
}

proof fn lemma_live_idempotent(m: StoreModel, now: int)
    ensures
        live(live(m, now), now) == live(m, now),
{
    assert(live(live(m, now), now) =~= live(m, now));
}

/// A key is live in `m` exactly when `live(m, now)` holds it, with the same entry.
proof fn lemma_live_lookup(a: StoreModel, b: StoreModel, k: Seq<char>, now: int)
    requires
        live(a, now) == live(b, now),
    ensures
        (a.contains_key(k) && !expired(a[k], now)) == (b.contains_key(k) && !expired(b[k], now)),
        a.contains_key(k) && !expired(a[k], now) ==> a[k] == b[k],
{
    if a.contains_key(k) && !expired(a[k], now) {
        assert(live(a, now).contains_key(k));
        assert(live(b, now).contains_key(k));
        assert(live(a, now)[k] == a[k]);
        assert(live(b, now)[k] == b[k]);
    }
    if b.contains_key(k) && !expired(b[k], now) {
        assert(live(b, now).contains_key(k));
        assert(live(a, now).contains_key(k));
    }
}

proof fn lemma_del_fold_congruent(a: StoreModel, b: StoreModel, keys: Seq<Seq<char>>, now: int)
    requires
        live(a, now) == live(b, now),
    ensures
        del_fold(a, keys, now).1 == del_fold(b, keys, now).1,
        live(del_fold(a, keys, now).0, now) == live(del_fold(b, keys, now).0, now),
    decreases keys.len(),
{
    if keys.len() > 0 {
        lemma_del_fold_congruent(a, b, keys.drop_last(), now);
        let a1 = del_fold(a, keys.drop_last(), now).0;
        let b1 = del_fold(b, keys.drop_last(), now).0;
        lemma_live_lookup(a1, b1, keys.last(), now);
        lemma_live_remove(a1, keys.last(), now);
        lemma_live_remove(b1, keys.last(), now);
    }
}

proof fn lemma_mget_fold_congruent(a: StoreModel, b: StoreModel, keys: Seq<Seq<char>>, now: int)
    requires
        live(a, now) == live(b, now),
    ensures
        mget_fold(a, keys, now).1 == mget_fold(b, keys, now).1,
        live(mget_fold(a, keys, now).0, now) == live(mget_fold(b, keys, now).0, now),
    decreases keys.len(),
{
    lemma_mget_fold_live(a, keys, now);
    lemma_mget_fold_live(b, keys, now);
    if keys.len() > 0 {
        lemma_mget_fold_congruent(a, b, keys.drop_last(), now);
        let a1 = mget_fold(a, keys.drop_last(), now).0;
        let b1 = mget_fold(b, keys.drop_last(), now).0;
        lemma_mget_fold_live(a, keys.drop_last(), now);
        lemma_mget_fold_live(b, keys.drop_last(), now);
        lemma_live_lookup(a1, b1, keys.last(), now);
    }
}

proof fn lemma_mset_fold_congruent(a: StoreModel, b: StoreModel, pairs: Seq<(Seq<char>, Seq<char>)>, now: int)
    requires
        live(a, now) == live(b, now),
    ensures
        live(mset_fold(a, pairs), now) == live(mset_fold(b, pairs), now),
    decreases pairs.len(),
{
    if pairs.len() > 0 {
        lemma_mset_fold_congruent(a, b, pairs.drop_last(), now);
        let e = EntryModel { value: pairs.last().1, expires_at: None };
        lemma_live_insert(mset_fold(a, pairs.drop_last()), pairs.last().0, e, now);
        lemma_live_insert(mset_fold(b, pairs.drop_last()), pairs.last().0, e, now);
    }
}

/// Two stores that agree on their live entries give the same reply to every
/// command, and agree on their live entries afterwards.
pub proof fn lemma_run_congruent(c: CommandModel, a: StoreModel, b: StoreModel, now: int)
    requires
        live(a, now) == live(b, now),
        0 <= now,
    ensures
        run(c, a, now).1 == run(c, b, now).1,
        live(run(c, a, now).0, now) == live(run(c, b, now).0, now),
{
    match c {
        CommandModel::Get(k) => {
            lemma_live_lookup(a, b, k, now);
            lemma_get_step_live(a, k, now);
            lemma_get_step_live(b, k, now);
        },
        CommandModel::Exists(k) => {
            lemma_live_lookup(a, b, k, now);
            assert(live(exists_step(a, k, now).0, now) =~= live(a, now));
            assert(live(exists_step(b, k, now).0, now) =~= live(b, now));
        },
        CommandModel::SetKey(k, v, e) => {
            let entry = EntryModel {
                value: v,
                expires_at: match e {
                    Some(d) => Some((now + d) as nat),
                    None => None,
                },
            };
            lemma_live_insert(a, k, entry, now);
            lemma_live_insert(b, k, entry, now);
        },
        CommandModel::Incr(k) => {
            lemma_live_lookup(a, b, k, now);
            let r = incr_step(a, k, 1, now);
            if let FrameModel::Integer(v) = r.1 {
                let entry = EntryModel { value: decimal_text(v as int), expires_at: None };
                lemma_live_insert(a, k, entry, now);
                lemma_live_insert(b, k, entry, now);
            }
        },
        CommandModel::Decr(k) => {
            lemma_live_lookup(a, b, k, now);
            let r = incr_step(a, k, -1, now);
            if let FrameModel::Integer(v) = r.1 {
                let entry = EntryModel { value: decimal_text(v as int), expires_at: None };
                lemma_live_insert(a, k, entry, now);
                lemma_live_insert(b, k, entry, now);
            }
        },
        CommandModel::Del(keys) => {
            lemma_del_fold_congruent(a, b, keys, now);
        },
        CommandModel::Mget(keys) => {
            lemma_mget_fold_congruent(a, b, keys, now);
        },
        CommandModel::Mset(pairs) => {
            lemma_mset_fold_congruent(a, b, pairs, now);
        },
        _ => {},
    }
}

/// Expired entries never show: dropping them first, as the background purge
/// does, changes no reply and no live entry after any command.
pub proof fn law_expired_entries_are_invisible(c: CommandModel, m: StoreModel, now: int)
    requires
        0 <= now,
    ensures
        run(c, live(m, now), now).1 == run(c, m, now).1,
        live(run(c, live(m, now), now).0, now) == live(run(c, m, now).0, now),
{
    lemma_live_idempotent(m, now);
    lemma_run_congruent(c, live(m, now), m, now);
}

/// The decimal text of an `i64` reads back, as `str::parse::<i64>` reads it, as
/// that number.
pub proof fn lemma_decimal_text_parses(v: i64)
    ensures
        std_i64_of(encode_utf8(decimal_text(v as int))) == Some(v),
{
    broadcast use is_ascii_chars_encode_utf8;

    let d = decimal(v as int);
    let cs = decimal_text(v as int);
    lemma_decimal_shape(v as int);
    assert(is_ascii_chars(cs)) by {
        assert forall|i: int| 0 <= i < cs.len() implies '\0' <= #[trigger] cs[i] <= '\u{7f}' by {
            if v < 0 {
                lemma_nat_digits((-v) as nat);
                if i > 0 {
                    assert(d[i] == d.skip(1)[i - 1]);
                    assert(is_digit(nat_digits((-v) as nat)[i - 1]));
                }
            } else {
                lemma_nat_digits(v as nat);
                assert(is_digit(nat_digits(v as nat)[i]));
            }
        }
    }
    assert(encode_utf8(cs) =~= d) by {
        assert forall|i: int| 0 <= i < cs.len() implies (cs[i] as u8) == d[i] by {
            if v < 0 {
                lemma_nat_digits((-v) as nat);
                if i > 0 {
                    assert(d[i] == d.skip(1)[i - 1]);
                    assert(is_digit(nat_digits((-v) as nat)[i - 1]));
                }
            } else {
                lemma_nat_digits(v as nat);
                assert(is_digit(nat_digits(v as nat)[i]));
            }
        }
    }
    if v < 0 {
        lemma_nat_digits((-v) as nat);
        assert(d[0] == 45);
    } else {
        lemma_nat_digits(v as nat);
        assert(is_digit(d[0]));
    }
}

/// Counting steps add up: after an `INCR` or `DECR` (a step of `d1`) that succeeds
/// with `v`, a further step of `d2` gives `v + d2`, when that fits, and stores its
/// decimal text without expiry.
pub proof fn law_incr_twice(m: StoreModel, k: Seq<char>, now: int, d1: int, d2: int, v: i64)
    requires
        incr_step(m, k, d1, now).1 == FrameModel::Integer(v),
        i64::MIN <= v + d2 <= i64::MAX,
    ensures
        incr_step(incr_step(m, k, d1, now).0, k, d2, now) == (
            incr_step(m, k, d1, now).0.insert(k, EntryModel { value: decimal_text(v + d2), expires_at: None }),
            FrameModel::Integer((v + d2) as i64),
        ),
{
    lemma_decimal_text_parses(v);
}

/// `INCR` adds one and `DECR` takes one away from the number a live key holds,
/// whether or not the key has a deadline: the reply is the new number, and the
/// key then holds its decimal text, without a deadline. A key that is absent or
/// expired counts from 0.
pub proof fn law_counter_step(c: CommandModel, k: Seq<char>, d: int, m: StoreModel, now: int, n: i64)
    requires
        (c == CommandModel::Incr(k) && d == 1) || (c == CommandModel::Decr(k) && d == -1),
        live(m, now).contains_key(k) ==> std_i64_of(encode_utf8(live(m, now)[k].value)) == Some(n),
        !live(m, now).contains_key(k) ==> n == 0,
        i64::MIN <= n + d <= i64::MAX,
    ensures
        run(c, m, now) == (
            m.insert(k, EntryModel { value: decimal_text(n + d), expires_at: None }),
            FrameModel::Integer((n + d) as i64),
        ),
{
    if m.contains_key(k) && !expired(m[k], now) {
        assert(live(m, now).contains_key(k));
        assert(live(m, now)[k] == m[k]);
    } else {
        assert(!live(m, now).contains_key(k));
    }
}

/// `INCR` and `DECR` refuse, leaving the store as it was, when the live value of
/// the key does not read as an `i64`, or when the new number would not fit.
pub proof fn law_counter_refused(c: CommandModel, k: Seq<char>, d: int, m: StoreModel, now: int)
    requires
        (c == CommandModel::Incr(k) && d == 1) || (c == CommandModel::Decr(k) && d == -1),
        live(m, now).contains_key(k),
        match std_i64_of(encode_utf8(live(m, now)[k].value)) {
            Some(n) => !(i64::MIN <= n + d <= i64::MAX),
            None => true,
        },
    ensures
        run(c, m, now) == (m, FrameModel::Error(not_integer_message())),
{
    assert(m.contains_key(k) && !expired(m[k], now));
    assert(live(m, now)[k] == m[k]);
}

/// `SET` stores its value under its key, with the deadline `now` plus the expiry
/// when one is given, answers `OK`, and leaves every other key as it was.
pub proof fn law_set(k: Seq<char>, v: Seq<char>, e: Option<nat>, m: StoreModel, now: int)
    requires
        0 <= now,
    ensures
        run(CommandModel::SetKey(k, v, e), m, now).1 == FrameModel::Simple("OK"@),
        run(CommandModel::SetKey(k, v, e), m, now).0.dom() == m.dom().insert(k),
        run(CommandModel::SetKey(k, v, e), m, now).0[k].value == v,
        run(CommandModel::SetKey(k, v, e), m, now).0[k].expires_at == (match e {
            Some(t) => Some((now + t) as nat),
            None => None::<nat>,
        }),
        forall|k2: Seq<char>| k2 != k && m.contains_key(k2) ==> #[trigger] run(CommandModel::SetKey(k, v, e), m, now).0[k2] == m[k2],
{
}

/// `PING` answers `PONG` and `ECHO` its message; neither touches the store.
pub proof fn law_ping_echo(s: Seq<char>, m: StoreModel, now: int)
    ensures
        run(CommandModel::Ping, m, now) == (m, FrameModel::Simple("PONG"@)),
        run(CommandModel::Echo(s), m, now) == (m, FrameModel::Bulk(s)),
{
}

/// `EXISTS` answers 1 exactly when the key holds an entry that is live at `now`,
/// whatever its deadline, and 0 otherwise.
pub proof fn law_exists(k: Seq<char>, m: StoreModel, now: int)
    ensures
        run(CommandModel::Exists(k), m, now).1
            == FrameModel::Integer(if live(m, now).contains_key(k) { 1 } else { 0 }),
{
    if m.contains_key(k) && !expired(m[k], now) {
        assert(live(m, now).contains_key(k));
    } else {
        assert(!live(m, now).contains_key(k));
    }
}

/// What `GET` answers for `k` on a store whose live entries are `l`.
pub open spec fn value_reply(l: StoreModel, k: Seq<char>) -> FrameModel {
    if l.contains_key(k) {
        FrameModel::Bulk(l[k].value)
    } else {
        FrameModel::Null
    }
}

/// `GET` answers the value of a live key, whatever its deadline, and nil for a
/// key that is absent or expired.
pub proof fn law_get(k: Seq<char>, m: StoreModel, now: int)
    ensures
        run(CommandModel::Get(k), m, now).1 == value_reply(live(m, now), k),
{
    if m.contains_key(k) && !expired(m[k], now) {
        assert(live(m, now).contains_key(k));
        assert(live(m, now)[k] == m[k]);
    } else {
        assert(!live(m, now).contains_key(k));
    }
}

/// `MGET` answers one item per key, in order: the value of each key that is live
/// at `now`, whatever its deadline, and nil for the others; that is, what `GET`
/// answers for that key on the store as it was.
pub proof fn law_mget(keys: Seq<Seq<char>>, m: StoreModel, now: int)
    ensures
        run(CommandModel::Mget(keys), m, now).1
            == FrameModel::Array(Seq::new(keys.len(), |i: int| value_reply(live(m, now), keys[i]))),
        forall|i: int| 0 <= i < keys.len() ==>
            #[trigger] value_reply(live(m, now), keys[i]) == run(CommandModel::Get(keys[i]), m, now).1,
{
    lemma_mget_replies(keys, m, now);
    assert(mget_fold(m, keys, now).1 =~= Seq::new(keys.len(), |i: int| value_reply(live(m, now), keys[i])));
    assert forall|i: int| 0 <= i < keys.len() implies
        #[trigger] value_reply(live(m, now), keys[i]) == run(CommandModel::Get(keys[i]), m, now).1 by {
        law_get(keys[i], m, now);
    }
}

proof fn lemma_mget_replies(keys: Seq<Seq<char>>, m: StoreModel, now: int)
    ensures
        mget_fold(m, keys, now).1.len() == keys.len(),
        forall|i: int| 0 <= i < keys.len() ==>
            #[trigger] mget_fold(m, keys, now).1[i] == value_reply(live(m, now), keys[i]),
    decreases keys.len(),
{
    if keys.len() > 0 {
        let p = keys.drop_last();
        lemma_mget_replies(p, m, now);
        lemma_mget_fold_live(m, p, now);
        let m1 = mget_fold(m, p, now).0;
        law_get(keys.last(), m1, now);
        assert forall|i: int| 0 <= i < keys.len() implies
            #[trigger] mget_fold(m, keys, now).1[i] == value_reply(live(m, now), keys[i]) by {
            if i < p.len() {
                assert(p[i] == keys[i]);
            }
        }
    }
}

/// The keys that the pairs of an `MSET` name.
pub open spec fn named_keys(pairs: Seq<(Seq<char>, Seq<char>)>) -> Set<Seq<char>> {
    Set::new(|k: Seq<char>| exists|j: int| 0 <= j < pairs.len() && #[trigger] pairs[j].0 == k)
}

/// `MSET` only adds its pairs: afterwards the store holds the keys it held and
/// the keys the pairs name; a key that no pair names keeps its entry; a named key
/// holds the value of its last pair, without a deadline; and the reply is `OK`.
pub proof fn law_mset(pairs: Seq<(Seq<char>, Seq<char>)>, m: StoreModel, now: int)
    ensures
        run(CommandModel::Mset(pairs), m, now).1 == FrameModel::Simple("OK"@),
        run(CommandModel::Mset(pairs), m, now).0.dom() == m.dom() + named_keys(pairs),
        forall|k: Seq<char>| !named_keys(pairs).contains(k) && m.contains_key(k) ==>
            #[trigger] run(CommandModel::Mset(pairs), m, now).0[k] == m[k],
        forall|i: int| 0 <= i < pairs.len() && (forall|j: int| i < j < pairs.len() ==> pairs[j].0 != pairs[i].0) ==>
            run(CommandModel::Mset(pairs), m, now).0[#[trigger] pairs[i].0]
                == (EntryModel { value: pairs[i].1, expires_at: None }),
{
    lemma_mset_keeps(pairs, m);
    assert forall|i: int| 0 <= i < pairs.len() && (forall|j: int| i < j < pairs.len() ==> pairs[j].0 != pairs[i].0) implies
        run(CommandModel::Mset(pairs), m, now).0[#[trigger] pairs[i].0]
            == (EntryModel { value: pairs[i].1, expires_at: None }) by {
        lemma_mset_last_pair(m, pairs, i);
    }
}

proof fn lemma_mset_last_pair(m: StoreModel, pairs: Seq<(Seq<char>, Seq<char>)>, i: int)
    requires
        0 <= i < pairs.len(),
        forall|j: int| i < j < pairs.len() ==> #[trigger] pairs[j].0 != pairs[i].0,
    ensures
        mset_fold(m, pairs).contains_key(pairs[i].0),
        mset_fold(m, pairs)[pairs[i].0] == (EntryModel { value: pairs[i].1, expires_at: None }),
    decreases pairs.len(),
{
    if i < pairs.len() - 1 {
        let p = pairs.drop_last();
        assert(forall|j: int| i < j < p.len() ==> #[trigger] p[j] == pairs[j]);
        lemma_mset_last_pair(m, p, i);
        assert(pairs.last().0 != pairs[i].0);
    }
}

proof fn lemma_mset_keeps(pairs: Seq<(Seq<char>, Seq<char>)>, m: StoreModel)
    ensures
        mset_fold(m, pairs).dom() == m.dom() + named_keys(pairs),
        forall|k: Seq<char>| !named_keys(pairs).contains(k) && m.contains_key(k) ==>
            #[trigger] mset_fold(m, pairs)[k] == m[k],
    decreases pairs.len(),
{
    if pairs.len() == 0 {
        assert(named_keys(pairs) =~= Set::<Seq<char>>::empty());
        assert(m.dom() + named_keys(pairs) =~= m.dom());
    } else {
        let p = pairs.drop_last();
        lemma_mset_keeps(p, m);
        assert(named_keys(pairs) =~= named_keys(p).insert(pairs.last().0)) by {
            assert forall|k: Seq<char>| named_keys(pairs).contains(k) <==> named_keys(p).insert(pairs.last().0).contains(k) by {
                if named_keys(pairs).contains(k) {
                    let j = choose|j: int| 0 <= j < pairs.len() && #[trigger] pairs[j].0 == k;
                    if j < p.len() {
                        assert(p[j].0 == k);
                    }
                }
                if named_keys(p).contains(k) {
                    let j = choose|j: int| 0 <= j < p.len() && #[trigger] p[j].0 == k;
                    assert(pairs[j].0 == k);
                }
                if k == pairs.last().0 {
                    assert(pairs[pairs.len() - 1].0 == k);
                }
            }
        }
        assert(mset_fold(m, pairs).dom() =~= m.dom() + named_keys(pairs));
    }
}

/// `DECR` undoes `INCR`: after an `INCR` that succeeds with `v`, a `DECR` of the
/// same key gives `v - 1` and stores its decimal text.
pub proof fn law_incr_then_decr(m: StoreModel, k: Seq<char>, now: int, v: i64)
    requires
        incr_step(m, k, 1, now).1 == FrameModel::Integer(v),
    ensures
        incr_step(incr_step(m, k, 1, now).0, k, -1, now) == (
            incr_step(m, k, 1, now).0.insert(k, EntryModel { value: decimal_text(v - 1), expires_at: None }),
            FrameModel::Integer((v - 1) as i64),
        ),
{
    law_incr_twice(m, k, now, 1, -1, v);
}

/// The decimal text of `n`, through `i64`'s `ToString`, which writes integers in
/// decimal with a leading `-` for negative numbers.
#[verifier::external_body]
fn integer_text(n: i64) -> (s: String)
    ensures
        s@ == decimal_text(n as int),
{
    n.to_string()
}

fn get_value(db: &mut Db, key: &String, now: u64) -> (r: Frame)
    ensures
        (final(db)@, r@) == get_step(old(db)@, key@, now as int),
{
    match db.get(key) {
        Some(entry) => {
            if !entry.is_expired(now) {
                return Frame::Bulk(entry.value.clone());
            }
        },
        None => {
            return Frame::Null;
        },
    }
    db.remove(key);
    Frame::Null
}

fn exists_value(db: &mut Db, key: &String, now: u64) -> (r: Frame)
    ensures
        (final(db)@, r@) == exists_step(old(db)@, key@, now as int),
{
    match db.get(key) {
        Some(entry) => {
            if !entry.is_expired(now) {
                return Frame::Integer(1);
            }
        },
        None => {
            return Frame::Integer(0);
        },
    }
    db.remove(key);
    Frame::Integer(0)
}

fn incr_by(db: &mut Db, key: String, delta: i64, now: u64) -> (r: Frame)
    requires
        delta == 1 || delta == -1,
    ensures
        (final(db)@, r@) == incr_step(old(db)@, key@, delta as int, now as int),
{
    let current = match db.get(&key) {
        Some(entry) => {
            if !entry.is_expired(now) {
                parse_i64(entry.value.as_str().as_bytes())
            } else {
                Some(0)
            }
        },
        None => Some(0),
    };
    let sum = match current {
        Some(n) => n.checked_add(delta),
        None => None,
    };
    match sum {
        Some(v) => {
            db.insert(key, Entry { value: integer_text(v), expires_at: None });
            Frame::Integer(v)
        },
        None => Frame::Error("ERR value is not an integer or out of range".to_string()),
    }
}

impl Command {
    /// Runs the command on the store at clock reading `now`, as `run` says, and
    /// returns the reply. Publishing and subscribing are left to the connection.
    pub fn execute(self, db: &mut Db, now: u64) -> (r: Frame)
        requires
            runs_on_store(self@),
            self matches Command::Del { keys } ==> keys@.len() <= i64::MAX,
        ensures
            (final(db)@, r@) == run(self@, old(db)@, now as int),
    {
        match self {
            Command::Ping => Frame::Simple("PONG".to_string()),
            Command::Echo { message } => Frame::Bulk(message),
            Command::Get { key } => get_value(db, &key, now),
            Command::SetKey { key, value, expiry } => {
                let expires_at = match expiry {
                    Some(d) => Some(now as u128 + d.as_nanos()),
                    None => None,
                };
                db.insert(key, Entry { value, expires_at });
                Frame::Simple("OK".to_string())
            },
            Command::Exists { key } => exists_value(db, &key, now),
            Command::Incr { key } => incr_by(db, key, 1, now),
            Command::Decr { key } => incr_by(db, key, -1, now),
            Command::Del { keys } => {
                let ghost ks = strings_model(keys@);
                let ghost m0 = db@;
                let mut count: i64 = 0;
                let mut i: usize = 0;
                while i < keys.len()
                    invariant
                        0 <= i <= keys@.len(),
                        keys@.len() <= i64::MAX,
                        ks == strings_model(keys@),
                        0 <= count <= i,
                        (db@, count as int) == del_fold(m0, ks.take(i as int), now as int),
                    decreases keys@.len() - i,
                {
                    assert(ks.take(i as int + 1).drop_last() =~= ks.take(i as int));
                    let was_live = match db.get(&keys[i]) {
                        Some(entry) => !entry.is_expired(now),
                        None => false,
                    };
                    db.remove(&keys[i]);
                    if was_live {
                        count = count + 1;
                    }
                    i = i + 1;
                }
                assert(ks.take(i as int) =~= ks);
                Frame::Integer(count)
            },
            Command::Mget { keys } => {
                let ghost ks = strings_model(keys@);
                let ghost m0 = db@;
                let mut result: Vec<Frame> = Vec::new();
                let ghost mut fs: Seq<FrameModel> = Seq::empty();
                let mut i: usize = 0;
                while i < keys.len()
                    invariant
                        0 <= i <= keys@.len(),
                        ks == strings_model(keys@),
                        fs.len() == result@.len(),
                        forall|j: int| 0 <= j < fs.len() ==> #[trigger] fs[j] == result@[j]@,
                        (db@, fs) == mget_fold(m0, ks.take(i as int), now as int),
                    decreases keys@.len() - i,
                {
                    assert(ks.take(i as int + 1).drop_last() =~= ks.take(i as int));
                    let f = get_value(db, &keys[i], now);
                    proof {
                        fs = fs.push(f@);
                    }
                    result.push(f);
                    i = i + 1;
                }
                assert(ks.take(i as int) =~= ks);
                let arr = Frame::Array(result);
                proof {
                    let x = match arr@ {
                        FrameModel::Array(x) => x,
                        _ => Seq::empty(),
                    };
                    assert(x =~= fs);
                }
                arr
            },
            Command::Mset { pairs } => {
                let ghost ps = pairs_model(pairs@);
                let ghost m0 = db@;
                let mut i: usize = 0;
                let n = pairs.len();
                let mut rest = pairs;
                while i < n
                    invariant
                        0 <= i <= n,
                        n == ps.len(),
                        rest@.len() == n,
                        ps == pairs_model(rest@),
                        db@ == mset_fold(m0, ps.take(i as int)),
                    decreases n - i,
                {
                    assert(ps.take(i as int + 1).drop_last() =~= ps.take(i as int));
                    let key = rest[i].0.clone();
                    let value = rest[i].1.clone();
                    db.insert(key, Entry { value, expires_at: None });
                    i = i + 1;
                }
                assert(ps.take(i as int) =~= ps);
                Frame::Simple("OK".to_string())
            },
            Command::Subscribe { .. } | Command::Publish { .. } => Frame::Null,
        }
    }
}

} // verus!
