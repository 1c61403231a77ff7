//! The properties this library promises, stated and proved over the
//! models that the executable functions' contracts use: how lookups
//! behave across writes and sweeps, expiry monotonicity, case-insensitive
//! dispatch, and the exactness of the bulk-string length check.

use vstd::prelude::*;

use crate::data_core::cmd_store_spec;
use crate::data_core::entry_expired;
use crate::data_core::expiry_from;
use crate::data_core::find_key;
use crate::data_core::insert_entry_spec;
use crate::data_core::lookup_key;
use crate::data_core::lower_of;
use crate::data_core::px_request;
use crate::data_core::response_spec;
use crate::data_core::store_after;
use crate::data_core::stored_entry_from;
use crate::data_core::sweep_spec;
use crate::data_core::unique_keys;
use crate::data_core::DataValueModel;
use crate::parser::parse_bulk_at;
use crate::parser::value_text;
use crate::parser::val_tokens;
use crate::parser::ParseError;
use crate::parser::ValueModel;
use crate::replication::SettingsModel;
use crate::tokenizer::byte_len;
use crate::tokenizer::TokenModel;

verus! {

/// The lengths and first characters of the verb literals, so that the
/// verbs are provably distinct.
proof fn lemma_verb_facts()
    ensures
        "ping"@.len() == 4,
        "echo"@.len() == 4,
        "set"@.len() == 3,
        "get"@.len() == 3,
        "command"@.len() == 7,
        "info"@.len() == 4,
        "replconf"@.len() == 8,
        "psync"@.len() == 5,
        "ping"@[0] == 'p',
        "echo"@[0] == 'e',
        "set"@[0] == 's',
        "get"@[0] == 'g',
        "info"@[0] == 'i',
{
    reveal_strlit("ping");
    reveal_strlit("echo");
    reveal_strlit("set");
    reveal_strlit("get");
    reveal_strlit("command");
    reveal_strlit("info");
    reveal_strlit("replconf");
    reveal_strlit("psync");
}

/// After a write, the written key reads back as exactly the written
/// entry, and every other key reads as before.
pub proof fn lemma_insert_lookup(
    store: Seq<(Seq<char>, DataValueModel)>,
    k: Seq<char>,
    v: DataValueModel,
    q: Seq<char>,
)
    requires
        unique_keys(store),
    ensures
        lookup_key(insert_entry_spec(store, k, v), k) == Some(v),
        q != k ==> lookup_key(insert_entry_spec(store, k, v), q) == lookup_key(store, q),
    decreases store.len(),
{
    crate::data_core::lemma_find_key(store, k);
    crate::data_core::lemma_find_key(store, q);
    let store1 = insert_entry_spec(store, k, v);
    crate::data_core::lemma_find_key(store1, k);
    crate::data_core::lemma_find_key(store1, q);
    match find_key(store, k) {
        Some(i) => {
            assert(store1 == store.update(i, (k, v)));
            assert(store1[i] == (k, v));
            match find_key(store1, k) {
                Some(p) => {
                    if p < i {
                        assert(store1[p] == store[p]);
                        assert(false);
                    }
                    if p > i {
                        assert(store1[i].0 != k);
                        assert(false);
                    }
                    assert(lookup_key(store1, k) == Some(v));
                },
                None => {
                    assert(store1[i].0 != k);
                    assert(false);
                },
            }
            if q != k {
                match find_key(store, q) {
                    Some(m) => {
                        assert(m != i);
                        assert(store1[m] == store[m]);
                        match find_key(store1, q) {
                            Some(p) => {
                                if p < m {
                                    if p == i {
                                        assert(store1[p].0 == k);
                                        assert(false);
                                    }
                                    assert(store1[p] == store[p]);
                                    assert(store[p].0 != q);
                                    assert(false);
                                }
                                if p > m {
                                    assert(store1[m].0 != q);
                                    assert(false);
                                }
                                assert(store1[p].1 == store[m].1);
                            },
                            None => {
                                assert(store1[m].0 != q);
                                assert(false);
                            },
                        }
                    },
                    None => {
                        if let Some(p) = find_key(store1, q) {
                            if p == i {
                                assert(store1[p].0 == k);
                                assert(false);
                            }
                            assert(store1[p] == store[p]);
                            assert(store[p].0 != q);
                            assert(false);
                        }
                    },
                }
            }
        },
        None => {
            assert(store1 == store.push((k, v)));
            assert(store1[store.len() as int] == (k, v));
            match find_key(store1, k) {
                Some(p) => {
                    if p < store.len() {
                        assert(store1[p] == store[p]);
                        assert(store[p].0 != k);
                        assert(false);
                    }
                    assert(lookup_key(store1, k) == Some(v));
                },
                None => {
                    assert(store1[store.len() as int].0 != k);
                    assert(false);
                },
            }
            if q != k {
                match find_key(store, q) {
                    Some(m) => {
                        assert(store1[m] == store[m]);
                        match find_key(store1, q) {
                            Some(p) => {
                                if p < m {
                                    if p < store.len() {
                                        assert(store1[p] == store[p]);
                                        assert(store[p].0 != q);
                                    }
                                    assert(false);
                                }
                                if p > m {
                                    assert(store1[m].0 != q);
                                    assert(false);
                                }
                                assert(store1[p].1 == store[m].1);
                            },
                            None => {
                                assert(store1[m].0 != q);
                                assert(false);
                            },
                        }
                    },
                    None => {
                        if let Some(p) = find_key(store1, q) {
                            if p < store.len() {
                                assert(store1[p] == store[p]);
                                assert(store[p].0 != q);
                                assert(false);
                            }
                            assert(store1[p].0 == k);
                            assert(false);
                        }
                    },
                }
            }
        },
    }
}

/// A sweep removes exactly the expired entries: a lookup after the sweep
/// answers as before, except that an expired entry reads as absent.
pub proof fn lemma_sweep_lookup(store: Seq<(Seq<char>, DataValueModel)>, now: int, k: Seq<char>)
    requires
        unique_keys(store),
    ensures
        lookup_key(sweep_spec(store, now), k) == (match lookup_key(store, k) {
            Some(e) => if entry_expired(e, now) {
                None
            } else {
                Some(e)
            },
            None => None::<DataValueModel>,
        }),
    decreases store.len(),
{
    crate::data_core::lemma_find_key(store, k);
    if store.len() > 0 {
        let rest = store.skip(1);
        assert(unique_keys(rest)) by {
            assert forall|i: int| 0 <= i < rest.len() implies #[trigger] rest[i] == store[i
                + 1] by {}
        }
        lemma_sweep_lookup(rest, now, k);
        crate::data_core::lemma_find_key(rest, k);
        let sw = sweep_spec(store, now);
        if entry_expired(store[0].1, now) {
            assert(sw == sweep_spec(rest, now));
            if store[0].0 == k {
                // the head was the only entry under k; it is swept away
                assert(forall|i: int| 0 <= i < rest.len() ==> (#[trigger] rest[i]).0 != k);
                assert(lookup_key(rest, k) is None);
                assert(lookup_key(store, k) == Some(store[0].1));
            } else {
                assert(lookup_key(store, k) == lookup_key(rest, k)) by {
                    match find_key(rest, k) {
                        Some(i) => {
                            assert(rest[i] == store[i + 1]);
                        },
                        None => {},
                    }
                }
            }
        } else {
            assert(sw == seq![store[0]] + sweep_spec(rest, now));
            crate::data_core::lemma_find_key(sw, k);
            if store[0].0 == k {
                assert(sw[0] == store[0]);
                assert(lookup_key(store, k) == Some(store[0].1));
                match find_key(sw, k) {
                    Some(p) => {
                        if p > 0 {
                            assert(sw[0].0 != k);
                            assert(false);
                        }
                        assert(lookup_key(sw, k) == Some(store[0].1));
                    },
                    None => {
                        assert(sw[0].0 != k);
                        assert(false);
                    },
                }
            } else {
                assert(lookup_key(store, k) == lookup_key(rest, k)) by {
                    match find_key(rest, k) {
                        Some(i) => {
                            assert(rest[i] == store[i + 1]);
                        },
                        None => {},
                    }
                }
                assert(lookup_key(sw, k) == lookup_key(sweep_spec(rest, now), k)) by {
                    crate::data_core::lemma_find_key(sweep_spec(rest, now), k);
                    match find_key(sweep_spec(rest, now), k) {
                        Some(i) => {
                            assert(sw[i + 1] == sweep_spec(rest, now)[i]);
                            match find_key(sw, k) {
                                Some(p) => {
                                    if p == 0 {
                                        assert(false);
                                    }
                                    if p < i + 1 {
                                        assert(sweep_spec(rest, now)[p - 1].0 != k) by {
                                            assert(sw[p] == sweep_spec(rest, now)[p - 1]);
                                        }
                                        assert(false);
                                    }
                                    if p > i + 1 {
                                        assert(sw[i + 1].0 != k);
                                        assert(false);
                                    }
                                    assert(sw[p].1 == sweep_spec(rest, now)[i].1);
                                },
                                None => {
                                    assert(sw[i + 1].0 != k);
                                    assert(false);
                                },
                            }
                        },
                        None => {
                            if let Some(p) = find_key(sw, k) {
                                if p == 0 {
                                    assert(false);
                                }
                                assert(sw[p] == sweep_spec(rest, now)[p - 1]);
                                assert(sweep_spec(rest, now)[p - 1].0 != k);
                                assert(false);
                            }
                        },
                    }
                }
            }
        }
    }
}

/// What a well-formed `SET` command's arguments look like, for a given
/// key, value and expiry-pair shape.
pub open spec fn is_set_command(args: Seq<ValueModel>, k: Seq<char>, v: ValueModel) -> bool {
    &&& args.len() >= 3
    &&& value_text(args[0]) is Some
    &&& lower_of(value_text(args[0])->Some_0) == "set"@
    &&& value_text(args[1]) == Some(k)
    &&& args[2] == v
}

/// What a well-formed `GET` command's arguments look like.
pub open spec fn is_get_command(args: Seq<ValueModel>, k: Seq<char>) -> bool {
    &&& args.len() >= 2
    &&& value_text(args[0]) is Some
    &&& lower_of(value_text(args[0])->Some_0) == "get"@
    &&& value_text(args[1]) == Some(k)
}

/// Expiry monotonicity, first half: a `SET k v PX 0` at time `t1`,
/// followed by a `GET k` at any strictly later time `t2`, answers the
/// null bulk string, and the key is evicted by that command's sweep.
/// `process_command_at` ensures exactly `response_spec` and
/// `store_after`, so this governs every run of the engine, whatever
/// instants the clock hands it.
pub proof fn lemma_set_px_zero_then_get_null(
    store: Seq<(Seq<char>, DataValueModel)>,
    set_args: Seq<ValueModel>,
    get_args: Seq<ValueModel>,
    k: Seq<char>,
    v: ValueModel,
    st: SettingsModel,
    t1: int,
    t2: int,
)
    requires
        unique_keys(store),
        is_set_command(set_args, k, v),
        px_request(set_args) == Some(Some(0int)),
        is_get_command(get_args, k),
        i64::MIN <= t1 <= i64::MAX,
        t1 < t2,
    ensures
        response_spec(store_after(store, set_args, t1), get_args, st, t2) == val_tokens(
            ValueModel::NullBulkString,
        ),
        lookup_key(store_after(store_after(store, set_args, t1), get_args, t2), k) is None,
{
    lemma_verb_facts();
    let entry = stored_entry_from(set_args, t1);
    assert(entry.expiry == Some(t1)) by {
        assert(expiry_from(t1, 0) == t1);
    }
    let written = insert_entry_spec(store, k, entry);
    assert(cmd_store_spec(store, set_args, t1) == written);
    lemma_insert_lookup(store, k, entry, k);
    crate::data_core::lemma_insert_unique(store, k, entry);
    let store1 = store_after(store, set_args, t1);
    lemma_sweep_lookup(written, t1, k);
    assert(!entry_expired(entry, t1));
    assert(lookup_key(store1, k) == Some(entry));
    crate::data_core::lemma_sweep_unique(written, t1);
    assert(entry_expired(entry, t2));
    assert(response_spec(store1, get_args, st, t2) == val_tokens(ValueModel::NullBulkString));
    assert(cmd_store_spec(store1, get_args, t2) == store1);
    lemma_sweep_lookup(store1, t2, k);
}

/// Expiry monotonicity, second half: a `SET k v` without an expiry pair
/// never expires — a `GET k` at any time `t2` whatever, later by any
/// amount, answers the stored value. As above, `process_command_at`'s
/// contract carries this to every run of the engine.
pub proof fn lemma_set_no_px_never_expires(
    store: Seq<(Seq<char>, DataValueModel)>,
    set_args: Seq<ValueModel>,
    get_args: Seq<ValueModel>,
    k: Seq<char>,
    v: ValueModel,
    st: SettingsModel,
    t1: int,
    t2: int,
)
    requires
        unique_keys(store),
        is_set_command(set_args, k, v),
        px_request(set_args) is None,
        is_get_command(get_args, k),
    ensures
        response_spec(store_after(store, set_args, t1), get_args, st, t2) == val_tokens(v),
        lookup_key(store_after(store_after(store, set_args, t1), get_args, t2), k) == Some(
            (DataValueModel { value: v, expiry: None }),
        ),
{
    lemma_verb_facts();
    let entry = stored_entry_from(set_args, t1);
    assert(entry == (DataValueModel { value: v, expiry: None::<int> }));
    let written = insert_entry_spec(store, k, entry);
    assert(cmd_store_spec(store, set_args, t1) == written);
    lemma_insert_lookup(store, k, entry, k);
    crate::data_core::lemma_insert_unique(store, k, entry);
    let store1 = store_after(store, set_args, t1);
    lemma_sweep_lookup(written, t1, k);
    assert(!entry_expired(entry, t1));
    assert(lookup_key(store1, k) == Some(entry));
    crate::data_core::lemma_sweep_unique(written, t1);
    assert(!entry_expired(entry, t2));
    assert(response_spec(store1, get_args, st, t2) == val_tokens(v));
    assert(cmd_store_spec(store1, get_args, t2) == store1);
    lemma_sweep_lookup(store1, t2, k);
}

/// Sequential writes never interleave: after two `SET`s on the same key,
/// the key holds exactly the second write — never a mixture. (The
/// connection coordinator holds the keyspace lock for the whole of each
/// command, so two concurrent writers are serialized into one of the two
/// orders this lemma describes.)
pub proof fn lemma_set_overwrites(
    store: Seq<(Seq<char>, DataValueModel)>,
    set_args1: Seq<ValueModel>,
    set_args2: Seq<ValueModel>,
    k: Seq<char>,
    v1: ValueModel,
    v2: ValueModel,
    t1: int,
    t2: int,
)
    requires
        unique_keys(store),
        is_set_command(set_args1, k, v1),
        is_set_command(set_args2, k, v2),
        px_request(set_args1) is None,
        px_request(set_args2) is None,
    ensures
        lookup_key(store_after(store_after(store, set_args1, t1), set_args2, t2), k) == Some(
            (DataValueModel { value: v2, expiry: None }),
        ),
{
    lemma_verb_facts();
    let e1 = stored_entry_from(set_args1, t1);
    let e2 = stored_entry_from(set_args2, t2);
    assert(e2 == (DataValueModel { value: v2, expiry: None::<int> }));
    let w1 = insert_entry_spec(store, k, e1);
    crate::data_core::lemma_insert_unique(store, k, e1);
    let store1 = store_after(store, set_args1, t1);
    assert(store1 == sweep_spec(w1, t1));
    crate::data_core::lemma_sweep_unique(w1, t1);
    let w2 = insert_entry_spec(store1, k, e2);
    assert(cmd_store_spec(store1, set_args2, t2) == w2);
    lemma_insert_lookup(store1, k, e2, k);
    crate::data_core::lemma_insert_unique(store1, k, e2);
    lemma_sweep_lookup(w2, t2, k);
    assert(!entry_expired(e2, t2));
}

/// Dispatch is case-insensitive: two commands whose verbs share a
/// lowercase form, with the same remaining arguments, produce the same
/// response and leave the same keyspace.
pub proof fn lemma_dispatch_case_insensitive(
    store: Seq<(Seq<char>, DataValueModel)>,
    args1: Seq<ValueModel>,
    args2: Seq<ValueModel>,
    st: SettingsModel,
    now: int,
)
    requires
        args1.len() > 0,
        args2.len() > 0,
        value_text(args1[0]) is Some,
        value_text(args2[0]) is Some,
        lower_of(value_text(args1[0])->Some_0) == lower_of(value_text(args2[0])->Some_0),
        args1.skip(1) == args2.skip(1),
    ensures
        response_spec(store, args1, st, now) == response_spec(store, args2, st, now),
        store_after(store, args1, now) == store_after(store, args2, now),
{
    assert(args1.len() == args2.len()) by {
        assert(args1.skip(1).len() == args1.len() - 1);
        assert(args2.skip(1).len() == args2.len() - 1);
    }
    assert forall|i: int| 1 <= i < args1.len() implies args1[i] == #[trigger] args2[i] by {
        assert(args1.skip(1)[i - 1] == args1[i]);
        assert(args2.skip(1)[i - 1] == args2[i]);
    }
    assert(px_request(args1) == px_request(args2));
}

/// A successful bulk-string parse returns a payload of exactly the
/// declared byte length, and a declared length that disagrees with the
/// reassembled payload's byte length is rejected as a length mismatch —
/// never silently truncated or padded.
pub proof fn lemma_bulk_length_exact(ts: Seq<TokenModel>, i: int, n: int, j: int)
    requires
        0 <= i,
        i + 2 < ts.len(),
        ts[i] is Dollar,
        ts[i + 1] == TokenModel::Num(n),
        ts[i + 2] is Sep,
        0 <= n <= usize::MAX,
        crate::parser::find_sep(ts, i + 3) == Some(j),
    ensures
        parse_bulk_at(ts, i) matches Ok((v, p)) ==> v == ValueModel::BulkString(
            crate::parser::render_tokens(ts.subrange(i + 3, j)),
        ) && byte_len(crate::parser::render_tokens(ts.subrange(i + 3, j))) == n,
        byte_len(crate::parser::render_tokens(ts.subrange(i + 3, j))) != n ==> parse_bulk_at(
            ts,
            i,
        ) == Err::<(ValueModel, int), ParseError>(ParseError::LengthMismatch),
{
}

/// The tokens a piece of content scans to when it sits in its frame,
/// terminated by `\r\n`.
pub open spec fn content_scan(s: Seq<char>) -> Seq<TokenModel> {
    crate::tokenizer::scan(s + seq!['\r', '\n'])
}

/// A simple-string payload survives the trip onto the wire and back:
/// inside its frame it scans to a single text-carrying token that reads
/// back as exactly the payload.
pub open spec fn wf_simple(s: Seq<char>) -> bool {
    &&& content_scan(s).len() == 2
    &&& content_scan(s)[1] is Sep
    &&& crate::tokenizer::token_text(content_scan(s)[0]) == Some(s)
    &&& crate::tokenizer::scan_in_range(s + seq!['\r', '\n'])
}

/// A bulk-string payload survives the trip: inside its frame it scans to
/// separator-free tokens closed by one separator, and those tokens
/// reassemble to exactly the payload.
pub open spec fn wf_bulk(s: Seq<char>) -> bool {
    let c = content_scan(s);
    &&& c.len() >= 1
    &&& c[c.len() - 1] is Sep
    &&& forall|i: int| 0 <= i < c.len() - 1 ==> !((#[trigger] c[i]) is Sep)
    &&& crate::parser::render_tokens(c.take(c.len() - 1)) == s
    &&& byte_len(s) <= i64::MAX
    &&& byte_len(s) <= usize::MAX
    &&& crate::tokenizer::scan_in_range(s + seq!['\r', '\n'])
}

/// A character that neither opens a token of its own nor disturbs a
/// raw-string run: not a sigil, not a digit, not part of a separator.
pub open spec fn is_plain_char(c: char) -> bool {
    &&& crate::tokenizer::sigil_token(c) is None
    &&& !crate::numeric::is_digit_char(c)
    &&& c != '\r'
    &&& c != '\n'
}

/// Non-empty text of plain characters: the common case of keys, values
/// and verbs.
pub open spec fn plain_text(s: Seq<char>) -> bool {
    s.len() > 0 && (forall|i: int| 0 <= i < s.len() ==> is_plain_char(#[trigger] s[i]))
}

/// Plain text survives the round trip both as a simple-string and as a
/// bulk-string payload: in its frame it rescans as one raw-string run.
pub proof fn lemma_plain_text_wf(s: Seq<char>)
    requires
        plain_text(s),
        byte_len(s) <= i64::MAX,
        byte_len(s) <= usize::MAX,
    ensures
        wf_simple(s),
        wf_bulk(s),
{
    let crlf = seq!['\r', '\n'];
    let f = s + crlf;
    assert(f[0] == s[0]);
    assert(crate::tokenizer::sigil_token(f[0]) is None);
    assert(!crate::numeric::is_digit_char(f[0]));
    assert(f[0] != '\r');
    crate::tokenizer::lemma_find_crlf(f);
    let n = s.len() as int;
    assert(f[n] == '\r' && f[n + 1] == '\n');
    assert(crate::tokenizer::find_crlf(f) == Some(n)) by {
        match crate::tokenizer::find_crlf(f) {
            Some(j) => {
                if j < n {
                    assert(f[j] == s[j]);
                    assert(s[j] != '\r');
                    assert(false);
                }
                if j > n {
                    assert(!(f[n] == '\r' && f[n + 1] == '\n'));
                    assert(false);
                }
            },
            None => {
                assert(!(f[n] == '\r' && f[n + 1] == '\n'));
                assert(false);
            },
        }
    }
    assert(f.take(n) =~= s);
    assert(f.skip(n + 2) =~= Seq::<char>::empty());
    assert(crate::tokenizer::scan(Seq::<char>::empty()) == Seq::<TokenModel>::empty());
    assert(content_scan(s) =~= seq![TokenModel::Str(s), TokenModel::Sep]);
    assert(crate::tokenizer::scan_in_range(Seq::<char>::empty()));
    assert(crate::tokenizer::scan_in_range(f) == crate::tokenizer::scan_in_range(f.skip(n + 2)));
    let c = content_scan(s);
    assert(c.take(c.len() - 1) =~= seq![TokenModel::Str(s)]);
    assert(crate::parser::render_tokens(seq![TokenModel::Str(s)]) =~= s) by {
        assert(seq![TokenModel::Str(s)].skip(1) =~= Seq::<TokenModel>::empty());
        assert(crate::parser::render_tokens(Seq::<TokenModel>::empty()) == Seq::<char>::empty());
        assert(s + Seq::<char>::empty() =~= s);
    }
}

/// The values that survive a full serialize–scan–parse round trip when
/// they stand as an array element (consuming their whole frame). The
/// null bulk string never does: its `-1` length splits into two tokens
/// when rescanned. Neither does an empty array, which leaves its own
/// separator unconsumed.
pub open spec fn rt_elem(v: ValueModel) -> bool
    decreases v,
{
    match v {
        ValueModel::SimpleString(s) => wf_simple(s),
        ValueModel::BulkString(s) => wf_bulk(s),
        ValueModel::Array(es) => 1 <= es.len() <= i64::MAX && (forall|i: int|
            0 <= i < es.len() ==> rt_elem(#[trigger] es[i])),
        ValueModel::NullBulkString => false,
    }
}

/// The values that round-trip as a whole request or reply: array
/// elements as above, and additionally the empty array, whose trailing
/// separator the top-level parse may leave behind.
pub open spec fn rt_ok(v: ValueModel) -> bool {
    rt_elem(v) || v == ValueModel::Array(Seq::<ValueModel>::empty())
}

/// The token sequence that the scanner reproduces from a value's wire
/// text. It differs from `val_tokens` only inside string payloads, where
/// the scanner may split text into several tokens.
pub open spec fn retok(v: ValueModel) -> Seq<TokenModel>
    decreases v,
{
    match v {
        ValueModel::SimpleString(s) => seq![TokenModel::Plus] + content_scan(s),
        ValueModel::BulkString(s) => seq![
            TokenModel::Dollar,
            TokenModel::Num(byte_len(s)),
            TokenModel::Sep,
        ] + content_scan(s),
        ValueModel::Array(es) => seq![
            TokenModel::Asterisk,
            TokenModel::Num(es.len() as int),
            TokenModel::Sep,
        ] + retoks(es),
        ValueModel::NullBulkString => Seq::empty(),
    }
}

/// The rescanned tokens of a sequence of values, concatenated.
pub open spec fn retoks(es: Seq<ValueModel>) -> Seq<TokenModel>
    decreases es,
{
    if es.len() == 0 {
        Seq::empty()
    } else {
        retok(es[0]) + retoks(es.skip(1))
    }
}

/// A round-trippable element's rescanned frame holds at least its three
/// framing tokens.
proof fn lemma_retok_len(v: ValueModel)
    requires
        rt_elem(v),
    ensures
        retok(v).len() >= 3,
{
}

/// The wire text of a value.
pub open spec fn wire_val(v: ValueModel) -> Seq<char> {
    crate::tokenizer::wire_of(val_tokens(v))
}

/// Unfolds the wire text of a three-token sequence.
proof fn lemma_wire3(a: TokenModel, b: TokenModel, c: TokenModel)
    ensures
        crate::tokenizer::wire_of(seq![a, b, c]) == crate::tokenizer::render_token(a)
            + crate::tokenizer::render_token(b) + crate::tokenizer::render_token(c),
{
    reveal_with_fuel(crate::tokenizer::wire_of, 5);
    let w = crate::tokenizer::wire_of(seq![a, b, c]);
    assert(seq![a, b, c].skip(1) =~= seq![b, c]);
    assert(seq![b, c].skip(1) =~= seq![c]);
    assert(seq![c].skip(1) =~= Seq::<TokenModel>::empty());
    assert(crate::tokenizer::wire_of(Seq::<TokenModel>::empty()) == Seq::<char>::empty());
    assert(crate::tokenizer::render_token(c) + Seq::<char>::empty()
        =~= crate::tokenizer::render_token(c));
    assert(crate::tokenizer::render_token(a) + (crate::tokenizer::render_token(b)
        + crate::tokenizer::render_token(c)) =~= (crate::tokenizer::render_token(a)
        + crate::tokenizer::render_token(b)) + crate::tokenizer::render_token(c));
}

/// The wire text of a simple string, flattened.
proof fn lemma_wire_simple(s: Seq<char>)
    ensures
        wire_val(ValueModel::SimpleString(s)) == seq!['+'] + (s + seq!['\r', '\n']),
{
    lemma_wire3(TokenModel::Plus, TokenModel::Str(s), TokenModel::Sep);
    assert((seq!['+'] + s) + seq!['\r', '\n'] =~= seq!['+'] + (s + seq!['\r', '\n']));
}

/// The wire text of a bulk string, flattened.
proof fn lemma_wire_bulk(s: Seq<char>)
    ensures
        wire_val(ValueModel::BulkString(s)) == seq!['$'] + (crate::numeric::dec_nat_chars(
            byte_len(s),
        ) + (seq!['\r', '\n'] + (s + seq!['\r', '\n']))),
{
    reveal_with_fuel(crate::tokenizer::wire_of, 6);
    crate::tokenizer::lemma_byte_len_bounds(s);
    let ts = val_tokens(ValueModel::BulkString(s));
    let d = crate::numeric::dec_nat_chars(byte_len(s));
    assert(crate::numeric::dec_int_chars(byte_len(s)) == d);
    assert(ts.skip(1) =~= seq![TokenModel::Num(byte_len(s)), TokenModel::Sep, TokenModel::Str(s), TokenModel::Sep]);
    assert(ts.skip(1).skip(1) =~= seq![TokenModel::Sep, TokenModel::Str(s), TokenModel::Sep]);
    lemma_wire3(TokenModel::Sep, TokenModel::Str(s), TokenModel::Sep);
    assert(crate::tokenizer::wire_of(ts) == seq!['$'] + (d + (seq!['\r', '\n'] + (s + seq![
        '\r',
        '\n',
    ])))) by {
        assert(crate::tokenizer::wire_of(ts) == seq!['$'] + crate::tokenizer::wire_of(ts.skip(1)));
        assert(crate::tokenizer::wire_of(ts.skip(1)) == d + crate::tokenizer::wire_of(
            ts.skip(1).skip(1),
        ));
        assert(crate::tokenizer::wire_of(ts.skip(1).skip(1)) == seq!['\r', '\n'] + (s + seq![
            '\r',
            '\n',
        ])) by {
            assert((seq!['\r', '\n'] + s) + seq!['\r', '\n'] =~= seq!['\r', '\n'] + (s + seq![
                '\r',
                '\n',
            ]));
        }
    }
}

/// The wire text of an array, flattened into its header and its
/// elements' wire texts.
proof fn lemma_wire_array(es: Seq<ValueModel>)
    ensures
        wire_val(ValueModel::Array(es)) == seq!['*'] + (crate::numeric::dec_nat_chars(
            es.len() as int,
        ) + (seq!['\r', '\n'] + crate::tokenizer::wire_of(crate::parser::vals_tokens(es)))),
{
    let header = seq![
        TokenModel::Asterisk,
        TokenModel::Num(es.len() as int),
        TokenModel::Sep,
    ];
    let tail = crate::parser::vals_tokens(es);
    let d = crate::numeric::dec_nat_chars(es.len() as int);
    assert(crate::numeric::dec_int_chars(es.len() as int) == d);
    crate::tokenizer::lemma_wire_of_append(header, tail);
    lemma_wire3(TokenModel::Asterisk, TokenModel::Num(es.len() as int), TokenModel::Sep);
    let wt = crate::tokenizer::wire_of(tail);
    assert(((seq!['*'] + d) + seq!['\r', '\n']) + wt =~= seq!['*'] + (d + (seq!['\r', '\n']
        + wt)));
}

/// Scanning a round-trippable value's wire text reproduces its rescanned
/// frame, whatever follows; and scanning stays within 64-bit range.
#[verifier::rlimit(100)]
pub proof fn lemma_scan_wire(v: ValueModel, rest: Seq<char>)
    requires
        rt_elem(v),
    ensures
        crate::tokenizer::scan(wire_val(v) + rest) == retok(v) + crate::tokenizer::scan(rest),
        crate::tokenizer::scan_in_range(wire_val(v) + rest) == crate::tokenizer::scan_in_range(
            rest,
        ),
    decreases v,
{
    let crlf = seq!['\r', '\n'];
    match v {
        ValueModel::SimpleString(s) => {
            lemma_wire_simple(s);
            let u = (s + crlf) + rest;
            let w = wire_val(v) + rest;
            assert(w =~= seq!['+'] + u);
            assert(w[0] == '+');
            assert(w.skip(1) =~= u);
            assert((s + crlf)[(s + crlf).len() - 2] == '\r');
            assert((s + crlf)[(s + crlf).len() - 1] == '\n');
            crate::tokenizer::lemma_scan_append(s + crlf, rest);
            assert(seq![TokenModel::Plus] + (content_scan(s) + crate::tokenizer::scan(rest)) =~= (
            seq![TokenModel::Plus] + content_scan(s)) + crate::tokenizer::scan(rest));
            assert(crate::tokenizer::scan_in_range(w) == crate::tokenizer::scan_in_range(u));
        },
        ValueModel::BulkString(s) => {
            lemma_wire_bulk(s);
            crate::tokenizer::lemma_byte_len_bounds(s);
            let d = crate::numeric::dec_nat_chars(byte_len(s));
            let u2 = crlf + ((s + crlf) + rest);
            let u1 = d + u2;
            let w = wire_val(v) + rest;
            assert(w =~= seq!['$'] + u1);
            assert(w[0] == '$');
            assert(w.skip(1) =~= u1);
            assert(u2[0] == '\r');
            assert(!crate::numeric::is_digit_char('\r'));
            crate::tokenizer::lemma_scan_number(byte_len(s), u2);
            assert(u2[1] == '\n');
            assert(u2.skip(2) =~= (s + crlf) + rest);
            assert((s + crlf)[(s + crlf).len() - 2] == '\r');
            assert((s + crlf)[(s + crlf).len() - 1] == '\n');
            crate::tokenizer::lemma_scan_append(s + crlf, rest);
            let sc = crate::tokenizer::scan(rest);
            assert(crate::tokenizer::scan(u2) == seq![TokenModel::Sep] + (content_scan(s) + sc));
            assert(crate::tokenizer::scan(u1) == seq![TokenModel::Num(byte_len(s))] + (seq![
                TokenModel::Sep,
            ] + (content_scan(s) + sc)));
            assert(crate::tokenizer::scan(w) == seq![TokenModel::Dollar] + (seq![
                TokenModel::Num(byte_len(s)),
            ] + (seq![TokenModel::Sep] + (content_scan(s) + sc))));
            assert(seq![TokenModel::Dollar] + (seq![TokenModel::Num(byte_len(s))] + (seq![
                TokenModel::Sep,
            ] + (content_scan(s) + sc))) =~= retok(v) + sc);
            assert(crate::tokenizer::scan_in_range(w) == crate::tokenizer::scan_in_range(rest));
        },
        ValueModel::Array(es) => {
            lemma_wire_array(es);
            let tail = crate::tokenizer::wire_of(crate::parser::vals_tokens(es));
            let d = crate::numeric::dec_nat_chars(es.len() as int);
            let u2 = crlf + (tail + rest);
            let u1 = d + u2;
            let w = wire_val(v) + rest;
            assert(w =~= seq!['*'] + u1);
            assert(w[0] == '*');
            assert(w.skip(1) =~= u1);
            assert(u2[0] == '\r');
            assert(!crate::numeric::is_digit_char('\r'));
            crate::tokenizer::lemma_scan_number(es.len() as int, u2);
            assert(u2[1] == '\n');
            assert(u2.skip(2) =~= tail + rest);
            lemma_scan_wires(es, rest);
            let sc = crate::tokenizer::scan(rest);
            assert(crate::tokenizer::scan(u2) == seq![TokenModel::Sep] + (retoks(es) + sc));
            assert(crate::tokenizer::scan(u1) == seq![TokenModel::Num(es.len() as int)] + (seq![
                TokenModel::Sep,
            ] + (retoks(es) + sc)));
            assert(crate::tokenizer::scan(w) == seq![TokenModel::Asterisk] + (seq![
                TokenModel::Num(es.len() as int),
            ] + (seq![TokenModel::Sep] + (retoks(es) + sc))));
            assert(seq![TokenModel::Asterisk] + (seq![TokenModel::Num(es.len() as int)] + (seq![
                TokenModel::Sep,
            ] + (retoks(es) + sc))) =~= retok(v) + sc);
            assert(crate::tokenizer::scan_in_range(w) == crate::tokenizer::scan_in_range(rest));
        },
        ValueModel::NullBulkString => {},
    }
}

/// As `lemma_scan_wire`, for the concatenated wire texts of a sequence
/// of elements.
proof fn lemma_scan_wires(es: Seq<ValueModel>, rest: Seq<char>)
    requires
        forall|i: int| 0 <= i < es.len() ==> rt_elem(#[trigger] es[i]),
    ensures
        crate::tokenizer::scan(crate::tokenizer::wire_of(crate::parser::vals_tokens(es)) + rest)
            == retoks(es) + crate::tokenizer::scan(rest),
        crate::tokenizer::scan_in_range(
            crate::tokenizer::wire_of(crate::parser::vals_tokens(es)) + rest,
        ) == crate::tokenizer::scan_in_range(rest),
    decreases es,
{
    if es.len() == 0 {
        assert(crate::parser::vals_tokens(es) == Seq::<TokenModel>::empty());
        assert(crate::tokenizer::wire_of(Seq::<TokenModel>::empty()) == Seq::<char>::empty());
        assert(Seq::<char>::empty() + rest =~= rest);
        assert(retoks(es) + crate::tokenizer::scan(rest) =~= crate::tokenizer::scan(rest));
    } else {
        assert(crate::parser::vals_tokens(es) == val_tokens(es[0]) + crate::parser::vals_tokens(
            es.skip(1),
        ));
        crate::tokenizer::lemma_wire_of_append(
            val_tokens(es[0]),
            crate::parser::vals_tokens(es.skip(1)),
        );
        let w0 = wire_val(es[0]);
        let wrest = crate::tokenizer::wire_of(crate::parser::vals_tokens(es.skip(1)));
        assert((w0 + wrest) + rest =~= w0 + (wrest + rest));
        lemma_scan_wires(es.skip(1), rest);
        lemma_scan_wire(es[0], wrest + rest);
        assert(retok(es[0]) + (retoks(es.skip(1)) + crate::tokenizer::scan(rest)) =~= (retok(
            es[0],
        ) + retoks(es.skip(1))) + crate::tokenizer::scan(rest));
    }
}

/// Parsing a round-trippable value's rescanned frame, wherever it sits
/// in a larger token sequence, reconstructs exactly that value and
/// consumes exactly the frame.
#[verifier::rlimit(100)]
pub proof fn lemma_parse_retok(v: ValueModel, ts: Seq<TokenModel>, i: int)
    requires
        rt_elem(v),
        0 <= i,
        i + retok(v).len() <= ts.len(),
        ts.subrange(i, i + retok(v).len()) == retok(v),
    ensures
        crate::parser::parse_element_at(ts, i) == Ok::<(ValueModel, int), ParseError>(
            (v, i + retok(v).len()),
        ),
    decreases v,
{
    let r = retok(v);
    assert forall|m: int| 0 <= m < r.len() implies ts[i + m] == #[trigger] r[m] by {
        assert(ts.subrange(i, i + r.len())[m] == ts[i + m]);
    }
    match v {
        ValueModel::SimpleString(s) => {
            let c = content_scan(s);
            assert(r[0] == TokenModel::Plus && r[1] == c[0] && r[2] == c[1]);
            assert(ts[i] is Plus);
            assert(ts[i + 2] is Sep);
            assert(crate::tokenizer::token_text(ts[i + 1]) == Some(s));
            assert(crate::parser::parse_simple_at(ts, i) == Ok::<(ValueModel, int), ParseError>(
                (v, i + 3),
            ));
        },
        ValueModel::BulkString(s) => {
            let c = content_scan(s);
            assert(r.len() == 3 + c.len());
            assert(r[0] == TokenModel::Dollar);
            assert(r[1] == TokenModel::Num(byte_len(s)));
            assert(r[2] == TokenModel::Sep);
            assert forall|m: int| 0 <= m < c.len() implies #[trigger] r[3 + m] == c[m] by {}
            assert(ts[i] is Dollar);
            assert(ts[i + 1] == TokenModel::Num(byte_len(s)));
            assert(ts[i + 2] is Sep);
            let j = i + 3 + c.len() - 1;
            assert(crate::parser::find_sep(ts, i + 3) == Some(j)) by {
                crate::parser::lemma_find_sep(ts, i + 3);
                assert(r[3 + (c.len() - 1)] == c[c.len() - 1]);
                assert(ts[j] == c[c.len() - 1]);
                assert(ts[j] is Sep);
                match crate::parser::find_sep(ts, i + 3) {
                    Some(p) => {
                        if p < j {
                            assert(ts[p] == r[p - i]);
                            assert(r[p - i] == c[p - i - 3]);
                            assert(!(c[p - i - 3] is Sep));
                            assert(false);
                        }
                        if p > j {
                            assert(!(ts[j] is Sep));
                            assert(false);
                        }
                    },
                    None => {
                        assert(!(ts[j] is Sep));
                        assert(false);
                    },
                }
            }
            assert(ts.subrange(i + 3, j) =~= c.take(c.len() - 1)) by {
                assert forall|m: int| 0 <= m < c.len() - 1 implies ts.subrange(i + 3, j)[m] == (
                #[trigger] c.take(c.len() - 1)[m]) by {
                    assert(ts.subrange(i + 3, j)[m] == ts[i + 3 + m]);
                    assert(ts[i + 3 + m] == r[3 + m]);
                }
            }
            assert(crate::parser::render_tokens(ts.subrange(i + 3, j)) == s);
            assert(crate::parser::parse_bulk_at(ts, i) == Ok::<(ValueModel, int), ParseError>(
                (v, j + 1),
            ));
        },
        ValueModel::Array(es) => {
            let n = es.len() as int;
            assert(r[0] == TokenModel::Asterisk);
            assert(r[1] == TokenModel::Num(n));
            assert(r[2] == TokenModel::Sep);
            assert forall|m: int| 0 <= m < retoks(es).len() implies #[trigger] r[3 + m] == retoks(
                es,
            )[m] by {}
            assert(ts[i] is Asterisk);
            assert(ts[i + 1] == TokenModel::Num(n));
            assert(ts[i + 2] is Sep);
            assert(ts.subrange(i + 3, i + 3 + retoks(es).len()) =~= retoks(es)) by {
                assert forall|m: int| 0 <= m < retoks(es).len() implies ts.subrange(
                    i + 3,
                    i + 3 + retoks(es).len(),
                )[m] == (#[trigger] retoks(es)[m]) by {
                    assert(ts.subrange(i + 3, i + 3 + retoks(es).len())[m] == ts[i + 3 + m]);
                    assert(ts[i + 3 + m] == r[3 + m]);
                }
            }
            lemma_parse_items_retok(es, ts, i + 3);
            assert(crate::parser::parse_items(ts, i + 3, n) == Ok::<
                (Seq<ValueModel>, int),
                ParseError,
            >((es, i + 3 + retoks(es).len())));
            assert(crate::parser::parse_array_at(ts, i) == Ok::<(ValueModel, int), ParseError>(
                (v, i + r.len()),
            ));
        },
        ValueModel::NullBulkString => {},
    }
}

/// As `lemma_parse_retok`, for a run of consecutive elements.
proof fn lemma_parse_items_retok(es: Seq<ValueModel>, ts: Seq<TokenModel>, i: int)
    requires
        forall|m: int| 0 <= m < es.len() ==> rt_elem(#[trigger] es[m]),
        0 <= i,
        i + retoks(es).len() <= ts.len(),
        ts.subrange(i, i + retoks(es).len()) == retoks(es),
    ensures
        crate::parser::parse_items(ts, i, es.len() as int) == Ok::<
            (Seq<ValueModel>, int),
            ParseError,
        >((es, i + retoks(es).len())),
    decreases es,
{
    if es.len() == 0 {
        assert(retoks(es).len() == 0);
        assert(es =~= Seq::<ValueModel>::empty());
    } else {
        let r0 = retok(es[0]);
        let rrest = retoks(es.skip(1));
        assert(retoks(es) == r0 + rrest);
        assert forall|m: int| 0 <= m < retoks(es).len() implies ts[i + m] == #[trigger] retoks(
            es,
        )[m] by {
            assert(ts.subrange(i, i + retoks(es).len())[m] == ts[i + m]);
        }
        assert(ts.subrange(i, i + r0.len()) =~= r0) by {
            assert forall|m: int| 0 <= m < r0.len() implies ts.subrange(i, i + r0.len())[m] == (
            #[trigger] r0[m]) by {
                assert(ts.subrange(i, i + r0.len())[m] == ts[i + m]);
                assert(retoks(es)[m] == r0[m]);
            }
        }
        lemma_parse_retok(es[0], ts, i);
        lemma_retok_len(es[0]);
        let j = i + r0.len();
        assert(ts.subrange(j, j + rrest.len()) =~= rrest) by {
            assert forall|m: int| 0 <= m < rrest.len() implies ts.subrange(j, j + rrest.len())[m]
                == (#[trigger] rrest[m]) by {
                assert(ts.subrange(j, j + rrest.len())[m] == ts[j + m]);
                assert(retoks(es)[r0.len() + m] == rrest[m]);
            }
        }
        lemma_parse_items_retok(es.skip(1), ts, j);
        assert(es.skip(1).len() as int == es.len() as int - 1);
        assert(seq![es[0]] + es.skip(1) =~= es);
        assert(crate::parser::parse_items(ts, i, es.len() as int) == Ok::<
            (Seq<ValueModel>, int),
            ParseError,
        >((seq![es[0]] + es.skip(1), j + rrest.len())));
    }
}

/// The round-trip law: every round-trippable protocol value survives
/// serialization to wire text, rescanning and reparsing unchanged — and
/// its wire text never overflows the scanner's integer range.
pub proof fn lemma_value_round_trip(v: ValueModel)
    requires
        rt_ok(v),
    ensures
        crate::parser::parse_value(crate::tokenizer::scan(wire_val(v))) == Some(v),
        crate::tokenizer::scan_in_range(wire_val(v)),
{
    let empty = Seq::<char>::empty();
    if rt_elem(v) {
        lemma_scan_wire(v, empty);
        assert(wire_val(v) + empty =~= wire_val(v));
        assert(crate::tokenizer::scan(empty) == Seq::<TokenModel>::empty());
        assert(crate::tokenizer::scan_in_range(empty));
        let r = retok(v);
        assert(crate::tokenizer::scan(wire_val(v)) =~= r);
        lemma_retok_len(v);
        assert(r.subrange(0, r.len() as int) =~= r);
        lemma_parse_retok(v, r, 0);
        assert(crate::parser::parse_element_at(r, 0) == Ok::<(ValueModel, int), ParseError>(
            (v, r.len() as int),
        ));
        assert(r[0] is Plus || r[0] is Dollar || r[0] is Asterisk);
    } else {
        let es = Seq::<ValueModel>::empty();
        assert(v == ValueModel::Array(es));
        lemma_wire_array(es);
        assert(crate::parser::vals_tokens(es) == Seq::<TokenModel>::empty());
        assert(crate::tokenizer::wire_of(Seq::<TokenModel>::empty()) == Seq::<char>::empty());
        crate::numeric::lemma_dec_nat_chars(0);
        let w = wire_val(v);
        assert(w =~= seq!['*', '0', '\r', '\n']) by {
            assert(crate::numeric::dec_nat_chars(0) == seq![crate::numeric::digit_char(0)]);
            assert(seq!['\r', '\n'] + Seq::<char>::empty() =~= seq!['\r', '\n']);
        }
        let u2 = seq!['\r', '\n'];
        assert(w[0] == '*');
        assert(w.skip(1) =~= crate::numeric::dec_nat_chars(0) + u2);
        crate::tokenizer::lemma_scan_number(0, u2);
        assert(u2.skip(2) =~= empty);
        assert(crate::tokenizer::scan(empty) == Seq::<TokenModel>::empty());
        assert(crate::tokenizer::scan(u2) == seq![TokenModel::Sep] + crate::tokenizer::scan(
            u2.skip(2),
        ));
        assert(crate::tokenizer::scan(u2) =~= seq![TokenModel::Sep]);
        let toks = crate::tokenizer::scan(w);
        assert(toks == seq![TokenModel::Asterisk] + crate::tokenizer::scan(w.skip(1)));
        assert(crate::tokenizer::scan(w.skip(1)) == seq![TokenModel::Num(0)]
            + crate::tokenizer::scan(u2));
        assert(toks =~= seq![TokenModel::Asterisk, TokenModel::Num(0), TokenModel::Sep]);
        assert(crate::parser::parse_array_at(toks, 0) == Ok::<(ValueModel, int), ParseError>(
            (v, 2),
        ));
        assert(crate::tokenizer::scan_in_range(w)) by {
            assert(crate::tokenizer::scan_in_range(empty));
            assert(crate::tokenizer::scan_in_range(u2) == crate::tokenizer::scan_in_range(
                u2.skip(2),
            ));
            assert(crate::tokenizer::scan_in_range(w) == crate::tokenizer::scan_in_range(
                w.skip(1),
            ));
            assert(w.skip(1) =~= crate::numeric::dec_nat_chars(0) + u2);
        }
    }
}

} // verus!
