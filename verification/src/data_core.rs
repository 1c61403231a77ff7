//! The keyspace engine: a mapping from string keys to stored values with
//! optional expiry, and the command dispatcher that interprets a parsed
//! command against it, producing the response tokens and performing the
//! lazy expiry sweep after each command.

use vstd::prelude::*;

use std::sync::Arc;

use crate::numeric::dec_int_chars;
use crate::numeric::parse_i64;
use crate::numeric::parse_i64_spec;
use crate::parser::value_fits;
use crate::parser::value_text;
use crate::parser::values_view;
use crate::parser::lemma_values_view;
use crate::parser::val_tokens;
use crate::parser::ParserValue;
use crate::parser::ValueModel;
use crate::replication::settings_wf;
use crate::replication::ReplicationSettings;
use crate::replication::SettingsModel;
use crate::tokenizer::tokens_view;
use crate::tokenizer::Token;
use crate::tokenizer::TokenModel;

verus! {

/// The role this server plays in a replication topology.
#[derive(Debug, Clone, Copy, PartialEq, Eq, Structural)]
pub enum ReplicationRole {
    Master,
    Slave,
}

/// The textual name of a role, as introspection commands print it.
pub open spec fn role_text(role: ReplicationRole) -> Seq<char> {
    match role {
        ReplicationRole::Master => "master"@,
        ReplicationRole::Slave => "slave"@,
    }
}

impl ReplicationRole {
    /// The textual name of this role.
    pub fn to_string(&self) -> (r: String)
        ensures
            r@ == role_text(*self),
    {
        match self {
            ReplicationRole::Master => String::from_str("master"),
            ReplicationRole::Slave => String::from_str("slave"),
        }
    }
}

/// The Unicode lowercase mapping of a character sequence, exactly as
/// `str::to_lowercase` computes it. The mapping depends on the characters
/// alone, so naming its result is sound; its definition is the Unicode
/// case-folding table, which no short specification could restate.
pub uninterp spec fn lower_of(s: Seq<char>) -> Seq<char>;

/// Relies on `str::to_lowercase`: the Unicode lowercase mapping of the
/// input, a function of the input characters alone.
#[verifier::external_body]
fn to_lowercase_string(s: &str) -> (r: String)
    ensures
        r@ == lower_of(s@),
{
    s.to_lowercase()
}

/// Relies on std's `SystemTime`: the current wall-clock time in
/// nanoseconds since the Unix epoch, or `None` when the clock reads
/// before the epoch or further ahead than an `i64` of nanoseconds can
/// carry. Every branch of the body returns; nothing can be promised
/// about the value itself.
#[verifier::external_body]
fn current_unix_nanos() -> Option<i64> {
    match std::time::SystemTime::now().duration_since(std::time::UNIX_EPOCH) {
        Ok(elapsed) => i64::try_from(elapsed.as_nanos()).ok(),
        Err(_) => None,
    }
}

/// Compares a string with a literal, by characters.
pub(crate) fn string_eq(a: &String, b: &str) -> (r: bool)
    ensures
        r == (a@ == b@),
{
    let bs = String::from_str(b);
    *a == bs
}

/// Clips an unbounded integer into the `i64` range.
pub open spec fn sat_i64(v: int) -> int {
    if v > i64::MAX {
        i64::MAX as int
    } else if v < i64::MIN {
        i64::MIN as int
    } else {
        v
    }
}

/// The absolute expiry instant for a write at `now` with a time-to-live of
/// `ms` milliseconds, saturating at the ends of the representable range.
pub open spec fn expiry_from(now: int, ms: int) -> int {
    sat_i64(now + sat_i64(ms * 1000000))
}

/// A stored value: the protocol value written by `SET`, with an optional
/// absolute expiry instant in nanoseconds.
#[derive(Debug)]
pub struct DataValue {
    pub parser_value: ParserValue,
    pub expiry_in_nanoseconds: Option<i64>,
}

/// The mathematical model of a stored value.
pub struct DataValueModel {
    pub value: ValueModel,
    pub expiry: Option<int>,
}

impl View for DataValue {
    type V = DataValueModel;

    open spec fn view(&self) -> DataValueModel {
        DataValueModel {
            value: self.parser_value@,
            expiry: match self.expiry_in_nanoseconds {
                Some(t) => Some(t as int),
                None => None,
            },
        }
    }
}

/// Has this entry expired at time `now`? An entry without an expiry never
/// expires.
pub open spec fn entry_expired(e: DataValueModel, now: int) -> bool {
    match e.expiry {
        Some(t) => now > t,
        None => false,
    }
}

impl DataValue {
    /// A fresh entry with no expiry.
    pub fn new(parser_value: ParserValue) -> (r: DataValue)
        ensures
            r@.value == parser_value@,
            r@.expiry is None,
    {
        DataValue { parser_value, expiry_in_nanoseconds: None }
    }

    /// Sets the expiry to `now + milliseconds`, computed once at write
    /// time and saturating at the ends of the representable range.
    pub fn set_expiry_at(self: &mut DataValue, now_nanos: i64, milliseconds: i64)
        ensures
            final(self)@.value == old(self)@.value,
            final(self)@.expiry == Some(expiry_from(now_nanos as int, milliseconds as int)),
    {
        let prod: i64 = if milliseconds > 9223372036854i64 {
            proof {
                assert(milliseconds as int * 1000000 > i64::MAX) by (nonlinear_arith)
                    requires
                        milliseconds >= 9223372036855,
                ;
            }
            i64::MAX
        } else if milliseconds < -9223372036854i64 {
            proof {
                assert(milliseconds as int * 1000000 < i64::MIN) by (nonlinear_arith)
                    requires
                        milliseconds <= -9223372036855,
                ;
            }
            i64::MIN
        } else {
            proof {
                assert(i64::MIN <= milliseconds as int * 1000000 <= i64::MAX) by (nonlinear_arith)
                    requires
                        -9223372036854 <= milliseconds <= 9223372036854,
                ;
            }
            milliseconds * 1000000
        };
        let e: i64 = if prod >= 0 {
            if now_nanos > i64::MAX - prod {
                i64::MAX
            } else {
                now_nanos + prod
            }
        } else {
            if now_nanos < i64::MIN - prod {
                i64::MIN
            } else {
                now_nanos + prod
            }
        };
        self.expiry_in_nanoseconds = Some(e);
    }

    /// Sets the expiry from the wall clock. When the clock is unavailable
    /// the entry is left unchanged.
    pub fn set_expiry(self: &mut DataValue, milliseconds: i64)
        ensures
            final(self)@.value == old(self)@.value,
            final(self)@.expiry == old(self)@.expiry || (exists|now: int|
                final(self)@.expiry == Some(expiry_from(now, milliseconds as int))),
    {
        match current_unix_nanos() {
            Some(now) => {
                self.set_expiry_at(now, milliseconds);
                proof {
                    assert(final(self)@.expiry == Some(
                        expiry_from(now as int, milliseconds as int),
                    ));
                }
            },
            None => {},
        }
    }

    /// Has this entry expired at the given instant?
    pub fn has_expired_at(self: &DataValue, now_nanos: i64) -> (r: bool)
        ensures
            r == entry_expired(self@, now_nanos as int),
    {
        match self.expiry_in_nanoseconds {
            Some(t) => now_nanos > t,
            None => false,
        }
    }

    /// Has this entry expired now? Reads the wall clock; when the clock is
    /// unavailable the entry is treated as not expired.
    pub fn has_expired(self: &DataValue) -> (r: bool)
        ensures
            exists|now: int| r == entry_expired(self@, now),
    {
        match current_unix_nanos() {
            Some(now) => {
                let r = self.has_expired_at(now);
                proof {
                    assert(r == entry_expired(self@, now as int));
                }
                r
            },
            None => {
                proof {
                    assert(false == entry_expired(self@, i64::MIN - 1));
                }
                false
            },
        }
    }
}

/// A parsed command: its arguments (the elements of the request array)
/// and the replication settings snapshot it runs against.
#[derive(Debug)]
pub struct Command {
    pub arguments: Arc<Vec<ParserValue>>,
    pub replication_settings: ReplicationSettings,
}

/// The models of a command's arguments.
pub open spec fn command_args(c: Command) -> Seq<ValueModel> {
    values_view(c.arguments@)
}

/// What every command handed to the engine satisfies: at least a verb,
/// the verb string-typed, every argument's lengths representable, and a
/// well-formed settings snapshot.
pub open spec fn wf_command(c: Command) -> bool {
    let args = command_args(c);
    &&& args.len() > 0
    &&& value_text(args[0]) is Some
    &&& forall|i: int| 0 <= i < args.len() ==> value_fits(#[trigger] args[i])
    &&& settings_wf(c.replication_settings@)
}

impl Command {
    /// Packs parsed arguments and a settings snapshot into a command.
    pub fn new(
        arguments: Arc<Vec<ParserValue>>,
        replication_settings: ReplicationSettings,
    ) -> (r: Command)
        ensures
            r.arguments == arguments,
            r.replication_settings == replication_settings,
    {
        Command { arguments, replication_settings }
    }

    /// Is this command's verb `psync`, ignoring case?
    pub fn is_psync(&self) -> (r: bool)
        requires
            command_args(*self).len() > 0,
            value_text(command_args(*self)[0]) is Some,
        ensures
            r == (lower_of(value_text(command_args(*self)[0])->Some_0) == "psync"@),
    {
        proof {
            lemma_values_view(self.arguments@);
        }
        let first = &self.arguments[0];
        match first.to_string() {
            Some(text) => {
                let lv = to_lowercase_string(text.as_str());
                string_eq(&lv, "psync")
            },
            None => {
                proof {
                    assert(false);
                }
                false
            },
        }
    }
}

/// The model of one keyspace entry.
pub open spec fn store_view(es: Seq<(String, DataValue)>) -> Seq<(Seq<char>, DataValueModel)>
    decreases es,
{
    if es.len() == 0 {
        Seq::empty()
    } else {
        seq![(es[0].0@, es[0].1@)] + store_view(es.skip(1))
    }
}

/// `store_view` maps each entry to its model, in place.
pub proof fn lemma_store_view(es: Seq<(String, DataValue)>)
    ensures
        store_view(es).len() == es.len(),
        forall|i: int|
            0 <= i < es.len() ==> store_view(es)[i] == ((#[trigger] es[i]).0@, es[i].1@),
    decreases es.len(),
{
    if es.len() > 0 {
        lemma_store_view(es.skip(1));
        assert forall|i: int|
            0 <= i < es.len() implies store_view(es)[i] == ((#[trigger] es[i]).0@, es[i].1@) by {
            if i > 0 {
                assert(es.skip(1)[i - 1] == es[i]);
            }
        }
    }
}

/// The model sequence of a store with one entry appended.
pub proof fn lemma_store_view_push(es: Seq<(String, DataValue)>, e: (String, DataValue))
    ensures
        store_view(es.push(e)) == store_view(es) + seq![(e.0@, e.1@)],
{
    lemma_store_view(es);
    lemma_store_view(es.push(e));
    assert forall|m: int| 0 <= m < es.len() + 1 implies store_view(es.push(e))[m] == (store_view(
        es,
    ) + seq![(e.0@, e.1@)])[m] by {
        assert(store_view(es.push(e))[m] == ((es.push(e)[m]).0@, (es.push(e)[m]).1@));
        if m < es.len() {
            assert(es.push(e)[m] == es[m]);
        } else {
            assert(es.push(e)[m] == e);
        }
    }
    assert(store_view(es.push(e)) =~= store_view(es) + seq![(e.0@, e.1@)]);
}

/// The index of the first entry with key `k`, if any.
pub open spec fn find_key(store: Seq<(Seq<char>, DataValueModel)>, k: Seq<char>) -> Option<int>
    decreases store.len(),
{
    if store.len() == 0 {
        None
    } else if store[0].0 == k {
        Some(0)
    } else {
        match find_key(store.skip(1), k) {
            Some(i) => Some(i + 1),
            None => None,
        }
    }
}

/// What `find_key` finds is the first entry with that key.
pub proof fn lemma_find_key(store: Seq<(Seq<char>, DataValueModel)>, k: Seq<char>)
    ensures
        match find_key(store, k) {
            Some(i) => 0 <= i < store.len() && store[i].0 == k && (forall|m: int|
                0 <= m < i ==> (#[trigger] store[m]).0 != k),
            None => forall|m: int| 0 <= m < store.len() ==> (#[trigger] store[m]).0 != k,
        },
    decreases store.len(),
{
    if store.len() > 0 && store[0].0 != k {
        lemma_find_key(store.skip(1), k);
        assert forall|m: int| 1 <= m < store.len() implies #[trigger] store[m] == store.skip(1)[m
            - 1] by {}
    }
}

/// The stored entry under key `k`, if any.
pub open spec fn lookup_key(store: Seq<(Seq<char>, DataValueModel)>, k: Seq<char>) -> Option<
    DataValueModel,
> {
    match find_key(store, k) {
        Some(i) => Some(store[i].1),
        None => None,
    }
}

/// No two entries share a key.
pub open spec fn unique_keys(store: Seq<(Seq<char>, DataValueModel)>) -> bool {
    forall|i: int, j: int|
        0 <= i < j < store.len() ==> (#[trigger] store[i]).0 != (#[trigger] store[j]).0
}

/// Every stored value's lengths are representable in length tokens.
pub open spec fn store_fits(store: Seq<(Seq<char>, DataValueModel)>) -> bool {
    forall|i: int| 0 <= i < store.len() ==> value_fits((#[trigger] store[i]).1.value)
}

/// The store after writing `v` under key `k`: overwrite in place, or
/// append a fresh entry.
pub open spec fn insert_entry_spec(
    store: Seq<(Seq<char>, DataValueModel)>,
    k: Seq<char>,
    v: DataValueModel,
) -> Seq<(Seq<char>, DataValueModel)> {
    match find_key(store, k) {
        Some(i) => store.update(i, (k, v)),
        None => store.push((k, v)),
    }
}

/// The store after the lazy expiry sweep at time `now`: every expired
/// entry removed, order otherwise kept.
pub open spec fn sweep_spec(store: Seq<(Seq<char>, DataValueModel)>, now: int) -> Seq<
    (Seq<char>, DataValueModel),
>
    decreases store.len(),
{
    if store.len() == 0 {
        store
    } else if entry_expired(store[0].1, now) {
        sweep_spec(store.skip(1), now)
    } else {
        seq![store[0]] + sweep_spec(store.skip(1), now)
    }
}

/// A key absent from a store stays absent after a sweep.
pub proof fn lemma_sweep_key_absent(store: Seq<(Seq<char>, DataValueModel)>, now: int, k: Seq<char>)
    requires
        forall|i: int| 0 <= i < store.len() ==> (#[trigger] store[i]).0 != k,
    ensures
        forall|i: int|
            0 <= i < sweep_spec(store, now).len() ==> (#[trigger] sweep_spec(store, now)[i]).0
                != k,
    decreases store.len(),
{
    if store.len() > 0 {
        assert forall|i: int| 1 <= i < store.len() implies (#[trigger] store.skip(1)[i - 1]).0
            != k by {
            assert(store.skip(1)[i - 1] == store[i]);
        }
        lemma_sweep_key_absent(store.skip(1), now, k);
        if !entry_expired(store[0].1, now) {
            let sw = seq![store[0]] + sweep_spec(store.skip(1), now);
            assert forall|i: int| 0 <= i < sw.len() implies (#[trigger] sw[i]).0 != k by {
                if i == 0 {
                    assert(sw[0] == store[0]);
                } else {
                    assert(sw[i] == sweep_spec(store.skip(1), now)[i - 1]);
                }
            }
        }
    }
}

/// A write keeps keys unique: it overwrites in place or appends a key
/// that was absent.
pub proof fn lemma_insert_unique(
    store: Seq<(Seq<char>, DataValueModel)>,
    k: Seq<char>,
    v: DataValueModel,
)
    requires
        unique_keys(store),
    ensures
        unique_keys(insert_entry_spec(store, k, v)),
{
    lemma_find_key(store, k);
    let store1 = insert_entry_spec(store, k, v);
    match find_key(store, k) {
        Some(i) => {
            assert forall|p: int, q: int|
                0 <= p < q < store1.len() implies (#[trigger] store1[p]).0 != (
            #[trigger] store1[q]).0 by {
                assert(store[p].0 != store[q].0);
                if p != i && q != i {
                    assert(store1[p] == store[p] && store1[q] == store[q]);
                } else if p == i {
                    assert(store1[q] == store[q]);
                    assert(store[i].0 == k);
                } else {
                    assert(store1[p] == store[p]);
                    assert(store[i].0 == k);
                }
            }
        },
        None => {
            assert forall|p: int, q: int|
                0 <= p < q < store1.len() implies (#[trigger] store1[p]).0 != (
            #[trigger] store1[q]).0 by {
                if q < store.len() {
                    assert(store1[p] == store[p] && store1[q] == store[q]);
                } else {
                    assert(store1[q] == (k, v));
                    assert(store1[p] == store[p]);
                    assert(store[p].0 != k);
                }
            }
        },
    }
}

/// The sweep keeps keys unique: it only removes entries.
pub proof fn lemma_sweep_unique(store: Seq<(Seq<char>, DataValueModel)>, now: int)
    requires
        unique_keys(store),
    ensures
        unique_keys(sweep_spec(store, now)),
    decreases store.len(),
{
    if store.len() > 0 {
        let rest = store.skip(1);
        assert(unique_keys(rest)) by {
            assert forall|i: int| 0 <= i < rest.len() implies #[trigger] rest[i] == store[i
                + 1] by {}
        }
        lemma_sweep_unique(rest, now);
        if !entry_expired(store[0].1, now) {
            assert forall|i: int| 0 <= i < rest.len() implies (#[trigger] rest[i]).0
                != store[0].0 by {
                assert(rest[i] == store[i + 1]);
            }
            lemma_sweep_key_absent(rest, now, store[0].0);
            let swept = seq![store[0]] + sweep_spec(rest, now);
            assert forall|i: int, j: int|
                0 <= i < j < swept.len() implies (#[trigger] swept[i]).0 != (
            #[trigger] swept[j]).0 by {
                if i == 0 {
                    assert(swept[j] == sweep_spec(rest, now)[j - 1]);
                } else {
                    assert(swept[i] == sweep_spec(rest, now)[i - 1]);
                    assert(swept[j] == sweep_spec(rest, now)[j - 1]);
                }
            }
        }
    }
}

/// The sweep keeps keys unique and values representable.
pub proof fn lemma_sweep_wf(store: Seq<(Seq<char>, DataValueModel)>, now: int)
    requires
        unique_keys(store),
        store_fits(store),
    ensures
        unique_keys(sweep_spec(store, now)),
        store_fits(sweep_spec(store, now)),
    decreases store.len(),
{
    if store.len() > 0 {
        let rest = store.skip(1);
        assert(unique_keys(rest) && store_fits(rest)) by {
            assert forall|i: int| 0 <= i < rest.len() implies #[trigger] rest[i] == store[i
                + 1] by {}
        }
        lemma_sweep_wf(rest, now);
        if !entry_expired(store[0].1, now) {
            assert forall|i: int| 0 <= i < rest.len() implies (#[trigger] rest[i]).0
                != store[0].0 by {
                assert(rest[i] == store[i + 1]);
            }
            lemma_sweep_key_absent(rest, now, store[0].0);
            let swept = seq![store[0]] + sweep_spec(rest, now);
            assert forall|i: int, j: int|
                0 <= i < j < swept.len() implies (#[trigger] swept[i]).0 != (
            #[trigger] swept[j]).0 by {
                if i == 0 {
                    assert(swept[j] == sweep_spec(rest, now)[j - 1]);
                } else {
                    assert(swept[i] == sweep_spec(rest, now)[i - 1]);
                    assert(swept[j] == sweep_spec(rest, now)[j - 1]);
                }
            }
            assert forall|i: int| 0 <= i < swept.len() implies value_fits(
                (#[trigger] swept[i]).1.value,
            ) by {
                if i > 0 {
                    assert(swept[i] == sweep_spec(rest, now)[i - 1]);
                }
            }
        }
    }
}

/// Powers of ten, for bounding decimal lengths.
pub open spec fn pow10(k: int) -> int
    decreases k,
{
    if k <= 0 {
        1
    } else {
        10 * pow10(k - 1)
    }
}

/// A number below the `k`-th power of ten prints in at most `k` digits.
pub proof fn lemma_dec_nat_chars_len(n: int, k: int)
    requires
        0 <= n,
        1 <= k,
        n < pow10(k),
    ensures
        crate::numeric::dec_nat_chars(n).len() <= k,
    decreases k,
{
    if n >= 10 {
        assert(k >= 2) by {
            reveal_with_fuel(pow10, 3);
        }
        assert(n / 10 < pow10(k - 1)) by {
            vstd::arithmetic::div_mod::lemma_fundamental_div_mod(n, 10);
            vstd::arithmetic::div_mod::lemma_mod_bound(n, 10);
            assert(n / 10 < pow10(k - 1)) by (nonlinear_arith)
                requires
                    n == 10 * (n / 10) + n % 10,
                    0 <= n % 10 < 10,
                    n < 10 * pow10(k - 1),
            ;
        }
        assert(n / 10 >= 0) by {
            vstd::arithmetic::div_mod::lemma_div_pos_is_pos(n, 10);
        }
        lemma_dec_nat_chars_len(n / 10, k - 1);
    }
}

/// Any `i64` prints in at most 20 characters, sign included.
pub proof fn lemma_dec_i64_len(n: int)
    requires
        i64::MIN <= n <= i64::MAX,
    ensures
        dec_int_chars(n).len() <= 20,
{
    reveal_with_fuel(pow10, 21);
    if n < 0 {
        lemma_dec_nat_chars_len(-n, 19);
    } else {
        lemma_dec_nat_chars_len(n, 19);
    }
}

/// The `# Replication` section that `INFO` prints, sourced from the
/// settings snapshot.
pub open spec fn info_text(st: SettingsModel) -> Seq<char> {
    "# Replication\nrole:"@ + role_text(st.replication_role) + "\nconnected_slaves:"@
        + dec_int_chars(st.connected_slaves) + "\nmaster_replid:"@ + st.master_replid
        + "\nmaster_repl_offset:"@ + dec_int_chars(st.master_reploffset)
        + "\nsecond_repl_offset:"@ + dec_int_chars(st.second_reploffset)
        + "\nrepl_backlog_active:"@ + dec_int_chars(st.repl_backlog_active)
        + "\nrepl_backlog_size:"@ + dec_int_chars(st.repl_backlog_size)
        + "\nrepl_backlog_first_byte_offset:"@ + dec_int_chars(st.repl_backlog_first_byte_offset)
        + "\nrepl_backlog_histen:"@ + dec_int_chars(st.repl_backlog_histlen)
}

/// The text of the reply to `PSYNC`: the replication id and offset of
/// this server.
pub open spec fn psync_text(st: SettingsModel) -> Seq<char> {
    "FULLRESYNC "@ + st.master_replid + " "@ + dec_int_chars(st.master_reploffset)
}

/// The response to `ECHO`: each remaining argument re-emitted as a bulk
/// string, in order. Arguments that are not string-typed, or whose length
/// no length token could carry, contribute nothing.
pub open spec fn echo_tokens(args: Seq<ValueModel>) -> Seq<TokenModel>
    decreases args.len(),
{
    if args.len() == 0 {
        Seq::empty()
    } else {
        (match value_text(args[0]) {
            Some(t) => if crate::tokenizer::byte_len(t) <= i64::MAX {
                val_tokens(ValueModel::BulkString(t))
            } else {
                Seq::empty()
            },
            None => Seq::empty(),
        }) + echo_tokens(args.skip(1))
    }
}

/// An error reply: `-<message>\r\n` on the wire.
pub open spec fn error_reply(msg: Seq<char>) -> Seq<TokenModel> {
    seq![TokenModel::Hyphen, TokenModel::Str(msg), TokenModel::Sep]
}

/// Builds the tokens of an error reply.
fn error_reply_tokens(msg: &str) -> (r: Vec<Token>)
    ensures
        tokens_view(r@) == error_reply(msg@),
{
    let r = vec![
        Token::Hyphen,
        Token::String(String::from_str(msg)),
        Token::Separator,
    ];
    proof {
        assert(tokens_view(r@) =~= error_reply(msg@));
    }
    r
}

/// The expiry request carried by a `SET` command: `None` when no expiry
/// pair is present, `Some(None)` when a count is present but is not an
/// integer, `Some(Some(ms))` for a count of `ms` milliseconds. The option
/// keyword itself is consumed but never validated.
pub open spec fn px_request(args: Seq<ValueModel>) -> Option<Option<int>> {
    if args.len() >= 4 && value_text(args[3]) is Some {
        if args.len() >= 5 && value_text(args[4]) is Some {
            match parse_i64_spec(value_text(args[4])->Some_0) {
                Some(v) => Some(Some(v)),
                None => Some(None),
            }
        } else {
            None
        }
    } else {
        None
    }
}

/// The entry a well-formed `SET` stores: the third argument verbatim, with
/// the expiry computed once from `now`.
pub open spec fn stored_entry_from(args: Seq<ValueModel>, now: int) -> DataValueModel {
    DataValueModel {
        value: args[2],
        expiry: match px_request(args) {
            Some(Some(ms)) => Some(expiry_from(now, ms)),
            _ => None,
        },
    }
}

/// The store immediately after the command itself ran, before the sweep:
/// only a well-formed `SET` writes.
pub open spec fn cmd_store_spec(
    store: Seq<(Seq<char>, DataValueModel)>,
    args: Seq<ValueModel>,
    now: int,
) -> Seq<(Seq<char>, DataValueModel)> {
    let lv = lower_of(value_text(args[0])->Some_0);
    if lv == "set"@ && args.len() >= 3 && value_text(args[1]) is Some && !(px_request(args)
        matches Some(None)) {
        insert_entry_spec(store, value_text(args[1])->Some_0, stored_entry_from(args, now))
    } else {
        store
    }
}

/// The store once the command and the lazy expiry sweep have both run.
pub open spec fn store_after(
    store: Seq<(Seq<char>, DataValueModel)>,
    args: Seq<ValueModel>,
    now: int,
) -> Seq<(Seq<char>, DataValueModel)> {
    sweep_spec(cmd_store_spec(store, args, now), now)
}

/// The response tokens for a command: the verb is the first argument,
/// lower-cased and matched against the command table.
pub open spec fn response_spec(
    store: Seq<(Seq<char>, DataValueModel)>,
    args: Seq<ValueModel>,
    st: SettingsModel,
    now: int,
) -> Seq<TokenModel> {
    let lv = lower_of(value_text(args[0])->Some_0);
    if lv == "ping"@ {
        val_tokens(ValueModel::SimpleString("PONG"@))
    } else if lv == "echo"@ {
        echo_tokens(args.skip(1))
    } else if lv == "set"@ {
        if args.len() < 3 {
            error_reply("ERR wrong number of arguments for 'set' command"@)
        } else if !(value_text(args[1]) is Some) {
            val_tokens(ValueModel::NullBulkString)
        } else if px_request(args) matches Some(None) {
            error_reply("ERR value is not an integer or out of range"@)
        } else {
            val_tokens(ValueModel::SimpleString("OK"@))
        }
    } else if lv == "get"@ {
        if args.len() < 2 {
            error_reply("ERR wrong number of arguments for 'get' command"@)
        } else {
            match value_text(args[1]) {
                None => val_tokens(ValueModel::NullBulkString),
                Some(k) => match lookup_key(store, k) {
                    None => val_tokens(ValueModel::NullBulkString),
                    Some(e) => if entry_expired(e, now) {
                        val_tokens(ValueModel::NullBulkString)
                    } else {
                        val_tokens(e.value)
                    },
                },
            }
        }
    } else if lv == "command"@ {
        val_tokens(ValueModel::SimpleString(""@))
    } else if lv == "info"@ {
        val_tokens(ValueModel::BulkString(info_text(st)))
    } else if lv == "replconf"@ {
        val_tokens(ValueModel::SimpleString("OK"@))
    } else if lv == "psync"@ {
        val_tokens(ValueModel::SimpleString(psync_text(st)))
    } else {
        error_reply("ERR unknown command"@)
    }
}

/// Builds the `INFO` section text.
fn build_info_text(settings: &ReplicationSettings) -> (r: String)
    ensures
        r@ == info_text(settings@),
{
    let mut s = String::from_str("# Replication\nrole:");
    s.append(settings.replication_role.to_string().as_str());
    s.append("\nconnected_slaves:");
    s.append(crate::numeric::i64_to_dec_string(settings.connected_slaves).as_str());
    s.append("\nmaster_replid:");
    s.append(settings.master_replid.as_str());
    s.append("\nmaster_repl_offset:");
    s.append(crate::numeric::i64_to_dec_string(settings.master_reploffset).as_str());
    s.append("\nsecond_repl_offset:");
    s.append(crate::numeric::i64_to_dec_string(settings.second_reploffset).as_str());
    s.append("\nrepl_backlog_active:");
    s.append(crate::numeric::i64_to_dec_string(settings.repl_backlog_active).as_str());
    s.append("\nrepl_backlog_size:");
    s.append(crate::numeric::i64_to_dec_string(settings.repl_backlog_size).as_str());
    s.append("\nrepl_backlog_first_byte_offset:");
    s.append(crate::numeric::i64_to_dec_string(settings.repl_backlog_first_byte_offset).as_str());
    s.append("\nrepl_backlog_histen:");
    s.append(crate::numeric::i64_to_dec_string(settings.repl_backlog_histlen).as_str());
    proof {
        assert(s@ =~= info_text(settings@));
    }
    s
}

/// The `INFO` text is short: its pieces are labels, the 40-character
/// replication id and decimal renderings of 64-bit counters, so even at
/// four bytes per character its byte length stays small.
pub proof fn lemma_info_text_len(st: SettingsModel)
    requires
        settings_wf(st),
        i64::MIN <= st.connected_slaves <= i64::MAX,
        i64::MIN <= st.master_reploffset <= i64::MAX,
        i64::MIN <= st.second_reploffset <= i64::MAX,
        i64::MIN <= st.repl_backlog_active <= i64::MAX,
        i64::MIN <= st.repl_backlog_size <= i64::MAX,
        i64::MIN <= st.repl_backlog_first_byte_offset <= i64::MAX,
        i64::MIN <= st.repl_backlog_histlen <= i64::MAX,
    ensures
        info_text(st).len() <= 1000,
        crate::tokenizer::byte_len(info_text(st)) <= 4000,
{
    broadcast use crate::tokenizer::lemma_byte_len_bounds;

    reveal_strlit("# Replication\nrole:");
    reveal_strlit("\nconnected_slaves:");
    reveal_strlit("\nmaster_replid:");
    reveal_strlit("\nmaster_repl_offset:");
    reveal_strlit("\nsecond_repl_offset:");
    reveal_strlit("\nrepl_backlog_active:");
    reveal_strlit("\nrepl_backlog_size:");
    reveal_strlit("\nrepl_backlog_first_byte_offset:");
    reveal_strlit("\nrepl_backlog_histen:");
    reveal_strlit("master");
    reveal_strlit("slave");
    lemma_dec_i64_len(st.connected_slaves);
    lemma_dec_i64_len(st.master_reploffset);
    lemma_dec_i64_len(st.second_reploffset);
    lemma_dec_i64_len(st.repl_backlog_active);
    lemma_dec_i64_len(st.repl_backlog_size);
    lemma_dec_i64_len(st.repl_backlog_first_byte_offset);
    lemma_dec_i64_len(st.repl_backlog_histlen);
}

/// Builds the `PSYNC` reply text.
fn build_psync_text(settings: &ReplicationSettings) -> (r: String)
    ensures
        r@ == psync_text(settings@),
{
    let mut s = String::from_str("FULLRESYNC ");
    s.append(settings.master_replid.as_str());
    s.append(" ");
    s.append(crate::numeric::i64_to_dec_string(settings.master_reploffset).as_str());
    proof {
        assert(s@ =~= psync_text(settings@));
    }
    s
}

/// The value of a hexadecimal digit character, or -1.
pub open spec fn hex_val(c: char) -> int {
    if '0' as int <= c as int <= '9' as int {
        c as int - '0' as int
    } else if 'a' as int <= c as int <= 'f' as int {
        c as int - 'a' as int + 10
    } else if 'A' as int <= c as int <= 'F' as int {
        c as int - 'A' as int + 10
    } else {
        -1
    }
}

/// The bytes a hexadecimal text denotes: two digits per byte. `None` when
/// a character is not a hexadecimal digit or the length is odd.
pub open spec fn hex_decode_spec(s: Seq<char>) -> Option<Seq<u8>>
    decreases s.len(),
{
    if s.len() == 0 {
        Some(Seq::empty())
    } else if s.len() == 1 {
        None
    } else if hex_val(s[0]) >= 0 && hex_val(s[1]) >= 0 {
        match hex_decode_spec(s.skip(2)) {
            Some(rest) => Some(seq![(hex_val(s[0]) * 16 + hex_val(s[1])) as u8] + rest),
            None => None,
        }
    } else {
        None
    }
}

/// The value of a hexadecimal digit character, as runnable code.
fn hex_digit_val(c: char) -> (r: Option<u8>)
    ensures
        match r {
            Some(v) => hex_val(c) == v as int && v < 16,
            None => hex_val(c) == -1,
        },
{
    let u = c as u32;
    if u >= 48 && u <= 57 {
        Some((u - 48) as u8)
    } else if u >= 97 && u <= 102 {
        Some((u - 97 + 10) as u8)
    } else if u >= 65 && u <= 70 {
        Some((u - 65 + 10) as u8)
    } else {
        None
    }
}

/// Decodes hexadecimal text into bytes, two digits per byte.
#[verifier::loop_isolation(false)]
fn decode_hex(s: &str) -> (r: Option<Vec<u8>>)
    ensures
        match r {
            Some(bytes) => hex_decode_spec(s@) == Some(bytes@),
            None => hex_decode_spec(s@) is None,
        },
{
    let n = s.unicode_len();
    let mut out: Vec<u8> = Vec::new();
    let mut i: usize = 0;
    proof {
        assert(s@.skip(0) =~= s@);
        assert(out@ + Seq::<u8>::empty() =~= out@);
    }
    while i < n
        invariant
            i <= n,
            i % 2 == 0,
            match hex_decode_spec(s@.skip(i as int)) {
                Some(rest) => hex_decode_spec(s@) == Some(out@ + rest),
                None => hex_decode_spec(s@) is None,
            },
        decreases n - i,
    {
        let ghost rem = s@.skip(i as int);
        if i + 1 >= n {
            proof {
                assert(rem.len() == 1);
            }
            return None;
        }
        let c0 = s.get_char(i);
        let c1 = s.get_char(i + 1);
        proof {
            assert(rem[0] == c0 && rem[1] == c1);
        }
        let v0 = match hex_digit_val(c0) {
            Some(v) => v,
            None => {
                return None;
            },
        };
        let v1 = match hex_digit_val(c1) {
            Some(v) => v,
            None => {
                return None;
            },
        };
        let ghost out0 = out@;
        out.push(v0 * 16 + v1);
        i = i + 2;
        proof {
            assert(rem.skip(2) =~= s@.skip(i as int));
            assert(hex_decode_spec(rem) == (match hex_decode_spec(s@.skip(i as int)) {
                Some(rest) => Some(seq![(hex_val(rem[0]) * 16 + hex_val(rem[1])) as u8] + rest),
                None => None::<Seq<u8>>,
            }));
            if let Some(rest) = hex_decode_spec(s@.skip(i as int)) {
                assert(out@ =~= out0 + seq![(hex_val(rem[0]) * 16 + hex_val(rem[1])) as u8]);
                assert((out0 + seq![(hex_val(rem[0]) * 16 + hex_val(rem[1])) as u8]) + rest
                    =~= out0 + (seq![(hex_val(rem[0]) * 16 + hex_val(rem[1])) as u8] + rest));
            }
        }
    }
    proof {
        assert(s@.skip(n as int) =~= Seq::<char>::empty());
        assert(out@ + Seq::<u8>::empty() =~= out@);
    }
    Some(out)
}

/// The decimal digits of a non-negative integer, as bytes.
pub open spec fn dec_nat_bytes(n: int) -> Seq<u8>
    decreases n,
{
    if n < 10 {
        seq![(48 + n) as u8]
    } else {
        dec_nat_bytes(n / 10) + seq![(48 + n % 10) as u8]
    }
}

/// Renders a non-negative integer in decimal, as bytes.
fn u64_to_dec_bytes(n: u64) -> (r: Vec<u8>)
    ensures
        r@ == dec_nat_bytes(n as int),
    decreases n,
{
    if n < 10 {
        let mut v: Vec<u8> = Vec::new();
        v.push(48 + (n as u8));
        proof {
            assert(v@ =~= dec_nat_bytes(n as int));
        }
        v
    } else {
        let mut v = u64_to_dec_bytes(n / 10);
        v.push(48 + ((n % 10) as u8));
        proof {
            assert(v@ =~= dec_nat_bytes(n as int));
        }
        v
    }
}

/// The hexadecimal text of the fixed, empty snapshot payload that a full
/// resynchronization transfers.
pub const RDB_EMPTY_HEX: &'static str =
    "524544495330303131fa0972656469732d76657205372e322e30fa0a72656469732d62697473c040fa056374696d65c26d08bc65fa08757365642d6d656dc2b0c41000fa08616f662d62617365c000fff06e3bfec0ff5aa2";

/// The framed snapshot blob: `$<len>\r\n` followed by the payload bytes.
pub open spec fn rdb_bytes_spec() -> Seq<u8> {
    let payload = match hex_decode_spec(RDB_EMPTY_HEX@) {
        Some(b) => b,
        None => Seq::empty(),
    };
    seq![36u8] + dec_nat_bytes(payload.len() as int) + seq![13u8, 10u8] + payload
}

/// The keyspace: string keys mapped to stored entries, keys unique.
#[derive(Debug)]
pub struct DataCore {
    data_set: Vec<(String, DataValue)>,
}

impl DataCore {
    /// The mathematical content of the keyspace.
    pub closed spec fn store(&self) -> Seq<(Seq<char>, DataValueModel)> {
        store_view(self.data_set@)
    }

    /// The keyspace invariant: keys unique, stored lengths representable.
    pub open spec fn wf(&self) -> bool {
        unique_keys(self.store()) && store_fits(self.store())
    }

    /// An empty keyspace.
    pub fn new() -> (r: DataCore)
        ensures
            r.store() == Seq::<(Seq<char>, DataValueModel)>::empty(),
            r.wf(),
    {
        let r = DataCore { data_set: Vec::new() };
        proof {
            assert(r.store() =~= Seq::<(Seq<char>, DataValueModel)>::empty());
        }
        r
    }

    /// The index of the entry under `key`, if one is stored.
    #[verifier::loop_isolation(false)]
    fn find_entry(&self, key: &String) -> (r: Option<usize>)
        ensures
            match r {
                Some(i) => i < self.data_set@.len() && find_key(self.store(), key@) == Some(
                    i as int,
                ),
                None => find_key(self.store(), key@) is None,
            },
    {
        let ghost store = self.store();
        proof {
            lemma_store_view(self.data_set@);
            lemma_find_key(store, key@);
        }
        let n = self.data_set.len();
        let mut i: usize = 0;
        while i < n
            invariant
                store == self.store(),
                n == self.data_set@.len(),
                i <= n,
                forall|m: int| 0 <= m < i ==> (#[trigger] store[m]).0 != key@,
            decreases n - i,
        {
            if string_eq(&self.data_set[i].0, key.as_str()) {
                proof {
                    assert(store[i as int].0 == key@);
                    match find_key(store, key@) {
                        Some(p) => {
                            if p < i {
                                assert(store[p].0 != key@);
                                assert(false);
                            }
                            if p > i {
                                assert(store[i as int].0 != key@);
                                assert(false);
                            }
                        },
                        None => {
                            assert(store[i as int].0 != key@);
                            assert(false);
                        },
                    }
                }
                return Some(i);
            }
            i = i + 1;
        }
        proof {
            if let Some(p) = find_key(store, key@) {
                assert(store[p].0 != key@);
                assert(false);
            }
        }
        None
    }

    /// Writes `dv` under `key`, overwriting any entry already there.
    #[verifier::loop_isolation(false)]
    fn insert_entry(&mut self, key: String, dv: DataValue)
        requires
            old(self).wf(),
            value_fits(dv@.value),
        ensures
            final(self).store() == insert_entry_spec(old(self).store(), key@, dv@),
            final(self).wf(),
    {
        let ghost store0 = self.store();
        proof {
            lemma_store_view(self.data_set@);
            lemma_find_key(store0, key@);
        }
        match self.find_entry(&key) {
            Some(i) => {
                self.data_set[i] = (key, dv);
                proof {
                    lemma_store_view(self.data_set@);
                    assert forall|p: int| 0 <= p < self.data_set@.len() implies store_view(
                        self.data_set@,
                    )[p] == store0.update(i as int, (key@, dv@))[p] by {
                        assert(store_view(self.data_set@)[p] == ((self.data_set@[p]).0@, (
                        self.data_set@[p]).1@));
                        if p != i {
                            assert(self.data_set@[p] == old(self).data_set@[p]);
                            assert(store0[p] == ((old(self).data_set@[p]).0@, (
                            old(self).data_set@[p]).1@));
                        }
                    }
                    assert(self.store() =~= store0.update(i as int, (key@, dv@)));
                    assert forall|p: int, q: int|
                        0 <= p < q < self.store().len() implies (#[trigger] self.store()[p]).0 != (
                    #[trigger] self.store()[q]).0 by {
                        assert(store0[p].0 != store0[q].0);
                        if p != i && q != i {
                            assert(self.store()[p] == store0[p] && self.store()[q] == store0[q]);
                        }
                    }
                    assert forall|p: int| 0 <= p < self.store().len() implies value_fits(
                        (#[trigger] self.store()[p]).1.value,
                    ) by {
                        if p != i {
                            assert(self.store()[p] == store0[p]);
                        }
                    }
                }
            },
            None => {
                self.data_set.push((key, dv));
                proof {
                    lemma_store_view(self.data_set@);
                    assert forall|p: int| 0 <= p < self.data_set@.len() implies store_view(
                        self.data_set@,
                    )[p] == store0.push((key@, dv@))[p] by {
                        assert(store_view(self.data_set@)[p] == ((self.data_set@[p]).0@, (
                        self.data_set@[p]).1@));
                        if p < store0.len() {
                            assert(self.data_set@[p] == old(self).data_set@[p]);
                            assert(store0[p] == ((old(self).data_set@[p]).0@, (
                            old(self).data_set@[p]).1@));
                        } else {
                            assert(self.data_set@[p] == (key, dv));
                        }
                    }
                    assert(self.store() =~= store0.push((key@, dv@)));
                    assert forall|p: int, q: int|
                        0 <= p < q < self.store().len() implies (#[trigger] self.store()[p]).0 != (
                    #[trigger] self.store()[q]).0 by {
                        if q < store0.len() {
                            assert(self.store()[p] == store0[p] && self.store()[q] == store0[q]);
                        } else {
                            assert(self.store()[q] == (key@, dv@));
                            assert(self.store()[p] == store0[p]);
                            assert(store0[p].0 != key@);
                        }
                    }
                    assert forall|p: int| 0 <= p < self.store().len() implies value_fits(
                        (#[trigger] self.store()[p]).1.value,
                    ) by {
                        if p < store0.len() {
                            assert(self.store()[p] == store0[p]);
                        }
                    }
                }
            },
        }
    }

    /// Removes every entry that has expired by `now_nanos`: the lazy
    /// expiry sweep that runs after each processed command.
    #[verifier::loop_isolation(false)]
    pub fn remove_expired_values_at(&mut self, now_nanos: i64)
        requires
            old(self).wf(),
        ensures
            final(self).store() == sweep_spec(old(self).store(), now_nanos as int),
            final(self).wf(),
    {
        let ghost store0 = self.store();
        let ghost now = now_nanos as int;
        let mut old_vec: Vec<(String, DataValue)> = Vec::new();
        std::mem::swap(&mut old_vec, &mut self.data_set);
        let mut kept: Vec<(String, DataValue)> = Vec::new();
        proof {
            assert(store_view(kept@) =~= Seq::<(Seq<char>, DataValueModel)>::empty());
            assert(store_view(kept@) + sweep_spec(store_view(old_vec@), now) =~= sweep_spec(
                store_view(old_vec@),
                now,
            ));
        }
        while old_vec.len() > 0
            invariant
                store_view(kept@) + sweep_spec(store_view(old_vec@), now) == sweep_spec(
                    store0,
                    now,
                ),
            decreases old_vec@.len(),
        {
            let ghost kept0 = kept@;
            let ghost rem0 = old_vec@;
            let e = old_vec.remove(0);
            let ghost h = (e.0@, e.1@);
            proof {
                assert(old_vec@ =~= rem0.skip(1));
                assert(e == rem0[0]);
                assert(store_view(rem0) == seq![h] + store_view(rem0.skip(1)));
                assert(store_view(rem0)[0] == h);
                assert(store_view(rem0).skip(1) =~= store_view(rem0.skip(1)));
            }
            let keep = !e.1.has_expired_at(now_nanos);
            if keep {
                kept.push(e);
                proof {
                    lemma_store_view_push(kept0, e);
                    assert(sweep_spec(store_view(rem0), now) == seq![h] + sweep_spec(
                        store_view(rem0.skip(1)),
                        now,
                    ));
                    assert((store_view(kept0) + seq![h]) + sweep_spec(
                        store_view(rem0.skip(1)),
                        now,
                    ) =~= store_view(kept0) + (seq![h] + sweep_spec(
                        store_view(rem0.skip(1)),
                        now,
                    )));
                }
            } else {
                proof {
                    assert(sweep_spec(store_view(rem0), now) == sweep_spec(
                        store_view(rem0.skip(1)),
                        now,
                    ));
                }
            }
        }
        proof {
            assert(store_view(old_vec@) =~= Seq::<(Seq<char>, DataValueModel)>::empty());
            assert(sweep_spec(Seq::<(Seq<char>, DataValueModel)>::empty(), now) == Seq::<
                (Seq<char>, DataValueModel),
            >::empty());
            assert(store_view(kept@) + Seq::<(Seq<char>, DataValueModel)>::empty() =~= store_view(
                kept@,
            ));
        }
        std::mem::swap(&mut kept, &mut self.data_set);
        proof {
            lemma_sweep_wf(store0, now);
        }
    }

    /// The lazy expiry sweep against the wall clock. When the clock is
    /// unavailable the keyspace is left unchanged.
    pub fn remove_expired_values(self: &mut DataCore)
        requires
            old(self).wf(),
        ensures
            final(self).wf(),
            final(self).store() == old(self).store() || (exists|now: int|
                final(self).store() == sweep_spec(old(self).store(), now)),
    {
        match current_unix_nanos() {
            Some(now) => {
                self.remove_expired_values_at(now);
                proof {
                    assert(final(self).store() == sweep_spec(old(self).store(), now as int));
                }
            },
            None => {},
        }
    }

    /// The fixed snapshot blob sent after a `PSYNC` reply: a bulk-payload
    /// frame around the placeholder snapshot bytes.
    pub fn to_rdb_bytes(self: &DataCore) -> (r: Vec<u8>)
        ensures
            r@ == rdb_bytes_spec(),
    {
        let payload: Vec<u8> = match decode_hex(RDB_EMPTY_HEX) {
            Some(p) => p,
            None => Vec::new(),
        };
        proof {
            if hex_decode_spec(RDB_EMPTY_HEX@) is None {
                assert(payload@ =~= Seq::<u8>::empty());
            }
        }
        let mut r: Vec<u8> = Vec::new();
        r.push(36);  // '$'
        let mut len_bytes = u64_to_dec_bytes(payload.len() as u64);
        r.append(&mut len_bytes);
        r.push(13);  // '\r'
        r.push(10);  // '\n'
        let mut payload_bytes = payload;
        r.append(&mut payload_bytes);
        proof {
            assert(r@ =~= rdb_bytes_spec());
        }
        r
    }

    /// Interprets one command against the keyspace at time `now_nanos`:
    /// computes the response from the pre-command keyspace, applies the
    /// write of a `SET` if there is one, and then performs the lazy
    /// expiry sweep.
    #[verifier::loop_isolation(false)]
    #[verifier::rlimit(100)]
    pub fn process_command_at(self: &mut DataCore, command: Command, now_nanos: i64) -> (r: Vec<
        Token,
    >)
        requires
            old(self).wf(),
            wf_command(command),
        ensures
            final(self).wf(),
            tokens_view(r@) == response_spec(
                old(self).store(),
                command_args(command),
                command.replication_settings@,
                now_nanos as int,
            ),
            final(self).store() == store_after(
                old(self).store(),
                command_args(command),
                now_nanos as int,
            ),
    {
        let ghost store0 = self.store();
        let ghost args = command_args(command);
        let ghost st = command.replication_settings@;
        let ghost now = now_nanos as int;
        proof {
            lemma_values_view(command.arguments@);
        }
        let first_text = match command.arguments[0].to_string() {
            Some(t) => t,
            None => {
                proof {
                    assert(false);
                }
                String::new()
            },
        };
        let lv = to_lowercase_string(first_text.as_str());
        let nargs = command.arguments.len();
        let response: Vec<Token> = if string_eq(&lv, "ping") {
            let v = ParserValue::SimpleString(String::from_str("PONG"));
            v.to_tokens()
        } else if string_eq(&lv, "echo") {
            let mut toks: Vec<Token> = Vec::new();
            let mut idx: usize = 1;
            proof {
                assert(args.skip(1) =~= args.skip(1).skip(0));
                assert(tokens_view(toks@) =~= Seq::<TokenModel>::empty());
                assert(Seq::<TokenModel>::empty() + echo_tokens(args.skip(1)) =~= echo_tokens(
                    args.skip(1),
                ));
            }
            while idx < nargs
                invariant
                    1 <= idx <= nargs,
                    tokens_view(toks@) + echo_tokens(args.skip(idx as int)) == echo_tokens(
                        args.skip(1),
                    ),
                decreases nargs - idx,
            {
                let ghost toks0 = tokens_view(toks@);
                let ghost piece = (match value_text(args[idx as int]) {
                    Some(t) => if crate::tokenizer::byte_len(t) <= i64::MAX {
                        val_tokens(ValueModel::BulkString(t))
                    } else {
                        Seq::<TokenModel>::empty()
                    },
                    None => Seq::<TokenModel>::empty(),
                });
                proof {
                    assert(args.skip(idx as int).len() > 0);
                    assert(args.skip(idx as int)[0] == args[idx as int]);
                    assert(args.skip(idx as int).skip(1) =~= args.skip(idx + 1));
                    assert(echo_tokens(args.skip(idx as int)) == piece + echo_tokens(
                        args.skip(idx + 1),
                    ));
                }
                match command.arguments[idx].to_string() {
                    Some(text) => {
                        let tlen = crate::tokenizer::str_byte_len(text.as_str());
                        if (tlen as u64) <= (i64::MAX as u64) {
                            let bv = ParserValue::BulkString(text);
                            let mut piece_tokens = bv.to_tokens();
                            proof {
                                assert(tokens_view(piece_tokens@) == piece);
                            }
                            toks.append(&mut piece_tokens);
                            proof {
                                assert(tokens_view(toks@) =~= toks0 + piece);
                            }
                        } else {
                            proof {
                                assert(piece =~= Seq::<TokenModel>::empty());
                                assert(tokens_view(toks@) =~= toks0 + piece);
                            }
                        }
                    },
                    None => {
                        proof {
                            assert(piece =~= Seq::<TokenModel>::empty());
                            assert(tokens_view(toks@) =~= toks0 + piece);
                        }
                    },
                }
                idx = idx + 1;
                proof {
                    assert((toks0 + piece) + echo_tokens(args.skip(idx as int)) =~= toks0 + (piece
                        + echo_tokens(args.skip(idx as int))));
                }
            }
            proof {
                assert(args.skip(nargs as int) =~= Seq::<ValueModel>::empty());
                assert(echo_tokens(Seq::<ValueModel>::empty()) == Seq::<TokenModel>::empty());
                assert(tokens_view(toks@) + Seq::<TokenModel>::empty() =~= tokens_view(toks@));
            }
            toks
        } else if string_eq(&lv, "set") {
            if nargs < 3 {
                error_reply_tokens("ERR wrong number of arguments for 'set' command")
            } else {
                match command.arguments[1].to_string() {
                    None => ParserValue::NullBulkString.to_tokens(),
                    Some(key) => {
                        let mut px_bad = false;
                        let mut px_val: Option<i64> = None;
                        if nargs >= 4 && command.arguments[3].is_string() {
                            if nargs >= 5 && command.arguments[4].is_string() {
                                let ms_text = match command.arguments[4].to_string() {
                                    Some(t) => t,
                                    None => {
                                        proof {
                                            assert(false);
                                        }
                                        String::new()
                                    },
                                };
                                match parse_i64(ms_text.as_str()) {
                                    Some(ms) => {
                                        px_val = Some(ms);
                                    },
                                    None => {
                                        px_bad = true;
                                    },
                                }
                            }
                        }
                        proof {
                            match px_request(args) {
                                Some(inner) => {
                                    match inner {
                                        Some(ms) => {
                                            assert(!px_bad && px_val == Some(ms as i64));
                                        },
                                        None => {
                                            assert(px_bad);
                                        },
                                    }
                                },
                                None => {
                                    assert(!px_bad && px_val is None);
                                },
                            }
                        }
                        if px_bad {
                            error_reply_tokens("ERR value is not an integer or out of range")
                        } else {
                            let mut dv = DataValue::new(command.arguments[2].deep_clone());
                            match px_val {
                                Some(ms) => {
                                    dv.set_expiry_at(now_nanos, ms);
                                },
                                None => {},
                            }
                            proof {
                                assert(dv@ == stored_entry_from(args, now));
                                assert(value_fits(args[2]));
                            }
                            self.insert_entry(key, dv);
                            let v = ParserValue::SimpleString(String::from_str("OK"));
                            v.to_tokens()
                        }
                    },
                }
            }
        } else if string_eq(&lv, "get") {
            if nargs < 2 {
                error_reply_tokens("ERR wrong number of arguments for 'get' command")
            } else {
                match command.arguments[1].to_string() {
                    None => ParserValue::NullBulkString.to_tokens(),
                    Some(key) => {
                        match self.find_entry(&key) {
                            None => ParserValue::NullBulkString.to_tokens(),
                            Some(i) => {
                                proof {
                                    lemma_store_view(self.data_set@);
                                    assert(store0[i as int].1 == self.data_set@[i as int].1@);
                                }
                                let entry = &self.data_set[i].1;
                                if entry.has_expired_at(now_nanos) {
                                    ParserValue::NullBulkString.to_tokens()
                                } else {
                                    entry.parser_value.to_tokens()
                                }
                            },
                        }
                    },
                }
            }
        } else if string_eq(&lv, "command") {
            let v = ParserValue::SimpleString(String::from_str(""));
            v.to_tokens()
        } else if string_eq(&lv, "info") {
            let text = build_info_text(&command.replication_settings);
            proof {
                lemma_info_text_len(st);
            }
            let v = ParserValue::BulkString(text);
            v.to_tokens()
        } else if string_eq(&lv, "replconf") {
            let v = ParserValue::SimpleString(String::from_str("OK"));
            v.to_tokens()
        } else if string_eq(&lv, "psync") {
            let text = build_psync_text(&command.replication_settings);
            let v = ParserValue::SimpleString(text);
            v.to_tokens()
        } else {
            error_reply_tokens("ERR unknown command")
        };
        proof {
            reveal_strlit("ping");
            reveal_strlit("echo");
            reveal_strlit("set");
            let lvs = lower_of(value_text(args[0])->Some_0);
            assert(lv@ == lvs);
            if lvs == "set"@ && args.len() >= 3 && value_text(args[1]) is Some && !(px_request(
                args,
            ) matches Some(None)) {
                assert(self.store() == insert_entry_spec(
                    store0,
                    value_text(args[1])->Some_0,
                    stored_entry_from(args, now),
                ));
            } else {
                assert(self.store() == store0);
            }
            assert(self.store() == cmd_store_spec(store0, args, now));
        }
        self.remove_expired_values_at(now_nanos);
        response
    }

    /// Interprets one command against the keyspace at the present wall
    /// clock time (the epoch is used when the clock is unavailable).
    pub fn process_command(self: &mut DataCore, command: Command) -> (r: Vec<Token>)
        requires
            old(self).wf(),
            wf_command(command),
        ensures
            final(self).wf(),
            exists|now: int|
                tokens_view(r@) == response_spec(
                    old(self).store(),
                    command_args(command),
                    command.replication_settings@,
                    now,
                ) && final(self).store() == store_after(
                    old(self).store(),
                    command_args(command),
                    now,
                ),
    {
        let now_nanos = match current_unix_nanos() {
            Some(t) => t,
            None => 0,
        };
        let ghost args = command_args(command);
        let ghost st = command.replication_settings@;
        let r = self.process_command_at(command, now_nanos);
        proof {
            assert(tokens_view(r@) == response_spec(old(self).store(), args, st, now_nanos as int)
                && final(self).store() == store_after(
                old(self).store(),
                args,
                now_nanos as int,
            ));
        }
        r
    }
}

/// What handling one request frame produced: either the connection must
/// be shut down (the frame failed to parse, was not an array, or had no
/// string verb), or a reply to write back, with the snapshot blob that a
/// `PSYNC` additionally transfers.
#[derive(Debug)]
pub enum FrameOutcome {
    Shutdown,
    Reply(String, Option<Vec<u8>>),
}

/// The mathematical model of a frame outcome.
pub enum FrameOutcomeModel {
    Shutdown,
    Reply(Seq<char>, Option<Seq<u8>>),
}

impl View for FrameOutcome {
    type V = FrameOutcomeModel;

    open spec fn view(&self) -> FrameOutcomeModel {
        match self {
            FrameOutcome::Shutdown => FrameOutcomeModel::Shutdown,
            FrameOutcome::Reply(s, None) => FrameOutcomeModel::Reply(s@, None),
            FrameOutcome::Reply(s, Some(b)) => FrameOutcomeModel::Reply(s@, Some(b@)),
        }
    }
}

/// What processing the raw text of one request frame does to the store,
/// and what it answers. The request must scan, parse to an array with a
/// string-typed verb, and produce a non-empty response, else the
/// connection is shut down; the keyspace changes only when a command ran.
pub open spec fn frame_spec(
    store: Seq<(Seq<char>, DataValueModel)>,
    s: Seq<char>,
    st: SettingsModel,
    now: int,
) -> (FrameOutcomeModel, Seq<(Seq<char>, DataValueModel)>) {
    if !crate::tokenizer::scan_in_range(s) {
        (FrameOutcomeModel::Shutdown, store)
    } else {
        match crate::parser::parse_value(crate::tokenizer::scan(s)) {
            None => (FrameOutcomeModel::Shutdown, store),
            Some(v) => match v {
                ValueModel::Array(args) => {
                    if args.len() == 0 || !(value_text(args[0]) is Some) {
                        (FrameOutcomeModel::Shutdown, store)
                    } else {
                        let resp = response_spec(store, args, st, now);
                        let store1 = store_after(store, args, now);
                        if resp.len() == 0 {
                            (FrameOutcomeModel::Shutdown, store1)
                        } else {
                            let snapshot = if lower_of(value_text(args[0])->Some_0)
                                == "psync"@ {
                                Some(rdb_bytes_spec())
                            } else {
                                None::<Seq<u8>>
                            };
                            (
                                FrameOutcomeModel::Reply(
                                    crate::tokenizer::wire_of(resp),
                                    snapshot,
                                ),
                                store1,
                            )
                        }
                    }
                },
                _ => (FrameOutcomeModel::Shutdown, store),
            },
        }
    }
}

/// Handles the raw text of one request frame: scan, parse, check the
/// array shape, execute the command, serialize the reply. This is the
/// boundary the connection loop drives.
pub fn process_frame(
    core: &mut DataCore,
    input: &str,
    settings: ReplicationSettings,
    now_nanos: i64,
) -> (r: FrameOutcome)
    requires
        old(core).wf(),
        settings_wf(settings@),
    ensures
        final(core).wf(),
        (r@, final(core).store()) == frame_spec(
            old(core).store(),
            input@,
            settings@,
            now_nanos as int,
        ),
{
    let ghost store0 = core.store();
    let tokens = match crate::tokenizer::parse_resp_tokens_from_str(input) {
        Ok(ts) => ts,
        Err(_) => {
            return FrameOutcome::Shutdown;
        },
    };
    let value = match crate::parser::parse_tokens(tokens.as_slice()) {
        Some(v) => v,
        None => {
            return FrameOutcome::Shutdown;
        },
    };
    let items = match value {
        ParserValue::Array(items) => items,
        _ => {
            return FrameOutcome::Shutdown;
        },
    };
    if items.len() == 0 {
        proof {
            lemma_values_view(items@);
        }
        return FrameOutcome::Shutdown;
    }
    proof {
        lemma_values_view(items@);
    }
    if !items[0].is_string() {
        return FrameOutcome::Shutdown;
    }
    let ghost args = values_view(items@);
    proof {
        assert forall|i: int| 0 <= i < args.len() implies value_fits(#[trigger] args[i]) by {
            assert(value_fits(ValueModel::Array(args)));
        }
    }
    let command = Command::new(Arc::new(items), settings);
    let was_psync = command.is_psync();
    let response = core.process_command_at(command, now_nanos);
    let wire = match crate::tokenizer::serialize_tokens(&response) {
        Ok(s) => s,
        Err(_) => {
            return FrameOutcome::Shutdown;
        },
    };
    let snapshot = if was_psync {
        Some(core.to_rdb_bytes())
    } else {
        None
    };
    FrameOutcome::Reply(wire, snapshot)
}

} // verus!
