//! Replication metadata: the per-server settings snapshot that introspection
//! commands read, and the replica-side handshake state machine that
//! negotiates a full resynchronization with a master.

use vstd::prelude::*;

use rand::Rng;

use crate::data_core::ReplicationRole;
use crate::parser::value_fits;
use crate::parser::value_text;
use crate::parser::ParserValue;
use crate::parser::ValueModel;

verus! {

/// An immutable snapshot of replication metadata, handed to each command
/// invocation.
#[derive(Debug, Clone)]
pub struct ReplicationSettings {
    pub replication_role: ReplicationRole,
    pub connected_slaves: i64,
    pub master_replid: String,
    pub master_reploffset: i64,
    pub second_reploffset: i64,
    pub repl_backlog_active: i64,
    pub repl_backlog_size: i64,
    pub repl_backlog_first_byte_offset: i64,
    pub repl_backlog_histlen: i64,
    pub master_host: Option<String>,
    pub master_port: Option<u64>,
}

/// The mathematical model of a settings snapshot.
pub struct SettingsModel {
    pub replication_role: ReplicationRole,
    pub connected_slaves: int,
    pub master_replid: Seq<char>,
    pub master_reploffset: int,
    pub second_reploffset: int,
    pub repl_backlog_active: int,
    pub repl_backlog_size: int,
    pub repl_backlog_first_byte_offset: int,
    pub repl_backlog_histlen: int,
    pub master_host: Option<Seq<char>>,
    pub master_port: Option<int>,
}

impl View for ReplicationSettings {
    type V = SettingsModel;

    open spec fn view(&self) -> SettingsModel {
        SettingsModel {
            replication_role: self.replication_role,
            connected_slaves: self.connected_slaves as int,
            master_replid: self.master_replid@,
            master_reploffset: self.master_reploffset as int,
            second_reploffset: self.second_reploffset as int,
            repl_backlog_active: self.repl_backlog_active as int,
            repl_backlog_size: self.repl_backlog_size as int,
            repl_backlog_first_byte_offset: self.repl_backlog_first_byte_offset as int,
            repl_backlog_histlen: self.repl_backlog_histlen as int,
            master_host: match &self.master_host {
                Some(h) => Some(h@),
                None => None,
            },
            master_port: match self.master_port {
                Some(p) => Some(p as int),
                None => None,
            },
        }
    }
}

/// What every settings snapshot satisfies: the replication id is the
/// 40-character token generated at startup.
pub open spec fn settings_wf(st: SettingsModel) -> bool {
    st.master_replid.len() == 40
}

/// Relies on rand's `thread_rng`, `sample_iter` and the `Alphanumeric`
/// distribution: a fresh token of exactly 40 alphanumeric ASCII characters.
/// Nothing further can be said of a random value.
#[verifier::external_body]
fn random_replid() -> (r: String)
    ensures
        r@.len() == 40,
{
    rand::thread_rng().sample_iter(&rand::distributions::Alphanumeric).take(40).map(
        char::from,
    ).collect()
}

impl ReplicationSettings {
    /// A fresh settings snapshot for a server that just started: a newly
    /// generated replication id and the fixed initial counters.
    pub fn new(
        replication_role: ReplicationRole,
        master_host: Option<String>,
        master_port: Option<u64>,
    ) -> (r: ReplicationSettings)
        ensures
            settings_wf(r@),
            r@.replication_role == replication_role,
            r@.connected_slaves == 0,
            r@.master_reploffset == 0,
            r@.second_reploffset == -1,
            r@.repl_backlog_active == 0,
            r@.repl_backlog_size == 1048576,
            r@.repl_backlog_first_byte_offset == 0,
            r@.repl_backlog_histlen == 0,
            r@.master_host == (match master_host {
                Some(h) => Some::<Seq<char>>(h@),
                None => None::<Seq<char>>,
            }),
            r@.master_port == (match master_port {
                Some(p) => Some::<int>(p as int),
                None => None::<int>,
            }),
    {
        ReplicationSettings {
            replication_role,
            connected_slaves: 0,
            master_replid: random_replid(),
            master_reploffset: 0,
            second_reploffset: -1,
            repl_backlog_active: 0,
            repl_backlog_size: 1048576,
            repl_backlog_first_byte_offset: 0,
            repl_backlog_histlen: 0,
            master_host,
            master_port,
        }
    }
}

/// The four sequential steps of the replica-side handshake with the
/// master, in order.
#[derive(Debug, Clone, Copy, PartialEq, Eq, Structural)]
pub enum HandshakeStep {
    Ping,
    ListeningPort,
    Capabilities,
    Psync,
}

/// What advancing the handshake produced: the next step to run, the
/// replication id of the master when the negotiation completed, or a
/// reply that does not satisfy the protocol.
#[derive(Debug)]
pub enum HandshakeProgress {
    Continue(HandshakeStep),
    Done(String),
    Failed,
}

/// The mathematical model of handshake progress.
pub enum HandshakeProgressModel {
    Continue(HandshakeStep),
    Done(Seq<char>),
    Failed,
}

impl View for HandshakeProgress {
    type V = HandshakeProgressModel;

    open spec fn view(&self) -> HandshakeProgressModel {
        match self {
            HandshakeProgress::Continue(s) => HandshakeProgressModel::Continue(*s),
            HandshakeProgress::Done(id) => HandshakeProgressModel::Done(id@),
            HandshakeProgress::Failed => HandshakeProgressModel::Failed,
        }
    }
}

/// The request sent at each handshake step, as a protocol value: `PING`,
/// then `REPLCONF listening-port <port>`, then `REPLCONF capa psync2`,
/// then `PSYNC ? -1`.
pub open spec fn handshake_request(step: HandshakeStep, port: int) -> ValueModel {
    match step {
        HandshakeStep::Ping => ValueModel::Array(seq![ValueModel::SimpleString("PING"@)]),
        HandshakeStep::ListeningPort => ValueModel::Array(
            seq![
                ValueModel::SimpleString("REPLCONF"@),
                ValueModel::SimpleString("listening-port"@),
                ValueModel::SimpleString(crate::numeric::dec_nat_chars(port)),
            ],
        ),
        HandshakeStep::Capabilities => ValueModel::Array(
            seq![
                ValueModel::SimpleString("REPLCONF"@),
                ValueModel::SimpleString("capa"@),
                ValueModel::SimpleString("psync2"@),
            ],
        ),
        HandshakeStep::Psync => ValueModel::Array(
            seq![
                ValueModel::BulkString("PSYNC"@),
                ValueModel::BulkString("?"@),
                ValueModel::BulkString("-1"@),
            ],
        ),
    }
}

/// The wire text sent at each handshake step.
pub open spec fn handshake_message_spec(step: HandshakeStep, port: int) -> Seq<char> {
    crate::tokenizer::wire_of(crate::parser::val_tokens(handshake_request(step, port)))
}

/// Builds the wire text of the request for one handshake step.
pub fn handshake_message(step: HandshakeStep, listening_port: u16) -> (r: String)
    ensures
        r@ == handshake_message_spec(step, listening_port as int),
{
    proof {
        reveal_strlit("PING");
        reveal_strlit("REPLCONF");
        reveal_strlit("listening-port");
        reveal_strlit("capa");
        reveal_strlit("psync2");
        reveal_strlit("PSYNC");
        reveal_strlit("?");
        reveal_strlit("-1");
    }
    let value: ParserValue = match step {
        HandshakeStep::Ping => ParserValue::Array(
            vec![ParserValue::SimpleString(String::from_str("PING"))],
        ),
        HandshakeStep::ListeningPort => ParserValue::Array(
            vec![
                ParserValue::SimpleString(String::from_str("REPLCONF")),
                ParserValue::SimpleString(String::from_str("listening-port")),
                ParserValue::SimpleString(crate::numeric::u64_to_dec(listening_port as u64)),
            ],
        ),
        HandshakeStep::Capabilities => ParserValue::Array(
            vec![
                ParserValue::SimpleString(String::from_str("REPLCONF")),
                ParserValue::SimpleString(String::from_str("capa")),
                ParserValue::SimpleString(String::from_str("psync2")),
            ],
        ),
        HandshakeStep::Psync => ParserValue::Array(
            vec![
                ParserValue::BulkString(String::from_str("PSYNC")),
                ParserValue::BulkString(String::from_str("?")),
                ParserValue::BulkString(String::from_str("-1")),
            ],
        ),
    };
    proof {
        match &value {
            ParserValue::Array(items) => {
                crate::parser::lemma_values_view(items@);
                let es = handshake_request(step, listening_port as int)->Array_0;
                assert forall|i: int| 0 <= i < items@.len() implies crate::parser::values_view(
                    items@,
                )[i] == es[i] by {
                    assert(crate::parser::values_view(items@)[i] == items@[i]@);
                }
                assert(crate::parser::values_view(items@) =~= es);
                assert(value@ == handshake_request(step, listening_port as int));
            },
            _ => {
                assert(false);
            },
        }
        assert(value_fits(value@)) by {
            broadcast use crate::tokenizer::lemma_byte_len_bounds;

            let es = handshake_request(step, listening_port as int)->Array_0;
            assert forall|i: int| 0 <= i < es.len() implies value_fits(#[trigger] es[i]) by {}
        }
    }
    let tokens = value.to_tokens();
    match crate::tokenizer::serialize_tokens(&tokens) {
        Ok(s) => s,
        Err(_) => {
            proof {
                assert(crate::parser::val_tokens(value@).len() > 0);
                assert(false);
            }
            String::new()
        },
    }
}

/// The string a handshake reply carries, read through the scanner and the
/// value parser: the text of the parsed value, when the reply scans and
/// parses to a string-typed value.
pub open spec fn reply_text(s: Seq<char>) -> Option<Seq<char>> {
    if !crate::tokenizer::scan_in_range(s) {
        None
    } else {
        match crate::parser::parse_value(crate::tokenizer::scan(s)) {
            Some(v) => value_text(v),
            None => None,
        }
    }
}

/// The first space in `s`, if any.
pub open spec fn find_space(s: Seq<char>) -> Option<int>
    decreases s.len(),
{
    if s.len() == 0 {
        None
    } else if s[0] == ' ' {
        Some(0)
    } else {
        match find_space(s.skip(1)) {
            Some(j) => Some(j + 1),
            None => None,
        }
    }
}

/// What `find_space` finds is the first space.
pub proof fn lemma_find_space(s: Seq<char>)
    ensures
        match find_space(s) {
            Some(j) => 0 <= j < s.len() && s[j] == ' ' && (forall|m: int|
                0 <= m < j ==> #[trigger] s[m] != ' '),
            None => forall|m: int| 0 <= m < s.len() ==> #[trigger] s[m] != ' ',
        },
    decreases s.len(),
{
    if s.len() > 0 && s[0] != ' ' {
        lemma_find_space(s.skip(1));
        assert forall|m: int| 1 <= m < s.len() implies #[trigger] s[m] == s.skip(1)[m - 1] by {}
    }
}

/// The second field of a `FULLRESYNC <replid> <offset>` acknowledgment:
/// the text split on spaces into at most three parts, and the part after
/// the first space taken as the replication id.
pub open spec fn fullresync_replid(t: Seq<char>) -> Option<Seq<char>> {
    match find_space(t) {
        None => None,
        Some(i) => {
            let rest = t.skip(i + 1);
            match find_space(rest) {
                None => Some(rest),
                Some(j) => Some(rest.take(j)),
            }
        },
    }
}

/// How the handshake advances at each step: the `PING` reply must read
/// `PONG`, each `REPLCONF` reply `OK`, and the `PSYNC` reply must carry a
/// second space-separated field, the master's replication id.
pub open spec fn handshake_advance_spec(step: HandshakeStep, s: Seq<char>) -> HandshakeProgressModel {
    match step {
        HandshakeStep::Ping => if reply_text(s) == Some("PONG"@) {
            HandshakeProgressModel::Continue(HandshakeStep::ListeningPort)
        } else {
            HandshakeProgressModel::Failed
        },
        HandshakeStep::ListeningPort => if reply_text(s) == Some("OK"@) {
            HandshakeProgressModel::Continue(HandshakeStep::Capabilities)
        } else {
            HandshakeProgressModel::Failed
        },
        HandshakeStep::Capabilities => if reply_text(s) == Some("OK"@) {
            HandshakeProgressModel::Continue(HandshakeStep::Psync)
        } else {
            HandshakeProgressModel::Failed
        },
        HandshakeStep::Psync => match reply_text(s) {
            Some(t) => match fullresync_replid(t) {
                Some(id) => HandshakeProgressModel::Done(id),
                None => HandshakeProgressModel::Failed,
            },
            None => HandshakeProgressModel::Failed,
        },
    }
}

/// Reads the reply to one handshake step and decides how to go on.
pub fn handshake_advance(step: HandshakeStep, reply: &str) -> (r: HandshakeProgress)
    ensures
        r@ == handshake_advance_spec(step, reply@),
{
    let text: String = match crate::tokenizer::parse_resp_tokens_from_str(reply) {
        Ok(tokens) => match crate::parser::parse_tokens(tokens.as_slice()) {
            Some(v) => match v.to_string() {
                Some(t) => t,
                None => {
                    return HandshakeProgress::Failed;
                },
            },
            None => {
                return HandshakeProgress::Failed;
            },
        },
        Err(_) => {
            return HandshakeProgress::Failed;
        },
    };
    proof {
        assert(reply_text(reply@) == Some(text@));
    }
    match step {
        HandshakeStep::Ping => {
            if crate::data_core::string_eq(&text, "PONG") {
                HandshakeProgress::Continue(HandshakeStep::ListeningPort)
            } else {
                HandshakeProgress::Failed
            }
        },
        HandshakeStep::ListeningPort => {
            if crate::data_core::string_eq(&text, "OK") {
                HandshakeProgress::Continue(HandshakeStep::Capabilities)
            } else {
                HandshakeProgress::Failed
            }
        },
        HandshakeStep::Capabilities => {
            if crate::data_core::string_eq(&text, "OK") {
                HandshakeProgress::Continue(HandshakeStep::Psync)
            } else {
                HandshakeProgress::Failed
            }
        },
        HandshakeStep::Psync => {
            match extract_fullresync_replid(&text) {
                Some(id) => HandshakeProgress::Done(id),
                None => HandshakeProgress::Failed,
            }
        },
    }
}

/// Finds the first space at or after `from`.
#[verifier::loop_isolation(false)]
fn find_space_from(s: &str, from: usize) -> (r: Option<usize>)
    requires
        from <= s@.len(),
    ensures
        match r {
            Some(j) => from <= j < s@.len() && find_space(s@.skip(from as int)) == Some(
                j - from as int,
            ),
            None => find_space(s@.skip(from as int)) is None,
        },
{
    let ghost tail = s@.skip(from as int);
    proof {
        lemma_find_space(tail);
    }
    let n = s.unicode_len();
    let mut j = from;
    while j < n
        invariant
            from <= j <= n,
            forall|m: int| 0 <= m < j - from ==> #[trigger] tail[m] != ' ',
        decreases n - j,
    {
        if s.get_char(j) == ' ' {
            proof {
                assert(tail[j - from as int] == ' ');
                match find_space(tail) {
                    Some(p) => {
                        if p < j - from {
                            assert(tail[p] != ' ');
                            assert(false);
                        }
                        if p > j - from {
                            assert(tail[j - from as int] != ' ');
                            assert(false);
                        }
                    },
                    None => {
                        assert(tail[j - from as int] != ' ');
                        assert(false);
                    },
                }
            }
            return Some(j);
        }
        j = j + 1;
    }
    proof {
        if let Some(p) = find_space(tail) {
            assert(tail[p] != ' ');
            assert(false);
        }
    }
    None
}

/// Extracts the replication id from a `FULLRESYNC <replid> <offset>` text.
fn extract_fullresync_replid(text: &String) -> (r: Option<String>)
    ensures
        match r {
            Some(id) => fullresync_replid(text@) == Some(id@),
            None => fullresync_replid(text@) is None,
        },
{
    let s = text.as_str();
    let n = s.unicode_len();
    let i = match find_space_from(s, 0) {
        Some(i) => i,
        None => {
            proof {
                assert(text@.skip(0) =~= text@);
            }
            return None;
        },
    };
    proof {
        assert(text@.skip(0) =~= text@);
        assert(find_space(text@) == Some(i as int));
        lemma_find_space(text@);
    }
    let ghost rest = text@.skip(i + 1);
    let id: &str = match find_space_from(s, i + 1) {
        Some(j) => {
            proof {
                assert(find_space(rest) == Some(j - (i + 1)));
                lemma_find_space(rest);
                assert(s@.subrange(i + 1, j as int) =~= rest.take(j - (i + 1)));
            }
            s.substring_char(i + 1, j)
        },
        None => {
            proof {
                assert(find_space(rest) is None);
                assert(s@.subrange(i + 1, n as int) =~= rest);
            }
            s.substring_char(i + 1, n)
        },
    };
    Some(id.to_owned())
}

} // verus!
