//! The token scanner: turns raw protocol text into a flat sequence of tokens
//! (sigil markers, integer literals, raw string runs, segment separators),
//! and renders a token sequence back into wire text.

use vstd::prelude::*;
use vstd::string::StrSliceExecFns;

use crate::numeric::all_digits;
use crate::numeric::dec_int_chars;
use crate::numeric::dec_nat_chars;
use crate::numeric::digit_run;
use crate::numeric::digit_val;
use crate::numeric::digits_val;
use crate::numeric::is_digit_char;
use crate::numeric::lemma_digit_run;
use crate::numeric::lemma_digit_run_at_least;
use crate::numeric::lemma_digit_run_is;
use crate::numeric::lemma_digits_val_prefix_le;

verus! {

/// A single lexical token of the wire protocol.
#[derive(Debug, Clone)]
pub enum Token {
    Plus,
    Hyphen,
    Colon,
    Dollar,
    Asterisk,
    Underscore,
    PoundSign,
    Comma,
    LeftParenthesis,
    Exclamation,
    Equals,
    Percentage,
    Tilda,
    GreaterThan,
    String(String),
    Number(i64),
    Separator,
}

/// The mathematical model of a token: string content as a character
/// sequence, numbers as unbounded integers.
pub enum TokenModel {
    Plus,
    Hyphen,
    Colon,
    Dollar,
    Asterisk,
    Underscore,
    PoundSign,
    Comma,
    LeftParenthesis,
    Exclamation,
    Equals,
    Percentage,
    Tilda,
    GreaterThan,
    Str(Seq<char>),
    Num(int),
    Sep,
}

impl View for Token {
    type V = TokenModel;

    open spec fn view(&self) -> TokenModel {
        match self {
            Token::Plus => TokenModel::Plus,
            Token::Hyphen => TokenModel::Hyphen,
            Token::Colon => TokenModel::Colon,
            Token::Dollar => TokenModel::Dollar,
            Token::Asterisk => TokenModel::Asterisk,
            Token::Underscore => TokenModel::Underscore,
            Token::PoundSign => TokenModel::PoundSign,
            Token::Comma => TokenModel::Comma,
            Token::LeftParenthesis => TokenModel::LeftParenthesis,
            Token::Exclamation => TokenModel::Exclamation,
            Token::Equals => TokenModel::Equals,
            Token::Percentage => TokenModel::Percentage,
            Token::Tilda => TokenModel::Tilda,
            Token::GreaterThan => TokenModel::GreaterThan,
            Token::String(s) => TokenModel::Str(s@),
            Token::Number(n) => TokenModel::Num(*n as int),
            Token::Separator => TokenModel::Sep,
        }
    }
}

/// The models of a sequence of tokens.
pub open spec fn tokens_view(ts: Seq<Token>) -> Seq<TokenModel> {
    ts.map_values(|t: Token| t@)
}

/// The UTF-8 byte length of a character sequence: the length that the
/// wire protocol's bulk frames declare and check.
pub open spec fn byte_len(s: Seq<char>) -> int {
    vstd::utf8::encode_utf8(s).len() as int
}

/// Byte length adds over concatenation.
pub broadcast proof fn lemma_byte_len_append(a: Seq<char>, b: Seq<char>)
    ensures
        #[trigger] byte_len(a + b) == byte_len(a) + byte_len(b),
    decreases a.len(),
{
    if a.len() == 0 {
        assert(a + b =~= b);
    } else {
        assert((a + b)[0] == a[0]);
        assert((a + b).drop_first() =~= a.drop_first() + b);
        lemma_byte_len_append(a.drop_first(), b);
    }
}

/// Each character occupies between one and four bytes.
pub broadcast proof fn lemma_byte_len_bounds(s: Seq<char>)
    ensures
        #[trigger] byte_len(s) >= s.len() && byte_len(s) <= 4 * s.len(),
    decreases s.len(),
{
    if s.len() > 0 {
        lemma_byte_len_bounds(s.drop_first());
        assert(1 <= vstd::utf8::encode_scalar(s[0] as u32).len() <= 4);
    }
}

/// The UTF-8 byte length of a string's text.
pub fn str_byte_len(s: &str) -> (n: usize)
    ensures
        n as int == byte_len(s@),
{
    broadcast use vstd::slice::axiom_spec_len;

    s.as_bytes().len()
}

/// The text a string-like token stands for: the content of a raw string
/// token, or the decimal rendering of a number token.
pub open spec fn token_text(t: TokenModel) -> Option<Seq<char>> {
    match t {
        TokenModel::Str(s) => Some(s),
        TokenModel::Num(n) => Some(dec_int_chars(n)),
        _ => None,
    }
}

/// The fixed token for a sigil character, if `c` is one.
pub open spec fn sigil_token(c: char) -> Option<TokenModel> {
    if c == '+' {
        Some(TokenModel::Plus)
    } else if c == '-' {
        Some(TokenModel::Hyphen)
    } else if c == ':' {
        Some(TokenModel::Colon)
    } else if c == '$' {
        Some(TokenModel::Dollar)
    } else if c == '*' {
        Some(TokenModel::Asterisk)
    } else if c == '_' {
        Some(TokenModel::Underscore)
    } else if c == '#' {
        Some(TokenModel::PoundSign)
    } else if c == ',' {
        Some(TokenModel::Comma)
    } else if c == '(' {
        Some(TokenModel::LeftParenthesis)
    } else if c == '!' {
        Some(TokenModel::Exclamation)
    } else if c == '=' {
        Some(TokenModel::Equals)
    } else if c == '%' {
        Some(TokenModel::Percentage)
    } else if c == '~' {
        Some(TokenModel::Tilda)
    } else if c == '>' {
        Some(TokenModel::GreaterThan)
    } else {
        None
    }
}

/// The index of the first `\r\n` pair in `s`, if any.
pub open spec fn find_crlf(s: Seq<char>) -> Option<int>
    decreases s.len(),
{
    if s.len() < 2 {
        None
    } else if s[0] == '\r' && s[1] == '\n' {
        Some(0)
    } else {
        match find_crlf(s.skip(1)) {
            Some(j) => Some(j + 1),
            None => None,
        }
    }
}

/// What `find_crlf` finds is the first separator pair.
pub proof fn lemma_find_crlf(s: Seq<char>)
    ensures
        match find_crlf(s) {
            Some(j) => 0 <= j <= s.len() - 2 && s[j] == '\r' && s[j + 1] == '\n' && (forall|i: int|
                0 <= i < j ==> !(#[trigger] s[i] == '\r' && s[i + 1] == '\n')),
            None => forall|i: int|
                0 <= i < s.len() - 1 ==> !(#[trigger] s[i] == '\r' && s[i + 1] == '\n'),
        },
    decreases s.len(),
{
    if s.len() >= 2 && !(s[0] == '\r' && s[1] == '\n') {
        lemma_find_crlf(s.skip(1));
        assert forall|i: int| 1 <= i < s.len() - 1 implies (#[trigger] s[i] == s.skip(1)[i - 1]
            && s[i + 1] == s.skip(1)[i]) by {}
    }
}

/// The token sequence that the scanner produces for input `s`. A raw-string
/// run that reaches the end of the input without a closing `\r\n` is dropped,
/// ending the scan.
pub open spec fn scan(s: Seq<char>) -> Seq<TokenModel>
    decreases s.len(),
{
    if s.len() == 0 {
        Seq::empty()
    } else {
        let c = s[0];
        match sigil_token(c) {
            Some(t) => seq![t] + scan(s.skip(1)),
            None => {
                if is_digit_char(c) {
                    let k = 1 + digit_run(s.skip(1));
                    proof {
                        lemma_digit_run(s.skip(1));
                    }
                    seq![TokenModel::Num(digits_val(s.take(k)))] + scan(s.skip(k))
                } else if c == '\r' {
                    if s.len() >= 2 && s[1] == '\n' {
                        seq![TokenModel::Sep] + scan(s.skip(2))
                    } else {
                        seq![TokenModel::Str(seq!['\r'])] + scan(s.skip(1))
                    }
                } else {
                    match find_crlf(s) {
                        Some(j) => {
                            proof {
                                lemma_find_crlf(s);
                            }
                            seq![TokenModel::Str(s.take(j)), TokenModel::Sep] + scan(s.skip(j + 2))
                        },
                        None => Seq::empty(),
                    }
                }
            },
        }
    }
}

/// Every integer literal in `s` fits in a 64-bit signed integer; exactly
/// then does the executable scanner succeed.
pub open spec fn scan_in_range(s: Seq<char>) -> bool
    decreases s.len(),
{
    if s.len() == 0 {
        true
    } else {
        let c = s[0];
        match sigil_token(c) {
            Some(t) => scan_in_range(s.skip(1)),
            None => {
                if is_digit_char(c) {
                    let k = 1 + digit_run(s.skip(1));
                    proof {
                        lemma_digit_run(s.skip(1));
                    }
                    digits_val(s.take(k)) <= i64::MAX && scan_in_range(s.skip(k))
                } else if c == '\r' {
                    if s.len() >= 2 && s[1] == '\n' {
                        scan_in_range(s.skip(2))
                    } else {
                        scan_in_range(s.skip(1))
                    }
                } else {
                    match find_crlf(s) {
                        Some(j) => {
                            proof {
                                lemma_find_crlf(s);
                            }
                            scan_in_range(s.skip(j + 2))
                        },
                        None => true,
                    }
                }
            },
        }
    }
}

impl Token {
    pub fn is_separator(self: &Token) -> (r: bool)
        ensures
            r == (self@ is Sep),
    {
        matches!(self, Token::Separator)
    }

    pub fn is_string(self: &Token) -> (r: bool)
        ensures
            r == (self@ is Str),
    {
        matches!(self, Token::String(_))
    }

    pub fn is_plus(self: &Token) -> (r: bool)
        ensures
            r == (self@ is Plus),
    {
        matches!(self, Token::Plus)
    }

    pub fn is_dollar(self: &Token) -> (r: bool)
        ensures
            r == (self@ is Dollar),
    {
        matches!(self, Token::Dollar)
    }

    pub fn is_number(self: &Token) -> (r: bool)
        ensures
            r == (self@ is Num),
    {
        matches!(self, Token::Number(_))
    }

    pub fn is_hyphen(self: &Token) -> (r: bool)
        ensures
            r == (self@ is Hyphen),
    {
        matches!(self, Token::Hyphen)
    }

    pub fn is_asterisk(self: &Token) -> (r: bool)
        ensures
            r == (self@ is Asterisk),
    {
        matches!(self, Token::Asterisk)
    }

    /// The text this token stands for, for string and number tokens.
    pub fn to_string(self: &Token) -> (r: Option<String>)
        ensures
            match r {
                Some(s) => token_text(self@) == Some(s@),
                None => token_text(self@) is None,
            },
    {
        match self {
            Token::String(s) => Some(s.clone()),
            Token::Number(n) => Some(crate::numeric::i64_to_dec_string(*n)),
            _ => None,
        }
    }

    /// The integer carried by a number token.
    pub fn to_i64(self: &Token) -> (r: Option<i64>)
        ensures
            match r {
                Some(n) => self@ == TokenModel::Num(n as int),
                None => !(self@ is Num),
            },
    {
        match self {
            Token::Number(n) => Some(*n),
            _ => None,
        }
    }

    /// The integer carried by a number token, as a size; `None` when the
    /// token is not a number or its value does not fit.
    pub fn to_usize(self: &Token) -> (r: Option<usize>)
        ensures
            match r {
                Some(u) => self@ == TokenModel::Num(u as int),
                None => match self@ {
                    TokenModel::Num(n) => n < 0 || n > usize::MAX,
                    _ => true,
                },
            },
    {
        match self {
            Token::Number(n) => {
                if *n < 0 {
                    None
                } else if (*n as u64) <= (usize::MAX as u64) {
                    Some(*n as usize)
                } else {
                    None
                }
            },
            _ => None,
        }
    }
}

/// The wire text of a single token: sigils and the separator render as
/// their fixed characters, a string as its content, a number in decimal.
pub open spec fn render_token(t: TokenModel) -> Seq<char> {
    match t {
        TokenModel::Plus => seq!['+'],
        TokenModel::Hyphen => seq!['-'],
        TokenModel::Colon => seq![':'],
        TokenModel::Dollar => seq!['$'],
        TokenModel::Asterisk => seq!['*'],
        TokenModel::Underscore => seq!['_'],
        TokenModel::PoundSign => seq!['#'],
        TokenModel::Comma => seq![','],
        TokenModel::LeftParenthesis => seq!['('],
        TokenModel::Exclamation => seq!['!'],
        TokenModel::Equals => seq!['='],
        TokenModel::Percentage => seq!['%'],
        TokenModel::Tilda => seq!['~'],
        TokenModel::GreaterThan => seq!['>'],
        TokenModel::Str(s) => s,
        TokenModel::Num(n) => dec_int_chars(n),
        TokenModel::Sep => seq!['\r', '\n'],
    }
}

/// The wire text of a token sequence.
pub open spec fn wire_of(ts: Seq<TokenModel>) -> Seq<char>
    decreases ts.len(),
{
    if ts.len() == 0 {
        Seq::empty()
    } else {
        render_token(ts[0]) + wire_of(ts.skip(1))
    }
}

/// Wire text distributes over concatenation of token sequences.
pub proof fn lemma_wire_of_append(a: Seq<TokenModel>, b: Seq<TokenModel>)
    ensures
        wire_of(a + b) == wire_of(a) + wire_of(b),
    decreases a.len(),
{
    if a.len() == 0 {
        assert(a + b =~= b);
        assert(wire_of(a) + wire_of(b) =~= wire_of(b));
    } else {
        assert((a + b).skip(1) =~= a.skip(1) + b);
        lemma_wire_of_append(a.skip(1), b);
        assert(render_token(a[0]) + (wire_of(a.skip(1)) + wire_of(b)) =~= (render_token(a[0])
            + wire_of(a.skip(1))) + wire_of(b));
    }
}

/// The wire text of a single token, as runnable code.
pub(crate) fn render_token_string(t: &Token) -> (r: String)
    ensures
        r@ == render_token(t@),
{
    match t {
        Token::Plus => {
            proof {
                reveal_strlit("+");
            }
            let s = String::from_str("+");
            proof {
                assert(s@ =~= seq!['+']);
            }
            s
        },
        Token::Hyphen => {
            proof {
                reveal_strlit("-");
            }
            let s = String::from_str("-");
            proof {
                assert(s@ =~= seq!['-']);
            }
            s
        },
        Token::Colon => {
            proof {
                reveal_strlit(":");
            }
            let s = String::from_str(":");
            proof {
                assert(s@ =~= seq![':']);
            }
            s
        },
        Token::Dollar => {
            proof {
                reveal_strlit("$");
            }
            let s = String::from_str("$");
            proof {
                assert(s@ =~= seq!['$']);
            }
            s
        },
        Token::Asterisk => {
            proof {
                reveal_strlit("*");
            }
            let s = String::from_str("*");
            proof {
                assert(s@ =~= seq!['*']);
            }
            s
        },
        Token::Underscore => {
            proof {
                reveal_strlit("_");
            }
            let s = String::from_str("_");
            proof {
                assert(s@ =~= seq!['_']);
            }
            s
        },
        Token::PoundSign => {
            proof {
                reveal_strlit("#");
            }
            let s = String::from_str("#");
            proof {
                assert(s@ =~= seq!['#']);
            }
            s
        },
        Token::Comma => {
            proof {
                reveal_strlit(",");
            }
            let s = String::from_str(",");
            proof {
                assert(s@ =~= seq![',']);
            }
            s
        },
        Token::LeftParenthesis => {
            proof {
                reveal_strlit("(");
            }
            let s = String::from_str("(");
            proof {
                assert(s@ =~= seq!['(']);
            }
            s
        },
        Token::Exclamation => {
            proof {
                reveal_strlit("!");
            }
            let s = String::from_str("!");
            proof {
                assert(s@ =~= seq!['!']);
            }
            s
        },
        Token::Equals => {
            proof {
                reveal_strlit("=");
            }
            let s = String::from_str("=");
            proof {
                assert(s@ =~= seq!['=']);
            }
            s
        },
        Token::Percentage => {
            proof {
                reveal_strlit("%");
            }
            let s = String::from_str("%");
            proof {
                assert(s@ =~= seq!['%']);
            }
            s
        },
        Token::Tilda => {
            proof {
                reveal_strlit("~");
            }
            let s = String::from_str("~");
            proof {
                assert(s@ =~= seq!['~']);
            }
            s
        },
        Token::GreaterThan => {
            proof {
                reveal_strlit(">");
            }
            let s = String::from_str(">");
            proof {
                assert(s@ =~= seq!['>']);
            }
            s
        },
        Token::String(content) => content.clone(),
        Token::Number(n) => crate::numeric::i64_to_dec_string(*n),
        Token::Separator => {
            proof {
                reveal_strlit("\r\n");
            }
            let s = String::from_str("\r\n");
            proof {
                assert(s@ =~= seq!['\r', '\n']);
            }
            s
        },
    }
}

/// Why serializing can fail: there were no tokens to serialize.
#[derive(Debug, PartialEq, Eq, Structural)]
pub enum SerializeError {
    EmptyTokens,
}

/// Renders a token sequence as wire text. An empty sequence is refused.
pub fn serialize_tokens(tokens: &Vec<Token>) -> (r: Result<String, SerializeError>)
    ensures
        r is Ok <==> tokens@.len() > 0,
        (r matches Ok(s) ==> s@ == wire_of(tokens_view(tokens@))),
{
    if tokens.len() < 1 {
        return Err(SerializeError::EmptyTokens);
    }
    let mut out = String::new();
    let mut idx: usize = 0;
    proof {
        assert(tokens_view(tokens@.take(0)) =~= Seq::<TokenModel>::empty());
    }
    while idx < tokens.len()
        invariant
            idx <= tokens@.len(),
            out@ == wire_of(tokens_view(tokens@.take(idx as int))),
        decreases tokens@.len() - idx,
    {
        let piece = render_token_string(&tokens[idx]);
        out.append(piece.as_str());
        proof {
            let tv = tokens_view(tokens@.take(idx as int));
            let t = tokens@[idx as int]@;
            assert(tokens_view(tokens@.take(idx + 1)) =~= tv + seq![t]);
            lemma_wire_of_append(tv, seq![t]);
            assert(seq![t].skip(1) =~= Seq::<TokenModel>::empty());
            assert(wire_of(Seq::<TokenModel>::empty()) == Seq::<char>::empty());
            assert(wire_of(seq![t]) =~= render_token(t));
        }
        idx = idx + 1;
    }
    proof {
        assert(tokens@.take(tokens@.len() as int) =~= tokens@);
    }
    Ok(out)
}

/// A separator pair found inside `u` is still the first one after more
/// input is appended.
proof fn lemma_find_crlf_append(u: Seq<char>, rest: Seq<char>)
    requires
        find_crlf(u) is Some,
    ensures
        find_crlf(u + rest) == find_crlf(u),
    decreases u.len(),
{
    if u.len() >= 2 {
        if u[0] == '\r' && u[1] == '\n' {
            assert((u + rest)[0] == '\r' && (u + rest)[1] == '\n');
        } else {
            assert((u + rest)[0] == u[0] && (u + rest)[1] == u[1]);
            lemma_find_crlf_append(u.skip(1), rest);
            assert((u + rest).skip(1) =~= u.skip(1) + rest);
        }
    }
}

/// A digit run that ends inside `u` is unchanged by appending more input.
proof fn lemma_digit_run_append(u: Seq<char>, rest: Seq<char>)
    requires
        digit_run(u) < u.len(),
    ensures
        digit_run(u + rest) == digit_run(u),
{
    lemma_digit_run(u);
    let r = digit_run(u);
    assert(all_digits((u + rest).take(r))) by {
        assert((u + rest).take(r) =~= u.take(r));
    }
    assert((u + rest)[r] == u[r]);
    lemma_digit_run_is(u + rest, r);
}

/// Scanning is compositional at separator boundaries: a prefix that ends
/// with `\r\n` scans on its own, whatever follows.
pub proof fn lemma_scan_append(f: Seq<char>, rest: Seq<char>)
    requires
        f.len() >= 2,
        f[f.len() - 2] == '\r',
        f[f.len() - 1] == '\n',
    ensures
        scan(f + rest) == scan(f) + scan(rest),
        scan_in_range(f + rest) == (scan_in_range(f) && scan_in_range(rest)),
    decreases f.len(),
{
    let w = f + rest;
    assert(w[0] == f[0]);
    assert(w.len() == f.len() + rest.len());
    match sigil_token(f[0]) {
        Some(t) => {
            assert(f[0] != '\r');
            assert(f.len() >= 3);
            assert(w.skip(1) =~= f.skip(1) + rest);
            assert(f.skip(1)[f.skip(1).len() - 2] == f[f.len() - 2]);
            assert(f.skip(1)[f.skip(1).len() - 1] == f[f.len() - 1]);
            lemma_scan_append(f.skip(1), rest);
            assert(seq![t] + (scan(f.skip(1)) + scan(rest)) =~= (seq![t] + scan(f.skip(1)))
                + scan(rest));
            assert(scan_in_range(f) == scan_in_range(f.skip(1)));
            assert(scan_in_range(w) == scan_in_range(w.skip(1)));
        },
        None => {
            if is_digit_char(f[0]) {
                lemma_digit_run(f.skip(1));
                let r = digit_run(f.skip(1));
                let k = 1 + r;
                assert(r < f.skip(1).len()) by {
                    if r == f.skip(1).len() {
                        assert(is_digit_char(f.skip(1).take(r)[r - 1]));
                        assert(f.skip(1).take(r)[r - 1] == f[f.len() - 1]);
                        assert(!is_digit_char('\n'));
                    }
                }
                assert(k <= f.len() - 2) by {
                    assert(!is_digit_char(f.skip(1)[r]));
                    if k == f.len() - 1 {
                        assert(f.skip(1)[r] == f[f.len() - 1]);
                        assert(!is_digit_char('\n'));
                        assert(is_digit_char(f.take(k)[k - 1])) by {
                            lemma_digit_run(f);
                            lemma_digit_run_is(f.skip(1), r);
                        }
                        assert(f.take(k)[k - 1] == f[f.len() - 2]);
                        assert(!is_digit_char('\r'));
                        assert(false);
                    }
                    if k > f.len() - 1 {
                        assert(r >= f.skip(1).len());
                        assert(false);
                    }
                }
                lemma_digit_run_append(f.skip(1), rest);
                assert(w.skip(1) =~= f.skip(1) + rest);
                assert(digit_run(w.skip(1)) == r);
                assert(w.take(k) =~= f.take(k));
                assert(w.skip(k) =~= f.skip(k) + rest);
                assert(f.skip(k)[f.skip(k).len() - 2] == f[f.len() - 2]);
                assert(f.skip(k)[f.skip(k).len() - 1] == f[f.len() - 1]);
                lemma_scan_append(f.skip(k), rest);
                let tok = seq![TokenModel::Num(digits_val(f.take(k)))];
                assert(tok + (scan(f.skip(k)) + scan(rest)) =~= (tok + scan(f.skip(k))) + scan(
                    rest,
                ));
                assert(scan_in_range(f) == (digits_val(f.take(k)) <= i64::MAX && scan_in_range(
                    f.skip(k),
                )));
                assert(scan_in_range(w) == (digits_val(w.take(k)) <= i64::MAX && scan_in_range(
                    w.skip(k),
                )));
            } else if f[0] == '\r' {
                if f.len() == 2 {
                    assert(f[1] == '\n');
                    assert(w.len() >= 2 && w[1] == '\n');
                    assert(w.skip(2) =~= rest);
                    assert(f.skip(2) =~= Seq::<char>::empty());
                    assert(scan(Seq::<char>::empty()) == Seq::<TokenModel>::empty());
                    assert(scan(f) =~= seq![TokenModel::Sep]);
                    assert(seq![TokenModel::Sep] + scan(rest) =~= scan(f) + scan(rest));
                    assert(scan_in_range(Seq::<char>::empty()));
                    assert(scan_in_range(f) == scan_in_range(f.skip(2)));
                    assert(scan_in_range(w) == scan_in_range(w.skip(2)));
                } else {
                    assert(f.len() >= 3);
                    if f[1] == '\n' {
                        assert(f.len() >= 4) by {
                            if f.len() == 3 {
                                assert(f[f.len() - 2] == f[1]);
                            }
                        }
                        assert(w.len() >= 2 && w[1] == f[1]);
                        assert(w.skip(2) =~= f.skip(2) + rest);
                        assert(f.skip(2)[f.skip(2).len() - 2] == f[f.len() - 2]);
                        assert(f.skip(2)[f.skip(2).len() - 1] == f[f.len() - 1]);
                        lemma_scan_append(f.skip(2), rest);
                        assert(seq![TokenModel::Sep] + (scan(f.skip(2)) + scan(rest)) =~= (seq![
                            TokenModel::Sep,
                        ] + scan(f.skip(2))) + scan(rest));
                        assert(scan_in_range(f) == scan_in_range(f.skip(2)));
                        assert(scan_in_range(w) == scan_in_range(w.skip(2)));
                    } else {
                        assert(w.len() >= 2 && w[1] == f[1]);
                        assert(w.skip(1) =~= f.skip(1) + rest);
                        assert(f.skip(1)[f.skip(1).len() - 2] == f[f.len() - 2]);
                        assert(f.skip(1)[f.skip(1).len() - 1] == f[f.len() - 1]);
                        lemma_scan_append(f.skip(1), rest);
                        let tok = seq![TokenModel::Str(seq!['\r'])];
                        assert(tok + (scan(f.skip(1)) + scan(rest)) =~= (tok + scan(f.skip(1)))
                            + scan(rest));
                        assert(scan_in_range(f) == scan_in_range(f.skip(1)));
                        assert(scan_in_range(w) == scan_in_range(w.skip(1)));
                    }
                }
            } else {
                lemma_find_crlf(f);
                let j = match find_crlf(f) {
                    Some(j) => j,
                    None => {
                        assert(f[f.len() - 2] == '\r' && f[f.len() - 1] == '\n');
                        assert(false);
                        0int
                    },
                };
                lemma_find_crlf_append(f, rest);
                assert(find_crlf(w) == Some(j));
                assert(w.take(j) =~= f.take(j));
                lemma_find_crlf(w);
                if j == f.len() - 2 {
                    assert(w.skip(j + 2) =~= rest);
                    assert(f.skip(j + 2) =~= Seq::<char>::empty());
                    assert(scan(Seq::<char>::empty()) == Seq::<TokenModel>::empty());
                    let toks = seq![TokenModel::Str(f.take(j)), TokenModel::Sep];
                    assert(scan(f) =~= toks);
                    assert(toks + scan(rest) =~= scan(f) + scan(rest));
                    assert(scan_in_range(Seq::<char>::empty()));
                    assert(scan_in_range(f) == scan_in_range(f.skip(j + 2)));
                    assert(scan_in_range(w) == scan_in_range(w.skip(j + 2)));
                } else {
                    assert(j <= f.len() - 4) by {
                        if j == f.len() - 3 {
                            assert(f[j + 1] == f[f.len() - 2]);
                        }
                    }
                    assert(w.skip(j + 2) =~= f.skip(j + 2) + rest);
                    assert(f.skip(j + 2)[f.skip(j + 2).len() - 2] == f[f.len() - 2]);
                    assert(f.skip(j + 2)[f.skip(j + 2).len() - 1] == f[f.len() - 1]);
                    lemma_scan_append(f.skip(j + 2), rest);
                    let toks = seq![TokenModel::Str(f.take(j)), TokenModel::Sep];
                    assert(toks + (scan(f.skip(j + 2)) + scan(rest)) =~= (toks + scan(
                        f.skip(j + 2),
                    )) + scan(rest));
                    assert(scan_in_range(f) == scan_in_range(f.skip(j + 2)));
                    assert(scan_in_range(w) == scan_in_range(w.skip(j + 2)));
                }
            }
        },
    }
}

/// The decimal digits of `n` followed by anything that does not begin
/// with a digit scan as the single number token `n`.
pub proof fn lemma_scan_number(n: int, w: Seq<char>)
    requires
        n >= 0,
        w.len() > 0,
        !is_digit_char(w[0]),
    ensures
        scan(dec_nat_chars(n) + w) == seq![TokenModel::Num(n)] + scan(w),
        scan_in_range(dec_nat_chars(n) + w) == (n <= i64::MAX && scan_in_range(w)),
{
    crate::numeric::lemma_dec_nat_chars(n);
    let d = dec_nat_chars(n);
    let s = d + w;
    assert(s[0] == d[0]);
    assert(is_digit_char(s[0])) by {
        assert(d.take(d.len() as int) =~= d);
        assert(d[0] == d.take(d.len() as int)[0]);
    }
    assert(sigil_token(s[0]) is None);
    assert(all_digits(s.skip(1).take(d.len() - 1))) by {
        assert forall|m: int| 0 <= m < d.len() - 1 implies is_digit_char(
            #[trigger] s.skip(1).take(d.len() - 1)[m],
        ) by {
            assert(s.skip(1).take(d.len() - 1)[m] == d[m + 1]);
            assert(d.take(d.len() as int) =~= d);
        }
    }
    assert(s.skip(1)[d.len() - 1] == w[0]);
    lemma_digit_run_is(s.skip(1), d.len() - 1);
    let k = 1 + digit_run(s.skip(1));
    assert(k == d.len());
    assert(s.take(k) =~= d);
    assert(s.skip(k) =~= w);
    assert(seq![TokenModel::Num(n)] + scan(w) =~= seq![TokenModel::Num(digits_val(s.take(k)))]
        + scan(s.skip(k)));
}

/// Why scanning can fail: the input held an integer literal too large for
/// a 64-bit signed integer.
#[derive(Debug, PartialEq, Eq, Structural)]
pub enum LexError {
    NumberTooLarge,
}

/// Is the character at index `j` a decimal digit?
fn char_is_digit(s: &str, j: usize) -> (r: bool)
    requires
        j < s@.len(),
    ensures
        r == is_digit_char(s@[j as int]),
{
    let d = s.get_char(j);
    d >= '0' && d <= '9'
}

/// Scans protocol text into tokens: sigils map to their fixed token, digit
/// runs to integer literals, `\r\n` to a separator, and anything else opens
/// a raw-string run that ends at the next `\r\n`.
#[verifier::rlimit(100)]
pub fn parse_resp_tokens_from_str(input: &str) -> (r: Result<Vec<Token>, LexError>)
    ensures
        r is Ok <==> scan_in_range(input@),
        (r matches Ok(ts) ==> tokens_view(ts@) == scan(input@)),
{
    let ghost s = input@;
    let n = input.unicode_len();
    let mut toks: Vec<Token> = Vec::new();
    let mut i: usize = 0;
    proof {
        assert(s.skip(0) =~= s);
        assert(tokens_view(toks@) =~= Seq::<TokenModel>::empty());
        assert(Seq::<TokenModel>::empty() + scan(s) =~= scan(s));
    }
    while i < n
        invariant
            s == input@,
            n == s.len(),
            0 <= i <= n,
            scan(s) == tokens_view(toks@) + scan(s.skip(i as int)),
            scan_in_range(s) == scan_in_range(s.skip(i as int)),
        decreases n - i,
    {
        let ghost rest = s.skip(i as int);
        let ghost toks_before = toks@;
        let c = input.get_char(i);
        proof {
            assert(rest[0] == c);
            assert(rest.len() == n - i);
        }
        let sig: Option<Token> = match c {
            '+' => Some(Token::Plus),
            '-' => Some(Token::Hyphen),
            ':' => Some(Token::Colon),
            '$' => Some(Token::Dollar),
            '*' => Some(Token::Asterisk),
            '_' => Some(Token::Underscore),
            '#' => Some(Token::PoundSign),
            ',' => Some(Token::Comma),
            '(' => Some(Token::LeftParenthesis),
            '!' => Some(Token::Exclamation),
            '=' => Some(Token::Equals),
            '%' => Some(Token::Percentage),
            '~' => Some(Token::Tilda),
            '>' => Some(Token::GreaterThan),
            _ => None,
        };
        if let Some(t) = sig {
            proof {
                assert(sigil_token(c) == Some(t@));
            }
            toks.push(t);
            i = i + 1;
            proof {
                assert(scan(rest) == seq![t@] + scan(rest.skip(1)));
                assert(rest.skip(1) =~= s.skip(i as int));
                assert(tokens_view(toks@) =~= tokens_view(toks_before) + seq![t@]);
                assert((tokens_view(toks_before) + seq![t@]) + scan(s.skip(i as int)) =~= tokens_view(
                    toks_before,
                ) + (seq![t@] + scan(s.skip(i as int))));
            }
        } else if c >= '0' && c <= '9' {
            proof {
                assert(is_digit_char(c));
                assert(sigil_token(c) is None);
            }
            let ghost k = 1 + digit_run(rest.skip(1));
            proof {
                lemma_digit_run(rest.skip(1));
                assert(all_digits(rest.take(k))) by {
                    assert forall|m: int| 0 <= m < k implies is_digit_char(
                        #[trigger] rest.take(k)[m],
                    ) by {
                        if m > 0 {
                            assert(rest.take(k)[m] == rest.skip(1).take(k - 1)[m - 1]);
                        }
                    }
                }
            }
            let mut val: i64 = (c as u32 as i64) - 48;
            let mut j: usize = i + 1;
            let mut too_large: bool = false;
            proof {
                assert(s.subrange(i as int, j as int) =~= rest.take(1));
                assert(rest.take(1).drop_last() =~= Seq::<char>::empty());
                assert(digits_val(Seq::<char>::empty()) == 0);
                assert(rest.take(1).last() == c);
                assert(digit_val(c) == (c as u32) - 48);
                assert(val == digits_val(s.subrange(i as int, j as int)));
            }
            while j < n && !too_large && char_is_digit(input, j)
                invariant
                    s == input@,
                    n == s.len(),
                    i < j <= n,
                    rest == s.skip(i as int),
                    k == 1 + digit_run(rest.skip(1)),
                    0 <= k <= rest.len(),
                    all_digits(rest.take(k)),
                    k < rest.len() ==> !is_digit_char(rest[k]),
                    all_digits(s.subrange(i as int, j as int)),
                    j - i <= k,
                    !too_large ==> val == digits_val(s.subrange(i as int, j as int)),
                    !too_large ==> 0 <= val <= i64::MAX,
                    too_large ==> digits_val(rest.take(k)) > i64::MAX,
                decreases n - j + (if too_large { 0int } else { 1int }),
            {
                let d = input.get_char(j);
                let dv: i64 = (d as u32 as i64) - 48;
                proof {
                    assert(d == rest[j - i]);
                    assert(is_digit_char(d));
                    assert(digit_val(d) == dv);
                    assert(all_digits(s.subrange(i as int, j + 1 as int))) by {
                        assert forall|m: int| 0 <= m < j + 1 - i implies is_digit_char(
                            #[trigger] s.subrange(i as int, j + 1 as int)[m],
                        ) by {
                            if m < j - i {
                                assert(s.subrange(i as int, j + 1 as int)[m] == s.subrange(
                                    i as int,
                                    j as int,
                                )[m]);
                            }
                        }
                    }
                    assert(j + 1 - i <= k) by {
                        assert(all_digits(rest.take(j + 1 - i))) by {
                            assert forall|m: int| 0 <= m < j + 1 - i implies is_digit_char(
                                #[trigger] rest.take(j + 1 - i)[m],
                            ) by {
                                assert(rest.take(j + 1 - i)[m] == s.subrange(
                                    i as int,
                                    j + 1 as int,
                                )[m]);
                            }
                        }
                        lemma_digit_run_at_least(rest.skip(1), j - i);
                        if j + 1 - i > k {
                            assert(!is_digit_char(rest[k]));
                            assert(rest[k] == rest.take(j + 1 - i)[k]);
                        }
                    }
                    assert(digits_val(s.subrange(i as int, j + 1 as int)) == digits_val(
                        s.subrange(i as int, j as int),
                    ) * 10 + dv) by {
                        let w = s.subrange(i as int, j + 1 as int);
                        assert(w.drop_last() =~= s.subrange(i as int, j as int));
                        assert(w.last() == d);
                    }
                }
                if val > (i64::MAX - dv) / 10 {
                    too_large = true;
                    proof {
                        let prefix = s.subrange(i as int, j + 1 as int);
                        assert(digits_val(prefix) > i64::MAX) by {
                            vstd::arithmetic::div_mod::lemma_fundamental_div_mod(
                                i64::MAX - dv,
                                10,
                            );
                            vstd::arithmetic::div_mod::lemma_mod_bound((i64::MAX - dv) as int, 10);
                            assert(val * 10 + dv > i64::MAX) by (nonlinear_arith)
                                requires
                                    val > (i64::MAX - dv) / 10,
                                    i64::MAX - dv == 10 * ((i64::MAX - dv) / 10) + (i64::MAX
                                        - dv) % 10,
                                    0 <= (i64::MAX - dv) % 10 < 10,
                            ;
                        }
                        assert(digits_val(rest.take(k)) > i64::MAX) by {
                            assert(prefix =~= rest.take(k).take(j + 1 - i));
                            lemma_digits_val_prefix_le(rest.take(k), j + 1 - i);
                        }
                    }
                } else {
                    val = val * 10 + dv;
                    j = j + 1;
                }
            }
            if too_large {
                proof {
                    assert(!scan_in_range(rest));
                }
                return Err(LexError::NumberTooLarge);
            }
            proof {
                assert(j - i == k) by {
                    assert(all_digits(rest.skip(1).take(j - i - 1))) by {
                        assert forall|m: int| 0 <= m < j - i - 1 implies is_digit_char(
                            #[trigger] rest.skip(1).take(j - i - 1)[m],
                        ) by {
                            assert(rest.skip(1).take(j - i - 1)[m] == s.subrange(
                                i as int,
                                j as int,
                            )[m + 1]);
                        }
                    }
                    if j < n {
                        assert(rest.skip(1)[j - i - 1] == s[j as int]);
                        assert(!is_digit_char(s[j as int]));
                    }
                    lemma_digit_run_is(rest.skip(1), j - i - 1);
                }
                assert(rest.take(k) =~= s.subrange(i as int, j as int));
                assert(val == digits_val(rest.take(k)));
            }
            toks.push(Token::Number(val));
            proof {
                assert(scan(rest) == seq![TokenModel::Num(digits_val(rest.take(k)))] + scan(
                    rest.skip(k),
                ));
                assert(rest.skip(k) =~= s.skip(j as int));
                assert(tokens_view(toks@) =~= tokens_view(toks_before) + seq![
                    TokenModel::Num(val as int),
                ]);
                assert((tokens_view(toks_before) + seq![TokenModel::Num(val as int)]) + scan(
                    s.skip(j as int),
                ) =~= tokens_view(toks_before) + (seq![TokenModel::Num(val as int)] + scan(
                    s.skip(j as int),
                )));
            }
            i = j;
        } else if c == '\r' {
            if i + 1 < n && input.get_char(i + 1) == '\n' {
                toks.push(Token::Separator);
                i = i + 2;
                proof {
                    assert(rest[1] == '\n');
                    assert(scan(rest) == seq![TokenModel::Sep] + scan(rest.skip(2)));
                    assert(rest.skip(2) =~= s.skip(i as int));
                    assert(tokens_view(toks@) =~= tokens_view(toks_before) + seq![TokenModel::Sep]);
                    assert((tokens_view(toks_before) + seq![TokenModel::Sep]) + scan(
                        s.skip(i as int),
                    ) =~= tokens_view(toks_before) + (seq![TokenModel::Sep] + scan(
                        s.skip(i as int),
                    )));
                }
            } else {
                proof {
                    reveal_strlit("\r");
                    if rest.len() >= 2 {
                        assert(rest[1] == s[i + 1]);
                    }
                }
                toks.push(Token::String(String::from_str("\r")));
                i = i + 1;
                proof {
                    assert("\r"@ =~= seq!['\r']);
                    assert(scan(rest) == seq![TokenModel::Str(seq!['\r'])] + scan(rest.skip(1)));
                    assert(rest.skip(1) =~= s.skip(i as int));
                    assert(tokens_view(toks@) =~= tokens_view(toks_before) + seq![
                        TokenModel::Str(seq!['\r']),
                    ]);
                    assert((tokens_view(toks_before) + seq![TokenModel::Str(seq!['\r'])]) + scan(
                        s.skip(i as int),
                    ) =~= tokens_view(toks_before) + (seq![TokenModel::Str(seq!['\r'])] + scan(
                        s.skip(i as int),
                    )));
                }
            }
        } else {
            // a raw-string run: everything up to the next \r\n pair
            let mut j: usize = i;
            let mut found: bool = false;
            while j < n - 1 && !found
                invariant
                    s == input@,
                    n == s.len(),
                    1 <= n,
                    i <= j <= n,
                    !found ==> forall|m: int|
                        i <= m < j ==> !(#[trigger] s[m] == '\r' && s[m + 1] == '\n'),
                    found ==> j + 1 < n && s[j as int] == '\r' && s[j + 1] == '\n' && (forall|
                        m: int,
                    |
                        i <= m < j ==> !(#[trigger] s[m] == '\r' && s[m + 1] == '\n')),
                decreases n - j + (if found { 0int } else { 1int }),
            {
                if input.get_char(j) == '\r' && input.get_char(j + 1) == '\n' {
                    found = true;
                } else {
                    j = j + 1;
                }
            }
            proof {
                lemma_find_crlf(rest);
            }
            if found {
                proof {
                    assert(find_crlf(rest) == Some(j - i)) by {
                        assert(rest[j - i] == '\r' && rest[j - i + 1] == '\n');
                        match find_crlf(rest) {
                            Some(p) => {
                                assert(rest[p] == s[i + p] && rest[p + 1] == s[i + p + 1]);
                                if p < j - i {
                                    assert(s[i + p] == '\r' && s[i + p + 1] == '\n');
                                    assert(false);
                                }
                                if p > j - i {
                                    assert(!(rest[(j - i) as int] == '\r' && rest[(j - i) + 1]
                                        == '\n'));
                                    assert(false);
                                }
                            },
                            None => {
                                assert(!(rest[(j - i) as int] == '\r' && rest[(j - i) + 1]
                                    == '\n'));
                                assert(false);
                            },
                        }
                    }
                }
                let run = input.substring_char(i, j);
                toks.push(Token::String(run.to_owned()));
                toks.push(Token::Separator);
                proof {
                    assert(run@ =~= rest.take(j - i));
                    assert(scan(rest) == seq![TokenModel::Str(rest.take(j - i)), TokenModel::Sep]
                        + scan(rest.skip(j - i + 2)));
                    assert(rest.skip(j - i + 2) =~= s.skip(j + 2));
                    assert(tokens_view(toks@) =~= tokens_view(toks_before) + seq![
                        TokenModel::Str(run@),
                        TokenModel::Sep,
                    ]);
                    assert((tokens_view(toks_before) + seq![
                        TokenModel::Str(run@),
                        TokenModel::Sep,
                    ]) + scan(s.skip(j + 2)) =~= tokens_view(toks_before) + (seq![
                        TokenModel::Str(run@),
                        TokenModel::Sep,
                    ] + scan(s.skip(j + 2))));
                }
                i = j + 2;
            } else {
                // no closing separator: the run is absorbed and dropped
                proof {
                    assert(find_crlf(rest) is None) by {
                        match find_crlf(rest) {
                            Some(p) => {
                                assert(rest[p] == s[i + p] && rest[p + 1] == s[i + p + 1]);
                                assert(false);
                            },
                            None => {},
                        }
                    }
                    assert(scan(rest) =~= Seq::<TokenModel>::empty());
                    assert(tokens_view(toks@) + Seq::<TokenModel>::empty() =~= tokens_view(
                        toks@,
                    ));
                }
                return Ok(toks);
            }
        }
    }
    proof {
        assert(s.skip(n as int) =~= Seq::<char>::empty());
        assert(tokens_view(toks@) + Seq::<TokenModel>::empty() =~= tokens_view(toks@));
    }
    Ok(toks)
}

} // verus!
