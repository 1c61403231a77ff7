//! The value parser: reconstructs a typed protocol value tree from a token
//! sequence, and serializes a value tree back into tokens. The grammar is
//! the RESP subset this server speaks: simple strings, bulk strings,
//! arrays and the null bulk string.

use vstd::prelude::*;

use crate::numeric::dec_int_chars;
use crate::tokenizer::byte_len;
use crate::tokenizer::str_byte_len;
use crate::tokenizer::token_text;
use crate::tokenizer::tokens_view;
use crate::tokenizer::render_token;
use crate::tokenizer::Token;
use crate::tokenizer::TokenModel;

verus! {

broadcast use vstd::std_specs::vec::group_vec_axioms;

/// A typed protocol value.
#[derive(Debug)]
pub enum ParserValue {
    SimpleString(String),
    BulkString(String),
    Array(Vec<ParserValue>),
    NullBulkString,
}

/// The mathematical model of a protocol value.
pub enum ValueModel {
    SimpleString(Seq<char>),
    BulkString(Seq<char>),
    Array(Seq<ValueModel>),
    NullBulkString,
}

/// The model of a value.
pub open spec fn value_model(v: ParserValue) -> ValueModel
    decreases v,
{
    match v {
        ParserValue::SimpleString(s) => ValueModel::SimpleString(s@),
        ParserValue::BulkString(s) => ValueModel::BulkString(s@),
        ParserValue::Array(items) => ValueModel::Array(values_view(items@)),
        ParserValue::NullBulkString => ValueModel::NullBulkString,
    }
}

/// The models of a sequence of values.
pub open spec fn values_view(vs: Seq<ParserValue>) -> Seq<ValueModel>
    decreases vs,
{
    if vs.len() == 0 {
        Seq::empty()
    } else {
        seq![value_model(vs[0])] + values_view(vs.skip(1))
    }
}

impl View for ParserValue {
    type V = ValueModel;

    open spec fn view(&self) -> ValueModel {
        value_model(*self)
    }
}

/// `values_view` maps each element to its model, in place.
pub proof fn lemma_values_view(vs: Seq<ParserValue>)
    ensures
        values_view(vs).len() == vs.len(),
        forall|i: int| 0 <= i < vs.len() ==> values_view(vs)[i] == #[trigger] vs[i]@,
    decreases vs.len(),
{
    if vs.len() > 0 {
        lemma_values_view(vs.skip(1));
        assert forall|i: int| 0 <= i < vs.len() implies values_view(vs)[i] == #[trigger] vs[i]@ by {
            if i > 0 {
                assert(vs.skip(1)[i - 1] == vs[i]);
            }
        }
    }
}

/// The text carried by a string-typed value.
pub open spec fn value_text(v: ValueModel) -> Option<Seq<char>> {
    match v {
        ValueModel::SimpleString(s) => Some(s),
        ValueModel::BulkString(s) => Some(s),
        _ => None,
    }
}

/// Every length in the value fits a 64-bit signed integer, so that length
/// tokens can carry it: the byte length of a bulk payload, the element
/// count of an array. Every value a machine can hold satisfies this; the
/// bound is needed because lengths are written as `i64` number tokens.
pub open spec fn value_fits(v: ValueModel) -> bool
    decreases v,
{
    match v {
        ValueModel::SimpleString(_) => true,
        ValueModel::BulkString(s) => byte_len(s) <= i64::MAX,
        ValueModel::Array(es) => es.len() <= i64::MAX && (forall|i: int|
            0 <= i < es.len() ==> value_fits(#[trigger] es[i])),
        ValueModel::NullBulkString => true,
    }
}

/// The token sequence that serializes a single value.
pub open spec fn val_tokens(v: ValueModel) -> Seq<TokenModel>
    decreases v,
{
    match v {
        ValueModel::SimpleString(s) => seq![
            TokenModel::Plus,
            TokenModel::Str(s),
            TokenModel::Sep,
        ],
        ValueModel::BulkString(s) => seq![
            TokenModel::Dollar,
            TokenModel::Num(byte_len(s)),
            TokenModel::Sep,
            TokenModel::Str(s),
            TokenModel::Sep,
        ],
        ValueModel::Array(es) => seq![
            TokenModel::Asterisk,
            TokenModel::Num(es.len() as int),
            TokenModel::Sep,
        ] + vals_tokens(es),
        ValueModel::NullBulkString => seq![
            TokenModel::Dollar,
            TokenModel::Num(-1),
            TokenModel::Sep,
        ],
    }
}

/// The token sequences of a sequence of values, concatenated.
pub open spec fn vals_tokens(es: Seq<ValueModel>) -> Seq<TokenModel>
    decreases es,
{
    if es.len() == 0 {
        Seq::empty()
    } else {
        val_tokens(es[0]) + vals_tokens(es.skip(1))
    }
}

/// Why a parse fails. Mirrors the grammar: which shape check on the token
/// sequence was violated.
#[derive(Debug, Clone, Copy, PartialEq, Eq, Structural)]
pub enum ParseError {
    /// The first token of a simple string was not `+`.
    ExpectedPlus,
    /// The first token of a bulk string was not `$`.
    ExpectedDollar,
    /// The first token of an array was not `*`.
    ExpectedAsterisk,
    /// A length or count position held something other than a number.
    ExpectedNumber,
    /// A separator position held something else.
    ExpectedSeparator,
    /// A token that only a string or number token may fill.
    ExpectedText,
    /// The token sequence ended too early.
    MissingToken,
    /// A bulk string declared a length no buffer can hold.
    BadLength,
    /// A bulk string's declared length differs from its payload's byte
    /// length.
    LengthMismatch,
    /// An array declared a negative element count.
    NegativeCount,
    /// An array element began with a token that opens no value.
    UnexpectedToken,
}

/// The first separator token at or after position `i`.
pub open spec fn find_sep(ts: Seq<TokenModel>, i: int) -> Option<int>
    decreases ts.len() - i,
{
    if i < 0 || i >= ts.len() {
        None
    } else if ts[i] is Sep {
        Some(i)
    } else {
        find_sep(ts, i + 1)
    }
}

/// The text a token contributes when a bulk-string payload is reassembled:
/// its wire rendering, except that separators contribute nothing.
pub open spec fn render_bulk_token(t: TokenModel) -> Seq<char> {
    match t {
        TokenModel::Sep => Seq::empty(),
        _ => render_token(t),
    }
}

/// The reassembled text of a run of payload tokens.
pub open spec fn render_tokens(ts: Seq<TokenModel>) -> Seq<char>
    decreases ts.len(),
{
    if ts.len() == 0 {
        Seq::empty()
    } else {
        render_bulk_token(ts[0]) + render_tokens(ts.skip(1))
    }
}

/// Parsing a simple string at position `i`: `+`, one text token, one
/// separator.
pub open spec fn parse_simple_at(ts: Seq<TokenModel>, i: int) -> Result<
    (ValueModel, int),
    ParseError,
> {
    if !(0 <= i < ts.len() && ts[i] is Plus) {
        Err(ParseError::ExpectedPlus)
    } else if i + 2 >= ts.len() {
        Err(ParseError::MissingToken)
    } else if !(ts[i + 2] is Sep) {
        Err(ParseError::ExpectedSeparator)
    } else {
        match token_text(ts[i + 1]) {
            Some(text) => Ok((ValueModel::SimpleString(text), i + 3)),
            None => Err(ParseError::ExpectedText),
        }
    }
}

/// Parsing a bulk string at position `i`: `$`, a declared length, a
/// separator, payload tokens up to the next separator, which is consumed.
/// The reassembled payload must occupy exactly the declared number of
/// bytes.
pub open spec fn parse_bulk_at(ts: Seq<TokenModel>, i: int) -> Result<
    (ValueModel, int),
    ParseError,
> {
    if !(0 <= i < ts.len() && ts[i] is Dollar) {
        Err(ParseError::ExpectedDollar)
    } else if i + 1 >= ts.len() {
        Err(ParseError::MissingToken)
    } else {
        match ts[i + 1] {
            TokenModel::Num(n) => {
                if i + 2 >= ts.len() {
                    Err(ParseError::MissingToken)
                } else if !(ts[i + 2] is Sep) {
                    Err(ParseError::ExpectedSeparator)
                } else {
                    match find_sep(ts, i + 3) {
                        Some(j) => {
                            if !(0 <= n <= usize::MAX) {
                                Err(ParseError::BadLength)
                            } else {
                                let content = render_tokens(ts.subrange(i + 3, j));
                                if byte_len(content) == n {
                                    Ok((ValueModel::BulkString(content), j + 1))
                                } else {
                                    Err(ParseError::LengthMismatch)
                                }
                            }
                        },
                        None => Err(ParseError::MissingToken),
                    }
                }
            },
            _ => Err(ParseError::ExpectedNumber),
        }
    }
}

/// Parsing an array at position `i`: `*`, a count, and — when the count is
/// positive — a separator followed by exactly that many elements. A count
/// of zero yields the empty array at once.
pub open spec fn parse_array_at(ts: Seq<TokenModel>, i: int) -> Result<
    (ValueModel, int),
    ParseError,
>
    decreases ts.len() - i, 0int, 0int,
{
    if !(0 <= i < ts.len() && ts[i] is Asterisk) {
        Err(ParseError::ExpectedAsterisk)
    } else if i + 1 >= ts.len() {
        Err(ParseError::MissingToken)
    } else {
        match ts[i + 1] {
            TokenModel::Num(n) => {
                if n < 0 {
                    Err(ParseError::NegativeCount)
                } else if n == 0 {
                    Ok((ValueModel::Array(Seq::empty()), i + 2))
                } else if !(i + 2 < ts.len() && ts[i + 2] is Sep) {
                    Err(ParseError::ExpectedSeparator)
                } else {
                    match parse_items(ts, i + 3, n) {
                        Ok((es, j)) => Ok((ValueModel::Array(es), j)),
                        Err(e) => Err(e),
                    }
                }
            },
            _ => Err(ParseError::ExpectedNumber),
        }
    }
}

/// Parsing `n` consecutive elements starting at position `i`.
pub open spec fn parse_items(ts: Seq<TokenModel>, i: int, n: int) -> Result<
    (Seq<ValueModel>, int),
    ParseError,
>
    decreases ts.len() - i, 2int, n,
{
    if n <= 0 {
        Ok((Seq::empty(), i))
    } else {
        match parse_element_at(ts, i) {
            Ok((v, j)) => {
                if i < j && j <= ts.len() {
                    match parse_items(ts, j, n - 1) {
                        Ok((es, k)) => Ok((seq![v] + es, k)),
                        Err(e) => Err(e),
                    }
                } else {
                    Err(ParseError::MissingToken)
                }
            },
            Err(e) => Err(e),
        }
    }
}

/// Parsing one element at position `i`, dispatched on its leading token.
pub open spec fn parse_element_at(ts: Seq<TokenModel>, i: int) -> Result<
    (ValueModel, int),
    ParseError,
>
    decreases ts.len() - i, 1int, 0int,
{
    if !(0 <= i < ts.len()) {
        Err(ParseError::MissingToken)
    } else {
        match ts[i] {
            TokenModel::Plus => parse_simple_at(ts, i),
            TokenModel::Dollar => parse_bulk_at(ts, i),
            TokenModel::Asterisk => parse_array_at(ts, i),
            _ => Err(ParseError::UnexpectedToken),
        }
    }
}

/// Parsing a whole value from the front of a token sequence. Tokens after
/// the first complete value are ignored. `None` on an empty sequence, an
/// unrecognized leading token, or any shape violation.
pub open spec fn parse_value(ts: Seq<TokenModel>) -> Option<ValueModel> {
    if ts.len() == 0 {
        None
    } else {
        match ts[0] {
            TokenModel::Plus | TokenModel::Dollar | TokenModel::Asterisk => match parse_element_at(
                ts,
                0,
            ) {
                Ok((v, _)) => Some(v),
                Err(_) => None,
            },
            _ => None,
        }
    }
}

/// A successful parse consumes at least one token and never runs past the
/// end.
pub proof fn lemma_parse_advances(ts: Seq<TokenModel>, i: int)
    ensures
        parse_element_at(ts, i) matches Ok((v, j)) ==> i < j <= ts.len(),
        parse_simple_at(ts, i) matches Ok((v, j)) ==> i < j <= ts.len(),
        parse_bulk_at(ts, i) matches Ok((v, j)) ==> i < j <= ts.len(),
        parse_array_at(ts, i) matches Ok((v, j)) ==> i < j <= ts.len(),
    decreases ts.len() - i, 3int, 0int,
{
    if 0 <= i < ts.len() && ts[i] is Dollar {
        if let Ok((v, j)) = parse_bulk_at(ts, i) {
            lemma_find_sep(ts, i + 3);
        }
    }
    if 0 <= i < ts.len() && ts[i] is Asterisk {
        if let Ok((v, j)) = parse_array_at(ts, i) {
            if i + 1 < ts.len() {
                if let TokenModel::Num(n) = ts[i + 1] {
                    if n > 0 {
                        lemma_parse_items_advances(ts, i + 3, n);
                    }
                }
            }
        }
    }
}

/// As `lemma_parse_advances`, for element runs.
pub proof fn lemma_parse_items_advances(ts: Seq<TokenModel>, i: int, n: int)
    requires
        i <= ts.len(),
    ensures
        parse_items(ts, i, n) matches Ok((es, j)) ==> i <= j <= ts.len(),
    decreases ts.len() - i, 4int, n,
{
    if n > 0 {
        lemma_parse_advances(ts, i);
        match parse_element_at(ts, i) {
            Ok((v, j)) => {
                assert(i < j <= ts.len());
                lemma_parse_items_advances(ts, j, n - 1);
                match parse_items(ts, j, n - 1) {
                    Ok((es, k)) => {
                        assert(parse_items(ts, i, n) == Ok::<(Seq<ValueModel>, int), ParseError>(
                            (seq![v] + es, k),
                        ));
                    },
                    Err(e) => {},
                }
            },
            Err(e) => {},
        }
    }
}

/// Reassembled text distributes over concatenation of token runs.
pub proof fn lemma_render_tokens_append(a: Seq<TokenModel>, b: Seq<TokenModel>)
    ensures
        render_tokens(a + b) == render_tokens(a) + render_tokens(b),
    decreases a.len(),
{
    if a.len() == 0 {
        assert(a + b =~= b);
        assert(render_tokens(a) + render_tokens(b) =~= render_tokens(b));
    } else {
        assert((a + b).skip(1) =~= a.skip(1) + b);
        lemma_render_tokens_append(a.skip(1), b);
        assert(render_bulk_token(a[0]) + (render_tokens(a.skip(1)) + render_tokens(b))
            =~= (render_bulk_token(a[0]) + render_tokens(a.skip(1))) + render_tokens(b));
    }
}

/// The model sequence of a pushed element.
pub proof fn lemma_values_view_push(vs: Seq<ParserValue>, v: ParserValue)
    ensures
        values_view(vs.push(v)) == values_view(vs) + seq![v@],
{
    lemma_values_view(vs);
    lemma_values_view(vs.push(v));
    assert forall|m: int| 0 <= m < vs.len() + 1 implies values_view(vs.push(v))[m] == (
    values_view(vs) + seq![v@])[m] by {
        assert(values_view(vs.push(v))[m] == vs.push(v)[m]@);
        if m < vs.len() {
            assert(vs.push(v)[m] == vs[m]);
            assert(values_view(vs)[m] == vs[m]@);
        } else {
            assert(vs.push(v)[m] == v);
        }
    }
    assert(values_view(vs.push(v)) =~= values_view(vs) + seq![v@]);
}

/// The first separator found is a separator, and nothing before it is.
pub proof fn lemma_find_sep(ts: Seq<TokenModel>, i: int)
    requires
        0 <= i,
    ensures
        match find_sep(ts, i) {
            Some(j) => i <= j < ts.len() && ts[j] is Sep && (forall|m: int|
                i <= m < j ==> !(#[trigger] ts[m] is Sep)),
            None => forall|m: int| i <= m < ts.len() ==> !(#[trigger] ts[m] is Sep),
        },
    decreases ts.len() - i,
{
    if 0 <= i < ts.len() && !(ts[i] is Sep) {
        lemma_find_sep(ts, i + 1);
    }
}

impl ParserValue {
    /// Is this value a string (simple or bulk)?
    pub fn is_string(self: &ParserValue) -> (r: bool)
        ensures
            r == (value_text(self@) is Some),
    {
        matches!(self, ParserValue::SimpleString(_)) || matches!(self, ParserValue::BulkString(_))
    }

    /// Is this value an array?
    pub fn is_array(self: &ParserValue) -> (r: bool)
        ensures
            r == (self@ is Array),
    {
        matches!(self, ParserValue::Array(_))
    }

    /// The text of a string-typed value.
    pub fn to_string(self: &ParserValue) -> (r: Option<String>)
        ensures
            match r {
                Some(s) => value_text(self@) == Some(s@),
                None => value_text(self@) is None,
            },
    {
        match self {
            ParserValue::SimpleString(s) => Some(s.clone()),
            ParserValue::BulkString(s) => Some(s.clone()),
            _ => None,
        }
    }

    /// The elements of an array value.
    pub fn to_vec(self: &ParserValue) -> (r: Option<&Vec<ParserValue>>)
        ensures
            match r {
                Some(items) => self@ == ValueModel::Array(values_view(items@)),
                None => !(self@ is Array),
            },
    {
        match self {
            ParserValue::Array(arr) => Some(arr),
            _ => None,
        }
    }

    /// A structurally equal copy of this value.
    pub fn deep_clone(self: &ParserValue) -> (r: ParserValue)
        ensures
            r@ == self@,
        decreases self@,
    {
        match self {
            ParserValue::SimpleString(s) => ParserValue::SimpleString(s.clone()),
            ParserValue::BulkString(s) => ParserValue::BulkString(s.clone()),
            ParserValue::Array(items) => {
                let ghost es = values_view(items@);
                proof {
                    lemma_values_view(items@);
                }
                let mut copies: Vec<ParserValue> = Vec::new();
                let mut idx: usize = 0;
                while idx < items.len()
                    invariant
                        idx <= items@.len(),
                        copies@.len() == idx,
                        self@ == ValueModel::Array(es),
                        es == values_view(items@),
                        es.len() == items@.len(),
                        forall|m: int| 0 <= m < items@.len() ==> #[trigger] items@[m]@ == es[m],
                        forall|m: int| 0 <= m < idx ==> #[trigger] copies@[m]@ == items@[m]@,
                    decreases items@.len() - idx,
                {
                    proof {
                        assert(self@->Array_0 == es);
                        assert(decreases_to!(self@ => es));
                        assert(decreases_to!(es => es[idx as int]));
                        assert(decreases_to!(self@ => es[idx as int]));
                    }
                    copies.push(items[idx].deep_clone());
                    idx = idx + 1;
                }
                let r = ParserValue::Array(copies);
                proof {
                    lemma_values_view(copies@);
                    assert forall|m: int| 0 <= m < copies@.len() implies values_view(copies@)[m]
                        == es[m] by {
                        assert(copies@[m]@ == items@[m]@);
                    }
                    assert(values_view(copies@) =~= es);
                }
                r
            },
            ParserValue::NullBulkString => ParserValue::NullBulkString,
        }
    }

    /// Serializes this value into its token sequence.
    pub fn to_tokens(self: &ParserValue) -> (r: Vec<Token>)
        requires
            value_fits(self@),
        ensures
            tokens_view(r@) == val_tokens(self@),
        decreases self@,
    {
        match self {
            ParserValue::SimpleString(s) => {
                let r = vec![
                    Token::Plus,
                    Token::String(s.clone()),
                    Token::Separator,
                ];
                proof {
                    assert(tokens_view(r@) =~= val_tokens(self@));
                }
                r
            },
            ParserValue::BulkString(s) => {
                let len = str_byte_len(s.as_str());
                let r = vec![
                    Token::Dollar,
                    Token::Number(len as i64),
                    Token::Separator,
                    Token::String(s.clone()),
                    Token::Separator,
                ];
                proof {
                    assert(tokens_view(r@) =~= val_tokens(self@));
                }
                r
            },
            ParserValue::Array(arr) => {
                let ghost es = values_view(arr@);
                proof {
                    lemma_values_view(arr@);
                    assert(self@ == ValueModel::Array(es));
                }
                let count = arr.len();
                let mut r = vec![
                    Token::Asterisk,
                    Token::Number(count as i64),
                    Token::Separator,
                ];
                let ghost header = tokens_view(r@);
                let mut idx: usize = 0;
                proof {
                    assert(es.skip(0) =~= es);
                    assert(header + Seq::<TokenModel>::empty() =~= header);
                    assert(tokens_view(r@) =~= header + Seq::<TokenModel>::empty());
                }
                while idx < arr.len()
                    invariant
                        idx <= arr@.len(),
                        value_fits(ValueModel::Array(es)),
                        self@ == ValueModel::Array(es),
                        es.len() == arr@.len(),
                        forall|m: int| 0 <= m < arr@.len() ==> #[trigger] arr@[m]@ == es[m],
                        tokens_view(r@) + vals_tokens(es.skip(idx as int)) == header + vals_tokens(
                            es,
                        ),
                    decreases arr@.len() - idx,
                {
                    let ghost r_before = tokens_view(r@);
                    proof {
                        assert(decreases_to!(self@ => es));
                        assert(decreases_to!(es => es[idx as int]));
                        assert(decreases_to!(self@ => es[idx as int]));
                        assert(value_fits(es[idx as int]));
                        assert(arr@[idx as int]@ == es[idx as int]);
                    }
                    let mut element_tokens = arr[idx].to_tokens();
                    let ghost elem_ts = tokens_view(element_tokens@);
                    r.append(&mut element_tokens);
                    proof {
                        assert(es.skip(idx as int).len() > 0);
                        assert(es.skip(idx as int)[0] == es[idx as int]);
                        assert(es.skip(idx as int).skip(1) =~= es.skip(idx + 1));
                        assert(vals_tokens(es.skip(idx as int)) == val_tokens(es[idx as int])
                            + vals_tokens(es.skip(idx + 1)));
                        assert(elem_ts == val_tokens(es[idx as int]));
                        assert(tokens_view(r@) =~= r_before + elem_ts);
                        assert((r_before + elem_ts) + vals_tokens(es.skip(idx + 1)) =~= r_before
                            + (elem_ts + vals_tokens(es.skip(idx + 1))));
                    }
                    idx = idx + 1;
                }
                proof {
                    assert(es.skip(arr@.len() as int) =~= Seq::<ValueModel>::empty());
                    assert(vals_tokens(Seq::<ValueModel>::empty()) == Seq::<TokenModel>::empty());
                    assert(tokens_view(r@) + Seq::<TokenModel>::empty() =~= tokens_view(r@));
                    assert(self@ == ValueModel::Array(es));
                    assert(val_tokens(self@) == seq![
                        TokenModel::Asterisk,
                        TokenModel::Num(es.len() as int),
                        TokenModel::Sep,
                    ] + vals_tokens(es));
                    assert(header =~= seq![
                        TokenModel::Asterisk,
                        TokenModel::Num(es.len() as int),
                        TokenModel::Sep,
                    ]);
                }
                r
            },
            ParserValue::NullBulkString => {
                let r = vec![
                    Token::Dollar,
                    Token::Number(-1i64),
                    Token::Separator,
                ];
                proof {
                    assert(tokens_view(r@) =~= val_tokens(self@));
                }
                r
            },
        }
    }
}

/// Parses a simple string from `tokens` at `*pos`, advancing `*pos` past
/// what was consumed on success.
pub fn tokens_to_simple_string(tokens: &[Token], pos: &mut usize) -> (r: Result<
    ParserValue,
    ParseError,
>)
    ensures
        match r {
            Ok(v) => parse_simple_at(tokens_view(tokens@), *old(pos) as int) == Ok::<
                (ValueModel, int),
                ParseError,
            >((v@, *final(pos) as int)) && value_fits(v@) && *old(pos) < *final(pos)
                <= tokens@.len(),
            Err(e) => parse_simple_at(tokens_view(tokens@), *old(pos) as int) == Err::<
                (ValueModel, int),
                ParseError,
            >(e),
        },
{
    let ghost ts = tokens_view(tokens@);
    let n = tokens.len();
    let i = *pos;
    if i >= n || !tokens[i].is_plus() {
        return Err(ParseError::ExpectedPlus);
    }
    if n - i <= 2 {
        return Err(ParseError::MissingToken);
    }
    if !tokens[i + 2].is_separator() {
        return Err(ParseError::ExpectedSeparator);
    }
    match tokens[i + 1].to_string() {
        Some(text) => {
            *pos = i + 3;
            Ok(ParserValue::SimpleString(text))
        },
        None => Err(ParseError::ExpectedText),
    }
}

/// Parses a bulk string from `tokens` at `*pos`: the declared length, a
/// separator, then every token up to the next separator reassembled into
/// the payload, whose byte length must equal the declared one.
pub fn tokens_to_bulk_string(tokens: &[Token], pos: &mut usize) -> (r: Result<
    ParserValue,
    ParseError,
>)
    ensures
        match r {
            Ok(v) => parse_bulk_at(tokens_view(tokens@), *old(pos) as int) == Ok::<
                (ValueModel, int),
                ParseError,
            >((v@, *final(pos) as int)) && value_fits(v@) && *old(pos) < *final(pos)
                <= tokens@.len(),
            Err(e) => parse_bulk_at(tokens_view(tokens@), *old(pos) as int) == Err::<
                (ValueModel, int),
                ParseError,
            >(e),
        },
{
    let ghost ts = tokens_view(tokens@);
    let n = tokens.len();
    let i = *pos;
    if i >= n || !tokens[i].is_dollar() {
        return Err(ParseError::ExpectedDollar);
    }
    if n - i <= 1 {
        return Err(ParseError::MissingToken);
    }
    if !tokens[i + 1].is_number() {
        return Err(ParseError::ExpectedNumber);
    }
    if n - i <= 2 {
        return Err(ParseError::MissingToken);
    }
    if !tokens[i + 2].is_separator() {
        return Err(ParseError::ExpectedSeparator);
    }
    let mut j = i + 3;
    while j < n && !tokens[j].is_separator()
        invariant
            ts == tokens_view(tokens@),
            n == tokens@.len(),
            i + 3 <= j <= n,
            forall|m: int| i + 3 <= m < j ==> !(#[trigger] ts[m] is Sep),
        decreases n - j,
    {
        j = j + 1;
    }
    if j >= n {
        proof {
            lemma_find_sep(ts, i + 3);
            if let Some(p) = find_sep(ts, i + 3) {
                assert(!(ts[p] is Sep));
                assert(false);
            }
        }
        return Err(ParseError::MissingToken);
    }
    proof {
        lemma_find_sep(ts, i + 3);
        match find_sep(ts, i + 3) {
            Some(p) => {
                if p < j {
                    assert(!(ts[p] is Sep));
                    assert(false);
                }
                if p > j {
                    assert(!(ts[j as int] is Sep));
                    assert(false);
                }
            },
            None => {
                assert(!(ts[j as int] is Sep));
                assert(false);
            },
        }
        assert(find_sep(ts, i + 3) == Some(j as int));
    }
    let declared = match tokens[i + 1].to_usize() {
        Some(u) => u,
        None => {
            return Err(ParseError::BadLength);
        },
    };
    let mut content = String::new();
    let mut m = i + 3;
    proof {
        assert(ts.subrange(i + 3, i + 3) =~= Seq::<TokenModel>::empty());
    }
    while m < j
        invariant
            ts == tokens_view(tokens@),
            n == tokens@.len(),
            i + 3 <= m <= j < n,
            forall|p: int| i + 3 <= p < j ==> !(#[trigger] ts[p] is Sep),
            content@ == render_tokens(ts.subrange(i + 3, m as int)),
        decreases j - m,
    {
        let piece = crate::tokenizer::render_token_string(&tokens[m]);
        content.append(piece.as_str());
        proof {
            let a = ts.subrange(i + 3, m as int);
            let t = ts[m as int];
            assert(ts.subrange(i + 3, m + 1) =~= a + seq![t]);
            lemma_render_tokens_append(a, seq![t]);
            assert(seq![t].skip(1) =~= Seq::<TokenModel>::empty());
            assert(render_tokens(Seq::<TokenModel>::empty()) == Seq::<char>::empty());
            assert(render_tokens(seq![t]) =~= render_bulk_token(t));
            assert(render_bulk_token(t) == render_token(t));
        }
        m = m + 1;
    }
    let actual = str_byte_len(content.as_str());
    if actual != declared {
        return Err(ParseError::LengthMismatch);
    }
    *pos = j + 1;
    Ok(ParserValue::BulkString(content))
}

/// Parses an array from `tokens` at `*pos`: a count, then — when positive —
/// a separator and exactly that many elements, each dispatched on its
/// leading token.
#[verifier::loop_isolation(false)]
pub fn tokens_to_array(tokens: &[Token], pos: &mut usize) -> (r: Result<ParserValue, ParseError>)
    ensures
        match r {
            Ok(v) => parse_array_at(tokens_view(tokens@), *old(pos) as int) == Ok::<
                (ValueModel, int),
                ParseError,
            >((v@, *final(pos) as int)) && value_fits(v@) && *old(pos) < *final(pos)
                <= tokens@.len(),
            Err(e) => parse_array_at(tokens_view(tokens@), *old(pos) as int) == Err::<
                (ValueModel, int),
                ParseError,
            >(e),
        },
    decreases tokens@.len() - *pos,
{
    let ghost ts = tokens_view(tokens@);
    let n = tokens.len();
    let i = *pos;
    if i >= n || !tokens[i].is_asterisk() {
        return Err(ParseError::ExpectedAsterisk);
    }
    if n - i <= 1 {
        return Err(ParseError::MissingToken);
    }
    let count = match tokens[i + 1].to_i64() {
        Some(c) => c,
        None => {
            return Err(ParseError::ExpectedNumber);
        },
    };
    if count < 0 {
        return Err(ParseError::NegativeCount);
    }
    if count == 0 {
        *pos = i + 2;
        let r = ParserValue::Array(Vec::new());
        proof {
            assert(values_view(Seq::<ParserValue>::empty()) == Seq::<ValueModel>::empty());
            assert(r@ == ValueModel::Array(Seq::<ValueModel>::empty()));
        }
        return Ok(r);
    }
    if n - i <= 2 {
        return Err(ParseError::ExpectedSeparator);
    }
    if !tokens[i + 2].is_separator() {
        return Err(ParseError::ExpectedSeparator);
    }
    *pos = i + 3;
    let mut values: Vec<ParserValue> = Vec::new();
    let mut done: i64 = 0;
    proof {
        assert(values_view(values@) + Seq::<ValueModel>::empty() =~= values_view(values@));
        assert(values_view(Seq::<ParserValue>::empty()) == Seq::<ValueModel>::empty());
    }
    while done < count
        invariant
            ts == tokens_view(tokens@),
            n == tokens@.len(),
            0 <= done <= count,
            1 <= count,
            0 <= i < n,
            i + 3 <= n,
            ts[i as int] is Asterisk,
            ts[i + 1] == TokenModel::Num(count as int),
            ts[i + 2] is Sep,
            i + 3 <= *pos <= n,
            values@.len() == done,
            forall|p: int| 0 <= p < done ==> value_fits(#[trigger] values_view(values@)[p]),
            values_view(values@).len() == done,
            match parse_items(ts, *pos as int, count - done) {
                Ok((es, k)) => parse_items(ts, i + 3, count as int) == Ok::<
                    (Seq<ValueModel>, int),
                    ParseError,
                >((values_view(values@) + es, k)),
                Err(e) => parse_items(ts, i + 3, count as int) == Err::<
                    (Seq<ValueModel>, int),
                    ParseError,
                >(e),
            },
        decreases count - done,
    {
        let ghost pos_before = *pos as int;
        let ghost values_before = values@;
        let remaining = count - done;
        if *pos >= n {
            proof {
                assert(parse_element_at(ts, pos_before) == Err::<(ValueModel, int), ParseError>(
                    ParseError::MissingToken,
                ));
            }
            return Err(ParseError::MissingToken);
        }
        let elem = if tokens[*pos].is_plus() {
            tokens_to_simple_string(tokens, pos)
        } else if tokens[*pos].is_dollar() {
            tokens_to_bulk_string(tokens, pos)
        } else if tokens[*pos].is_asterisk() {
            tokens_to_array(tokens, pos)
        } else {
            proof {
                assert(parse_element_at(ts, pos_before) == Err::<(ValueModel, int), ParseError>(
                    ParseError::UnexpectedToken,
                ));
            }
            return Err(ParseError::UnexpectedToken);
        };
        match elem {
            Ok(v) => {
                proof {
                    assert(parse_element_at(ts, pos_before) == Ok::<(ValueModel, int), ParseError>(
                        (v@, *pos as int),
                    ));
                    lemma_values_view_push(values_before, v);
                    let es_new = values_view(values_before) + seq![v@];
                    assert(parse_items(ts, pos_before, remaining as int) == (
                    match parse_items(ts, *pos as int, remaining - 1) {
                        Ok((es2, k2)) => Ok::<(Seq<ValueModel>, int), ParseError>(
                            (seq![v@] + es2, k2),
                        ),
                        Err(e2) => Err(e2),
                    }));
                    match parse_items(ts, *pos as int, remaining - 1) {
                        Ok((es2, k2)) => {
                            assert((values_view(values_before) + (seq![v@] + es2)) =~= (es_new
                                + es2));
                        },
                        Err(e2) => {},
                    }
                }
                values.push(v);
                done = done + 1;
            },
            Err(e) => {
                return Err(e);
            },
        }
    }
    proof {
        assert(parse_items(ts, *pos as int, 0) == Ok::<(Seq<ValueModel>, int), ParseError>(
            (Seq::<ValueModel>::empty(), *pos as int),
        ));
        assert(values_view(values@) + Seq::<ValueModel>::empty() =~= values_view(values@));
    }
    let r = ParserValue::Array(values);
    Ok(r)
}

/// Parses a whole value from a token sequence, dispatching on the first
/// token. Tokens after the first complete value are ignored.
pub fn parse_tokens(tokens: &[Token]) -> (r: Option<ParserValue>)
    ensures
        match r {
            Some(v) => parse_value(tokens_view(tokens@)) == Some(v@) && value_fits(v@),
            None => parse_value(tokens_view(tokens@)) is None,
        },
{
    let ghost ts = tokens_view(tokens@);
    if tokens.len() == 0 {
        return None;
    }
    let mut pos: usize = 0;
    if tokens[0].is_plus() {
        match tokens_to_simple_string(tokens, &mut pos) {
            Ok(v) => Some(v),
            Err(_) => None,
        }
    } else if tokens[0].is_dollar() {
        match tokens_to_bulk_string(tokens, &mut pos) {
            Ok(v) => Some(v),
            Err(_) => None,
        }
    } else if tokens[0].is_asterisk() {
        match tokens_to_array(tokens, &mut pos) {
            Ok(v) => Some(v),
            Err(_) => None,
        }
    } else {
        None
    }
}

} // verus!
