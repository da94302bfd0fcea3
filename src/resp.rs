//! Tokens of the wire protocol, their canonical encoding and the decoder.
use vstd::prelude::*;
use vstd::string::StringSliceAdditionalSpecFns;

verus! {

broadcast use vstd::string::group_string_axioms;

/// Input that does not start with the wire form of a token.
#[derive(Debug, PartialEq, Eq)]
pub struct ParseError;

/// One protocol value, as a request or a response.
#[derive(Debug, PartialEq)]
pub enum RespToken {
    SimpleString(String),
    SimpleError(String),
    BulkString(String),
    NullBulkString,
    Integer(i64),
    Array(Vec<RespToken>),
}

/// The mathematical value of a token: texts are character sequences.
pub enum TokenView {
    Simple(Seq<char>),
    Error(Seq<char>),
    Bulk(Seq<char>),
    NullBulk,
    Int(int),
    Arr(Seq<TokenView>),
}

pub open spec fn token_view(t: RespToken) -> TokenView
    decreases t,
{
    match t {
        RespToken::SimpleString(s) => TokenView::Simple(s@),
        RespToken::SimpleError(s) => TokenView::Error(s@),
        RespToken::BulkString(s) => TokenView::Bulk(s@),
        RespToken::NullBulkString => TokenView::NullBulk,
        RespToken::Integer(i) => TokenView::Int(i as int),
        RespToken::Array(v) => TokenView::Arr(tokens_view(v@)),
    }
}

pub open spec fn tokens_view(ts: Seq<RespToken>) -> Seq<TokenView>
    decreases ts,
{
    if ts.len() == 0 {
        Seq::empty()
    } else {
        seq![token_view(ts[0])] + tokens_view(ts.drop_first())
    }
}

impl View for RespToken {
    type V = TokenView;

    open spec fn view(&self) -> TokenView {
        token_view(*self)
    }
}

pub open spec fn crlf() -> Seq<char> {
    seq!['\r', '\n']
}

/// Number of bytes that the UTF-8 encoding of `c` takes.
pub open spec fn char_width(c: char) -> nat {
    if (c as u32) < 0x80 {
        1
    } else if (c as u32) < 0x800 {
        2
    } else if (c as u32) < 0x10000 {
        3
    } else {
        4
    }
}

/// Number of bytes that the UTF-8 encoding of `cs` takes.
pub open spec fn byte_len(cs: Seq<char>) -> nat
    decreases cs.len(),
{
    if cs.len() == 0 {
        0
    } else {
        char_width(cs[0]) + byte_len(cs.drop_first())
    }
}

pub open spec fn digit_char(d: nat) -> char {
    if d == 0 {
        '0'
    } else if d == 1 {
        '1'
    } else if d == 2 {
        '2'
    } else if d == 3 {
        '3'
    } else if d == 4 {
        '4'
    } else if d == 5 {
        '5'
    } else if d == 6 {
        '6'
    } else if d == 7 {
        '7'
    } else if d == 8 {
        '8'
    } else {
        '9'
    }
}

/// Decimal digits of `n`, most significant first, without leading zeros.
pub open spec fn decimal(n: nat) -> Seq<char>
    decreases n,
{
    if n < 10 {
        seq![digit_char(n)]
    } else {
        decimal(n / 10) + seq![digit_char(n % 10)]
    }
}

/// Decimal text of `i`, with a leading `-` when it is negative.
pub open spec fn signed_decimal(i: int) -> Seq<char> {
    if i < 0 {
        seq!['-'] + decimal((-i) as nat)
    } else {
        decimal(i as nat)
    }
}

/// The canonical wire form of a token.
pub open spec fn encode_token(t: TokenView) -> Seq<char>
    decreases t,
{
    match t {
        TokenView::Simple(s) => seq!['+'] + s + crlf(),
        TokenView::Error(s) => seq!['-'] + s + crlf(),
        TokenView::Bulk(s) => seq!['$'] + decimal(byte_len(s)) + crlf() + s + crlf(),
        TokenView::NullBulk => seq!['$', '-', '1', '\r', '\n'],
        TokenView::Int(i) => seq![':'] + signed_decimal(i) + crlf(),
        TokenView::Arr(items) => seq!['*'] + decimal(items.len()) + crlf() + encode_tokens(items),
    }
}

/// The wire forms of `ts`, one after another.
pub open spec fn encode_tokens(ts: Seq<TokenView>) -> Seq<char>
    decreases ts,
{
    if ts.len() == 0 {
        Seq::empty()
    } else {
        encode_token(ts[0]) + encode_tokens(ts.drop_first())
    }
}


pub open spec fn is_digit(c: char) -> bool {
    '0' <= c && c <= '9'
}

pub open spec fn digit_value(c: char) -> nat {
    (c as u32 - '0' as u32) as nat
}

pub open spec fn crlf_at(cs: Seq<char>, k: int) -> bool {
    0 <= k && k + 1 < cs.len() && cs[k] == '\r' && cs[k + 1] == '\n'
}

/// The first position at or after `i` that holds no digit.
pub open spec fn digits_end(cs: Seq<char>, i: nat) -> nat
    decreases cs.len() - i,
{
    if i < cs.len() && is_digit(cs[i as int]) {
        digits_end(cs, i + 1)
    } else {
        i
    }
}

/// The number that the digits between `i` and `j` spell.
pub open spec fn digits_value(cs: Seq<char>, i: nat, j: nat) -> nat
    decreases j - i,
{
    if j <= i {
        0
    } else {
        digits_value(cs, i, (j - 1) as nat) * 10 + digit_value(cs[j - 1])
    }
}

/// A run of at least one digit at `i`: its value and the position after it.
pub open spec fn unsigned_at(cs: Seq<char>, i: nat) -> Option<(nat, nat)> {
    let j = digits_end(cs, i);
    if j == i {
        None
    } else {
        Some((digits_value(cs, i, j), j))
    }
}

/// The first position at or after `i` that holds a CR or an LF, or the end.
pub open spec fn line_end(cs: Seq<char>, i: nat) -> nat
    decreases cs.len() - i,
{
    if i < cs.len() && cs[i as int] != '\r' && cs[i as int] != '\n' {
        line_end(cs, i + 1)
    } else {
        i
    }
}

/// The position reached from `k` after exactly `n` bytes of encoded text,
/// if `n` bytes end on a character boundary within `cs`.
pub open spec fn bytes_end(cs: Seq<char>, k: nat, n: nat) -> Option<nat>
    decreases n,
{
    if n == 0 {
        Some(k)
    } else if k >= cs.len() {
        None
    } else if char_width(cs[k as int]) > n {
        None
    } else {
        bytes_end(cs, k + 1, (n - char_width(cs[k as int])) as nat)
    }
}

pub proof fn lemma_digits_end(cs: Seq<char>, i: nat)
    ensures
        i <= digits_end(cs, i),
        i <= cs.len() ==> digits_end(cs, i) <= cs.len(),
        forall|k: int| i <= k < digits_end(cs, i) ==> is_digit(#[trigger] cs[k]),
        digits_end(cs, i) < cs.len() ==> !is_digit(cs[digits_end(cs, i) as int]),
    decreases cs.len() - i,
{
    if i < cs.len() && is_digit(cs[i as int]) {
        lemma_digits_end(cs, i + 1);
    }
}

/// A bulk string at `i`: `$`, a byte count, CRLF, that many bytes, CRLF.
pub open spec fn bulk_at(cs: Seq<char>, i: nat) -> Option<(TokenView, nat)> {
    match unsigned_at(cs, i + 1) {
        Some((n, k)) => if n <= usize::MAX && crlf_at(cs, k as int) {
            match bytes_end(cs, k + 2, n) {
                Some(e) => if crlf_at(cs, e as int) {
                    Some((TokenView::Bulk(cs.subrange(k + 2int, e as int)), (e + 2 - i) as nat))
                } else {
                    None
                },
                None => None,
            }
        } else {
            None
        },
        None => None,
    }
}

/// The null bulk string `$-1` and CRLF at `i`.
pub open spec fn null_at(cs: Seq<char>, i: nat) -> bool {
    i + 5 <= cs.len() && cs.subrange(i as int, i + 5int) == seq!['$', '-', '1', '\r', '\n']
}

/// An integer at `i`: `:`, an optional `-`, digits whose value fits in
/// 64 signed bits, CRLF.
pub open spec fn integer_at(cs: Seq<char>, i: nat) -> Option<(TokenView, nat)> {
    let neg = i + 1 < cs.len() && cs[i + 1int] == '-';
    let start: nat = if neg {
        i + 2
    } else {
        i + 1
    };
    match unsigned_at(cs, start) {
        Some((m, k)) => {
            let v: int = if neg {
                -m
            } else {
                m as int
            };
            if i64::MIN <= v && v <= i64::MAX && crlf_at(cs, k as int) {
                Some((TokenView::Int(v), (k + 2 - i) as nat))
            } else {
                None
            }
        },
        None => None,
    }
}

/// Length of what is left of `cs` from `i` on: the measure that decoding
/// consumes.
pub open spec fn left(cs: Seq<char>, i: nat) -> nat {
    if i <= cs.len() {
        (cs.len() - i) as nat
    } else {
        0
    }
}

/// The token whose wire form starts at `i`, and how many characters it
/// takes; the alternatives are tried in a fixed order.
pub open spec fn parse_token(cs: Seq<char>, i: nat) -> Option<(TokenView, nat)>
    decreases left(cs, i), 0nat,
{
    if i >= cs.len() {
        None
    } else if cs[i as int] == '+' {
        let j = line_end(cs, i + 1);
        if j > i + 1 && crlf_at(cs, j as int) {
            Some((TokenView::Simple(cs.subrange(i + 1int, j as int)), (j + 2 - i) as nat))
        } else {
            None
        }
    } else if cs[i as int] == '$' {
        match bulk_at(cs, i) {
            Some(r) => Some(r),
            None => if null_at(cs, i) {
                Some((TokenView::NullBulk, 5))
            } else {
                None
            },
        }
    } else if cs[i as int] == ':' {
        integer_at(cs, i)
    } else if cs[i as int] == '*' {
        match unsigned_at(cs, i + 1) {
            Some((n, k)) => if n <= usize::MAX && crlf_at(cs, k as int) {
                proof {
                    lemma_digits_end(cs, i + 1);
                }
                match parse_items(cs, k + 2, n) {
                    Some((items, c)) => Some((TokenView::Arr(items), (k + 2 + c - i) as nat)),
                    None => None,
                }
            } else {
                None
            },
            None => None,
        }
    } else {
        None
    }
}

/// `n` tokens one after another from `i`, and how many characters they take.
pub open spec fn parse_items(cs: Seq<char>, i: nat, n: nat) -> Option<(Seq<TokenView>, nat)>
    decreases left(cs, i), n + 1,
{
    if n == 0 {
        Some((Seq::empty(), 0))
    } else {
        match parse_token(cs, i) {
            Some((t, c)) => match parse_items(cs, i + c, (n - 1) as nat) {
                Some((rest, d)) => Some((seq![t] + rest, c + d)),
                None => None,
            },
            None => None,
        }
    }
}

/// What decoding the start of `cs` gives: a token and the number of
/// characters its wire form takes.
pub open spec fn decode(cs: Seq<char>) -> Option<(TokenView, nat)> {
    parse_token(cs, 0)
}

/// The wire forms of a sequence of tokens, one after another, taken one more
/// token at a time from the back.
proof fn lemma_encode_tokens_push(ts: Seq<TokenView>, t: TokenView)
    ensures
        encode_tokens(ts.push(t)) == encode_tokens(ts) + encode_token(t),
    decreases ts.len(),
{
    if ts.len() == 0 {
        assert(ts.push(t).drop_first() =~= Seq::<TokenView>::empty());
        assert(encode_tokens(Seq::<TokenView>::empty()) == Seq::<char>::empty());
        assert(encode_tokens(ts.push(t)) =~= encode_token(t));
        assert(encode_tokens(ts) + encode_token(t) =~= encode_token(t));
    } else {
        lemma_encode_tokens_push(ts.drop_first(), t);
        assert(ts.push(t).drop_first() =~= ts.drop_first().push(t));
        assert(encode_tokens(ts.push(t)) =~= encode_tokens(ts) + encode_token(t));
    }
}

pub proof fn lemma_tokens_view(ts: Seq<RespToken>)
    ensures
        tokens_view(ts).len() == ts.len(),
        forall|i: int| 0 <= i < ts.len() ==> #[trigger] tokens_view(ts)[i] == token_view(ts[i]),
    decreases ts.len(),
{
    if ts.len() > 0 {
        lemma_tokens_view(ts.drop_first());
        assert forall|i: int| 0 <= i < ts.len() implies #[trigger] tokens_view(ts)[i] == token_view(
            ts[i],
        ) by {
            if i > 0 {
                assert(ts.drop_first()[i - 1] == ts[i]);
            }
        }
    }
}

/// The byte count of the wire form agrees with the UTF-8 encoding that
/// `str::len` measures.
pub proof fn lemma_byte_len_utf8(cs: Seq<char>)
    ensures
        byte_len(cs) == vstd::utf8::encode_utf8(cs).len(),
    decreases cs.len(),
{
    if cs.len() > 0 {
        lemma_byte_len_utf8(cs.drop_first());
        let c = cs[0];
        vstd::utf8::char_is_scalar(c);
    }
}

fn digit_text(d: u128) -> (r: &'static str)
    requires
        d < 10,
    ensures
        r@ == seq![digit_char(d as nat)],
{
    let r = if d == 0 {
        "0"
    } else if d == 1 {
        "1"
    } else if d == 2 {
        "2"
    } else if d == 3 {
        "3"
    } else if d == 4 {
        "4"
    } else if d == 5 {
        "5"
    } else if d == 6 {
        "6"
    } else if d == 7 {
        "7"
    } else if d == 8 {
        "8"
    } else {
        "9"
    };
    proof {
        reveal_strlit("0");
        reveal_strlit("1");
        reveal_strlit("2");
        reveal_strlit("3");
        reveal_strlit("4");
        reveal_strlit("5");
        reveal_strlit("6");
        reveal_strlit("7");
        reveal_strlit("8");
        reveal_strlit("9");
        assert(r@ =~= seq![digit_char(d as nat)]);
    }
    r
}

/// Appends the decimal digits of `n`.
fn push_decimal(out: &mut String, n: u128)
    ensures
        final(out)@ == old(out)@ + decimal(n as nat),
    decreases n,
{
    if n >= 10 {
        push_decimal(out, n / 10);
    }
    out.append(digit_text(n % 10));
    proof {
        assert(final(out)@ =~= old(out)@ + decimal(n as nat));
    }
}

proof fn lemma_byte_len_push(cs: Seq<char>, c: char)
    ensures
        byte_len(cs.push(c)) == byte_len(cs) + char_width(c),
    decreases cs.len(),
{
    assert(byte_len(Seq::<char>::empty()) == 0);
    if cs.len() == 0 {
        assert(cs.push(c).drop_first() =~= Seq::<char>::empty());
        assert(byte_len(cs.push(c)) == char_width(c) + byte_len(cs.push(c).drop_first()));
    } else {
        lemma_byte_len_push(cs.drop_first(), c);
        assert(cs.push(c)[0] == cs[0]);
        assert(cs.push(c).drop_first() =~= cs.drop_first().push(c));
    }
}

fn width_of(c: char) -> (r: usize)
    ensures
        r == char_width(c),
{
    let u = c as u32;
    if u < 0x80 {
        1
    } else if u < 0x800 {
        2
    } else if u < 0x10000 {
        3
    } else {
        4
    }
}

/// Number of bytes in the UTF-8 encoding of `s`.
fn utf8_len(s: &str) -> (r: u128)
    ensures
        r == byte_len(s@),
        r == s.spec_bytes().len(),
{
    proof {
        lemma_byte_len_utf8(s@);
    }
    let count = s.unicode_len();
    let mut total: u128 = 0;
    for c in it: s.chars()
        invariant
            it.seq() == s@,
            count == s@.len(),
            total == byte_len(s@.take(it.index() as int)),
            total <= 4 * it.index(),
    {
        proof {
            lemma_byte_len_push(s@.take(it.index() as int), c);
            assert(s@.take(it.index() as int).push(c) =~= s@.take(it.index() as int + 1));
        }
        total = total + width_of(c) as u128;
    }
    proof {
        assert(s@.take(s@.len() as int) =~= s@);
    }
    total
}

fn push_text(out: &mut String, s: &str)
    ensures
        final(out)@ == old(out)@ + s@,
{
    out.append(s);
}

impl RespToken {
    /// Appends the canonical wire form of this token.
    pub fn encode_into(&self, out: &mut String)
        ensures
            final(out)@ == old(out)@ + encode_token(self@),
        decreases self@,
    {
        proof {
            reveal_strlit("\r\n");
            reveal_strlit("$-1\r\n");
            reveal_strlit("+");
            reveal_strlit("-");
            reveal_strlit("$");
            reveal_strlit(":");
            reveal_strlit("*");
        }
        match self {
            RespToken::SimpleString(s) => {
                push_text(out, "+");
                push_text(out, s.as_str());
                push_text(out, "\r\n");
            },
            RespToken::SimpleError(s) => {
                push_text(out, "-");
                push_text(out, s.as_str());
                push_text(out, "\r\n");
            },
            RespToken::BulkString(s) => {
                let n = utf8_len(s.as_str());
                push_text(out, "$");
                push_decimal(out, n);
                push_text(out, "\r\n");
                push_text(out, s.as_str());
                push_text(out, "\r\n");
            },
            RespToken::NullBulkString => {
                push_text(out, "$-1\r\n");
            },
            RespToken::Integer(i) => {
                push_text(out, ":");
                if *i < 0 {
                    push_text(out, "-");
                    push_decimal(out, (-(*i as i128)) as u128);
                } else {
                    push_decimal(out, *i as u128);
                }
                push_text(out, "\r\n");
            },
            RespToken::Array(items) => {
                push_text(out, "*");
                push_decimal(out, items.len() as u128);
                push_text(out, "\r\n");
                let ghost start = out@;
                proof {
                    lemma_tokens_view(items@);
                    assert(self@ == TokenView::Arr(tokens_view(items@)));
                    assert(start =~= old(out)@ + seq!['*'] + decimal(items.len() as nat) + crlf());
                }
                let mut i: usize = 0;
                while i < items.len()
                    invariant
                        i <= items.len(),
                        self@ == TokenView::Arr(tokens_view(items@)),
                        start == old(out)@ + seq!['*'] + decimal(items.len() as nat) + crlf(),
                        out@ == start + encode_tokens(tokens_view(items@).take(i as int)),
                        tokens_view(items@).len() == items.len(),
                        forall|j: int|
                            0 <= j < items.len() ==> #[trigger] tokens_view(items@)[j]
                                == token_view(items@[j]),
                    decreases items.len() - i,
                {
                    proof {
                        let tv = tokens_view(items@);
                        assert(decreases_to!(self@ => self@->Arr_0));
                        assert(decreases_to!(tv => tv[i as int]));
                    }
                    items[i].encode_into(out);
                    proof {
                        let tv = tokens_view(items@);
                        lemma_encode_tokens_push(tv.take(i as int), tv[i as int]);
                        assert(tv.take(i as int).push(tv[i as int]) =~= tv.take(i as int + 1));
                    }
                    i = i + 1;
                }
                proof {
                    assert(tokens_view(items@).take(i as int) =~= tokens_view(items@));
                    assert(out@ =~= old(out)@ + encode_token(self@));
                }
            },
        }
        proof {
            assert(out@ =~= old(out)@ + encode_token(self@));
        }
    }

    /// The canonical wire form of this token.
    pub fn encode(&self) -> (r: String)
        ensures
            r@ == encode_token(self@),
    {
        let mut out = String::new();
        self.encode_into(&mut out);
        proof {
            assert(out@ =~= encode_token(self@));
        }
        out
    }
}

/// The mathematical value of a decoder's result.
pub open spec fn parsed(r: Option<(RespToken, usize)>) -> Option<(TokenView, nat)> {
    match r {
        Some((t, c)) => Some((t@, c as nat)),
        None => None,
    }
}

fn chars_of(s: &str) -> (r: Vec<char>)
    ensures
        r@ == s@,
{
    let mut out: Vec<char> = Vec::new();
    for c in it: s.chars()
        invariant
            out@ == it.seq().take(it.index() as int),
            it.seq() == s@,
    {
        out.push(c);
    }
    out
}

fn is_digit_char(c: char) -> (r: bool)
    ensures
        r == is_digit(c),
{
    '0' <= c && c <= '9'
}

fn has_crlf_at(cs: &Vec<char>, k: usize) -> (r: bool)
    ensures
        r == crlf_at(cs@, k as int),
{
    k < cs.len() && cs.len() - k >= 2 && cs[k] == '\r' && cs[k + 1] == '\n'
}

/// Reads a run of digits at `i` whose value is at most `bound`.
fn read_unsigned(cs: &Vec<char>, i: usize, bound: u64) -> (r: Option<(u64, usize)>)
    requires
        i <= cs.len(),
    ensures
        r is Some <==> (unsigned_at(cs@, i as nat) matches Some((n, _)) && n <= bound),
        r matches Some((v, k)) ==> unsigned_at(cs@, i as nat) == Some((v as nat, k as nat)),
{
    let mut p = i;
    let mut v: u64 = 0;
    let mut over = false;
    while p < cs.len() && is_digit_char(cs[p])
        invariant
            i <= p <= cs.len(),
            digits_end(cs@, i as nat) == digits_end(cs@, p as nat),
            !over ==> v == digits_value(cs@, i as nat, p as nat) && v <= bound,
            over ==> digits_value(cs@, i as nat, p as nat) > bound,
        decreases cs.len() - p,
    {
        let d = (cs[p] as u32 - 48) as u64;
        if !over {
            let w = v as u128 * 10 + d as u128;
            if w > bound as u128 {
                over = true;
            } else {
                v = w as u64;
            }
        }
        p = p + 1;
    }
    if p == i || over {
        None
    } else {
        Some((v, p))
    }
}

/// The first position at or after `i` that holds a CR or an LF, or the end.
fn find_line_end(cs: &Vec<char>, i: usize) -> (r: usize)
    requires
        i <= cs.len(),
    ensures
        r == line_end(cs@, i as nat),
        i <= r <= cs.len(),
{
    let mut p = i;
    while p < cs.len() && cs[p] != '\r' && cs[p] != '\n'
        invariant
            i <= p <= cs.len(),
            line_end(cs@, i as nat) == line_end(cs@, p as nat),
        decreases cs.len() - p,
    {
        p = p + 1;
    }
    p
}

/// The position after exactly `n` bytes of encoded text from `k`.
fn skip_bytes(cs: &Vec<char>, k: usize, n: usize) -> (r: Option<usize>)
    requires
        k <= cs.len(),
    ensures
        r matches Some(e) ==> k <= e <= cs.len(),
        parsed_position(r) == bytes_end(cs@, k as nat, n as nat),
{
    let mut p = k;
    let mut rem = n;
    while rem > 0
        invariant
            k <= p <= cs.len(),
            bytes_end(cs@, k as nat, n as nat) == bytes_end(cs@, p as nat, rem as nat),
        decreases rem,
    {
        if p >= cs.len() {
            return None;
        }
        let w = width_of(cs[p]);
        if w > rem {
            return None;
        }
        rem = rem - w;
        p = p + 1;
    }
    Some(p)
}

pub open spec fn parsed_position(r: Option<usize>) -> Option<nat> {
    match r {
        Some(e) => Some(e as nat),
        None => None,
    }
}

/// The text between two character positions of `s`.
fn text_between(s: &str, from: usize, to: usize) -> (r: String)
    requires
        from <= to <= s@.len(),
    ensures
        r@ == s@.subrange(from as int, to as int),
{
    s.substring_char(from, to).to_owned()
}

fn parse_bulk(s: &str, cs: &Vec<char>, i: usize) -> (r: Option<(RespToken, usize)>)
    requires
        cs@ == s@,
        i < cs.len(),
    ensures
        parsed(r) == bulk_at(cs@, i as nat),
        r matches Some((_, c)) ==> i + c <= cs.len(),
{
    proof {
        lemma_digits_end(cs@, i as nat + 1);
    }
    match read_unsigned(cs, i + 1, usize::MAX as u64) {
        Some((n, k)) => {
            if !has_crlf_at(cs, k) {
                return None;
            }
            match skip_bytes(cs, k + 2, n as usize) {
                Some(e) => {
                    if !has_crlf_at(cs, e) {
                        return None;
                    }
                    let text = text_between(s, k + 2, e);
                    Some((RespToken::BulkString(text), e + 2 - i))
                },
                None => None,
            }
        },
        None => None,
    }
}

fn parse_integer(cs: &Vec<char>, i: usize) -> (r: Option<(RespToken, usize)>)
    requires
        i < cs.len(),
    ensures
        parsed(r) == integer_at(cs@, i as nat),
        r matches Some((_, c)) ==> i + c <= cs.len(),
{
    let neg = cs.len() - i > 1 && cs[i + 1] == '-';
    let start = if neg {
        i + 2
    } else {
        i + 1
    };
    let bound: u64 = if neg {
        0x8000_0000_0000_0000
    } else {
        0x7fff_ffff_ffff_ffff
    };
    proof {
        lemma_digits_end(cs@, start as nat);
    }
    match read_unsigned(cs, start, bound) {
        Some((m, k)) => {
            if !has_crlf_at(cs, k) {
                return None;
            }
            let v: i64 = if neg {
                (-(m as i128)) as i64
            } else {
                m as i64
            };
            Some((RespToken::Integer(v), k + 2 - i))
        },
        None => None,
    }
}

fn is_null_at(cs: &Vec<char>, i: usize) -> (r: bool)
    requires
        i <= cs.len(),
    ensures
        r == null_at(cs@, i as nat),
{
    if cs.len() - i >= 5 && cs[i] == '$' && cs[i + 1] == '-' && cs[i + 2] == '1' && cs[i + 3]
        == '\r' && cs[i + 4] == '\n' {
        proof {
            assert(cs@.subrange(i as int, i + 5int) =~= seq!['$', '-', '1', '\r', '\n']);
        }
        true
    } else {
        proof {
            if i + 5 <= cs.len() {
                let w = cs@.subrange(i as int, i + 5int);
                if w == seq!['$', '-', '1', '\r', '\n'] {
                    assert(w[0] == cs@[i as int]);
                    assert(w[1] == cs@[i + 1]);
                    assert(w[2] == cs@[i + 2]);
                    assert(w[3] == cs@[i + 3]);
                    assert(w[4] == cs@[i + 4]);
                }
            }
        }
        false
    }
}

fn parse_token_at(s: &str, cs: &Vec<char>, i: usize) -> (r: Option<(RespToken, usize)>)
    requires
        cs@ == s@,
        i <= cs.len(),
    ensures
        parsed(r) == parse_token(cs@, i as nat),
        r matches Some((_, c)) ==> i + c <= cs.len(),
    decreases left(cs@, i as nat), 0nat,
{
    if i >= cs.len() {
        return None;
    }
    let c = cs[i];
    if c == '+' {
        let j = find_line_end(cs, i + 1);
        if j > i + 1 && has_crlf_at(cs, j) {
            let text = text_between(s, i + 1, j);
            Some((RespToken::SimpleString(text), j + 2 - i))
        } else {
            None
        }
    } else if c == '$' {
        match parse_bulk(s, cs, i) {
            Some(r) => Some(r),
            None => if is_null_at(cs, i) {
                Some((RespToken::NullBulkString, 5))
            } else {
                None
            },
        }
    } else if c == ':' {
        parse_integer(cs, i)
    } else if c == '*' {
        proof {
            lemma_digits_end(cs@, i as nat + 1);
        }
        match read_unsigned(cs, i + 1, usize::MAX as u64) {
            Some((n, k)) => {
                if !has_crlf_at(cs, k) {
                    return None;
                }
                match parse_items_at(s, cs, k + 2, n as usize) {
                    Some((items, used)) => Some((RespToken::Array(items), k + 2 + used - i)),
                    None => None,
                }
            },
            None => None,
        }
    } else {
        None
    }
}

fn parse_items_at(s: &str, cs: &Vec<char>, i: usize, n: usize) -> (r: Option<(Vec<RespToken>, usize)>)
    requires
        cs@ == s@,
        i <= cs.len(),
    ensures
        match r {
            Some((items, c)) => parse_items(cs@, i as nat, n as nat) == Some((tokens_view(items@), c as nat)),
            None => parse_items(cs@, i as nat, n as nat) is None,
        },
        r matches Some((_, c)) ==> i + c <= cs.len(),
    decreases left(cs@, i as nat), n + 1,
{
    let mut items: Vec<RespToken> = Vec::new();
    let mut pos = i;
    let mut m: usize = 0;
    while m < n
        invariant
            cs@ == s@,
            i <= pos <= cs.len(),
            m <= n,
            parse_items(cs@, i as nat, n as nat) == match parse_items(cs@, pos as nat, (n - m) as nat) {
                Some((rest, d)) => Some((tokens_view(items@) + rest, ((pos - i) + d) as nat)),
                None => None::<(Seq<TokenView>, nat)>,
            },
        decreases n - m,
    {
        match parse_token_at(s, cs, pos) {
            Some((t, c)) => {
                proof {
                    lemma_tokens_view(items@);
                    lemma_tokens_view(items@.push(t));
                    assert(tokens_view(items@.push(t)) =~= tokens_view(items@) + seq![t@]);
                    assert forall|rest: Seq<TokenView>|
                        #![auto]
                        tokens_view(items@) + (seq![t@] + rest) =~= tokens_view(items@.push(t))
                            + rest by {}
                }
                items.push(t);
                pos = pos + c;
                m = m + 1;
            },
            None => {
                return None;
            },
        }
    }
    proof {
        assert(tokens_view(items@) + Seq::<TokenView>::empty() =~= tokens_view(items@));
    }
    Some((items, pos - i))
}

/// Decodes the token at the start of `s`, and returns the text that follows
/// it together with the token.
pub fn tokenize(s: &str) -> (r: Result<(&str, RespToken), ParseError>)
    ensures
        match decode(s@) {
            Some((t, c)) => r matches Ok((rest, tok)) && tok@ == t && rest@ == s@.subrange(
                c as int,
                s@.len() as int,
            ),
            None => r is Err,
        },
{
    let cs = chars_of(s);
    match parse_token_at(s, &cs, 0) {
        Some((t, c)) => {
            let rest = s.substring_char(c, cs.len());
            Ok((rest, t))
        },
        None => Err(ParseError),
    }
}

/// Tokens whose wire form the decoder reads back: no simple error (the
/// decoder has no rule for it), simple strings of one or more characters
/// without CR or LF, and counts that fit in a machine word.
pub open spec fn decodable(t: TokenView) -> bool
    decreases t,
{
    match t {
        TokenView::Simple(s) => s.len() > 0 && forall|k: int|
            0 <= k < s.len() ==> #[trigger] s[k] != '\r' && s[k] != '\n',
        TokenView::Error(_) => false,
        TokenView::Bulk(s) => byte_len(s) <= usize::MAX,
        TokenView::NullBulk => true,
        TokenView::Int(i) => i64::MIN <= i && i <= i64::MAX,
        TokenView::Arr(items) => items.len() <= usize::MAX && forall|k: int|
            0 <= k < items.len() ==> decodable(#[trigger] items[k]),
    }
}

proof fn lemma_split(cs: Seq<char>, i: int, a: Seq<char>, b: Seq<char>)
    requires
        0 <= i,
        i + a.len() + b.len() <= cs.len(),
        cs.subrange(i, i + a.len() + b.len()) == a + b,
    ensures
        cs.subrange(i, i + a.len()) == a,
        cs.subrange(i + a.len(), i + a.len() + b.len()) == b,
{
    assert(cs.subrange(i, i + a.len()) =~= a) by {
        assert forall|k: int| 0 <= k < a.len() implies cs.subrange(i, i + a.len())[k] == a[k] by {
            assert(cs.subrange(i, i + a.len() + b.len())[k] == (a + b)[k]);
        }
    }
    assert(cs.subrange(i + a.len(), i + a.len() + b.len()) =~= b) by {
        assert forall|k: int| 0 <= k < b.len() implies cs.subrange(
            i + a.len(),
            i + a.len() + b.len(),
        )[k] == b[k] by {
            assert(cs.subrange(i, i + a.len() + b.len())[a.len() + k] == (a + b)[a.len() + k]);
            assert((a + b)[a.len() + k] == b[k]);
            assert(cs.subrange(i + a.len(), i + a.len() + b.len())[k] == cs[i + a.len() + k]);
            assert(cs.subrange(i, i + a.len() + b.len())[a.len() + k] == cs[i + a.len() + k]);
        }
    }
}

proof fn lemma_at(cs: Seq<char>, i: int, a: Seq<char>, k: int)
    requires
        0 <= i,
        i + a.len() <= cs.len(),
        cs.subrange(i, i + a.len()) == a,
        0 <= k < a.len(),
    ensures
        cs[i + k] == a[k],
{
    assert(cs.subrange(i, i + a.len())[k] == cs[i + k]);
}

proof fn lemma_decimal_digits(n: nat)
    ensures
        decimal(n).len() > 0,
        forall|k: int| 0 <= k < decimal(n).len() ==> is_digit(#[trigger] decimal(n)[k]),
    decreases n,
{
    if n >= 10 {
        lemma_decimal_digits(n / 10);
        assert forall|k: int| 0 <= k < decimal(n).len() implies is_digit(
            #[trigger] decimal(n)[k],
        ) by {
            if k < decimal(n / 10).len() {
                assert(decimal(n)[k] == decimal(n / 10)[k]);
            }
        }
    }
}

proof fn lemma_digits_value(cs: Seq<char>, i: nat, n: nat)
    requires
        i + decimal(n).len() <= cs.len(),
        cs.subrange(i as int, i + decimal(n).len() as int) == decimal(n),
    ensures
        digits_value(cs, i, i + decimal(n).len()) == n,
    decreases n,
{
    let d = decimal(n);
    let j = (i + d.len()) as nat;
    if n < 10 {
        lemma_at(cs, i as int, d, 0);
        assert(digits_value(cs, i, i) == 0);
    } else {
        lemma_split(cs, i as int, decimal(n / 10), seq![digit_char(n % 10)]);
        lemma_digits_value(cs, i, n / 10);
        lemma_at(cs, i as int, d, d.len() - 1);
    }
}

proof fn lemma_digits_end_over(cs: Seq<char>, i: nat, j: nat)
    requires
        i <= j <= cs.len(),
        forall|k: int| i <= k < j ==> is_digit(#[trigger] cs[k]),
        j < cs.len() ==> !is_digit(cs[j as int]),
    ensures
        digits_end(cs, i) == j,
    decreases j - i,
{
    if i < j {
        lemma_digits_end_over(cs, i + 1, j);
    }
}

/// A decimal at `i` followed by a non-digit reads as its value.
proof fn lemma_unsigned_decimal(cs: Seq<char>, i: nat, n: nat)
    requires
        i + decimal(n).len() < cs.len(),
        cs.subrange(i as int, i + decimal(n).len() as int) == decimal(n),
        !is_digit(cs[i + decimal(n).len() as int]),
    ensures
        unsigned_at(cs, i) == Some((n, (i + decimal(n).len()) as nat)),
{
    let d = decimal(n);
    lemma_decimal_digits(n);
    assert forall|k: int| i <= k < i + d.len() implies is_digit(#[trigger] cs[k]) by {
        lemma_at(cs, i as int, d, k - i);
    }
    lemma_digits_end_over(cs, i, (i + d.len()) as nat);
    lemma_digits_value(cs, i, n);
}

proof fn lemma_line_end_over(cs: Seq<char>, i: nat, j: nat)
    requires
        i <= j < cs.len(),
        forall|k: int| i <= k < j ==> #[trigger] cs[k] != '\r' && cs[k] != '\n',
        cs[j as int] == '\r',
    ensures
        line_end(cs, i) == j,
    decreases j - i,
{
    if i < j {
        lemma_line_end_over(cs, i + 1, j);
    }
}

proof fn lemma_bytes_end_over(cs: Seq<char>, k: nat, e: nat)
    requires
        k <= e <= cs.len(),
    ensures
        bytes_end(cs, k, byte_len(cs.subrange(k as int, e as int))) == Some(e),
    decreases e - k,
{
    let sub = cs.subrange(k as int, e as int);
    if k < e {
        lemma_bytes_end_over(cs, k + 1, e);
        assert(sub.drop_first() =~= cs.subrange(k + 1int, e as int));
        assert(sub[0] == cs[k as int]);
    } else {
        assert(sub.len() == 0);
    }
}

proof fn lemma_parse_encoded(cs: Seq<char>, i: nat, t: TokenView)
    requires
        decodable(t),
        i + encode_token(t).len() <= cs.len(),
        cs.subrange(i as int, i + encode_token(t).len() as int) == encode_token(t),
    ensures
        parse_token(cs, i) == Some((t, encode_token(t).len())),
    decreases t, 0nat,
{
    let e = encode_token(t);
    lemma_at(cs, i as int, e, 0);
    match t {
        TokenView::Simple(s) => {
            lemma_split(cs, i as int, seq!['+'] + s, crlf());
            lemma_split(cs, i as int, seq!['+'], s);
            lemma_at(cs, i + 1 + s.len() as int, crlf(), 0);
            lemma_at(cs, i + 1 + s.len() as int, crlf(), 1);
            assert forall|k: int| i + 1 <= k < i + 1 + s.len() implies #[trigger] cs[k] != '\r'
                && cs[k] != '\n' by {
                lemma_at(cs, i + 1int, s, k - i - 1);
            }
            lemma_line_end_over(cs, i + 1, (i + 1 + s.len()) as nat);
        },
        TokenView::Error(_) => {},
        TokenView::Bulk(s) => {
            let d = decimal(byte_len(s));
            let k: int = i + 1 + d.len() as int;
            lemma_split(cs, i as int, seq!['$'] + d + crlf() + s, crlf());
            lemma_split(cs, i as int, seq!['$'] + d + crlf(), s);
            lemma_split(cs, i as int, seq!['$'] + d, crlf());
            lemma_split(cs, i as int, seq!['$'], d);
            lemma_at(cs, k, crlf(), 0);
            lemma_at(cs, k, crlf(), 1);
            lemma_at(cs, k + 2 + s.len(), crlf(), 0);
            lemma_at(cs, k + 2 + s.len(), crlf(), 1);
            lemma_unsigned_decimal(cs, i + 1, byte_len(s));
            lemma_bytes_end_over(cs, (k + 2) as nat, (k + 2 + s.len()) as nat);
        },
        TokenView::NullBulk => {
            lemma_at(cs, i as int, e, 1);
            lemma_digits_end_over(cs, i + 1, i + 1);
        },
        TokenView::Int(v) => {
            let d = signed_decimal(v);
            lemma_split(cs, i as int, seq![':'] + d, crlf());
            lemma_split(cs, i as int, seq![':'], d);
            lemma_at(cs, i + 1 + d.len() as int, crlf(), 0);
            lemma_at(cs, i + 1 + d.len() as int, crlf(), 1);
            if v < 0 {
                let m = decimal((-v) as nat);
                lemma_split(cs, i + 1int, seq!['-'], m);
                lemma_at(cs, i + 1int, d, 0);
                lemma_unsigned_decimal(cs, i + 2, (-v) as nat);
            } else {
                lemma_decimal_digits(v as nat);
                lemma_at(cs, i + 1int, d, 0);
                lemma_unsigned_decimal(cs, i + 1, v as nat);
            }
        },
        TokenView::Arr(items) => {
            let d = decimal(items.len());
            let k: int = i + 1 + d.len() as int;
            let body = encode_tokens(items);
            lemma_split(cs, i as int, seq!['*'] + d + crlf(), body);
            lemma_split(cs, i as int, seq!['*'] + d, crlf());
            lemma_split(cs, i as int, seq!['*'], d);
            lemma_at(cs, k, crlf(), 0);
            lemma_at(cs, k, crlf(), 1);
            lemma_unsigned_decimal(cs, i + 1, items.len());
            lemma_parse_encoded_items(cs, (k + 2) as nat, items);
        },
    }
}

proof fn lemma_parse_encoded_items(cs: Seq<char>, i: nat, ts: Seq<TokenView>)
    requires
        forall|k: int| 0 <= k < ts.len() ==> decodable(#[trigger] ts[k]),
        i + encode_tokens(ts).len() <= cs.len(),
        cs.subrange(i as int, i + encode_tokens(ts).len() as int) == encode_tokens(ts),
    ensures
        parse_items(cs, i, ts.len()) == Some((ts, encode_tokens(ts).len())),
    decreases ts, 1nat,
{
    if ts.len() > 0 {
        let first = encode_token(ts[0]);
        let rest = encode_tokens(ts.drop_first());
        lemma_split(cs, i as int, first, rest);
        lemma_parse_encoded(cs, i, ts[0]);
        assert(decreases_to!(ts => ts.drop_first()));
        lemma_parse_encoded_items(cs, i + first.len(), ts.drop_first());
        assert(seq![ts[0]] + ts.drop_first() =~= ts);
    }
}

/// Decoding the canonical wire form of a token gives that token back and
/// consumes exactly its wire form, whatever text follows it; with nothing
/// after it, nothing is left over.
pub proof fn lemma_round_trip(t: RespToken, rest: Seq<char>)
    requires
        decodable(t@),
    ensures
        decode(encode_token(t@) + rest) == Some((t@, encode_token(t@).len())),
{
    let cs = encode_token(t@) + rest;
    assert(cs.subrange(0, encode_token(t@).len() as int) =~= encode_token(t@));
    lemma_parse_encoded(cs, 0, t@);
}

} // verus!
