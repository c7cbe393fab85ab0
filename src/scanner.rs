use crate::number::{ExtRatio, Number, Ratio};
use crate::token::{Literal, Token, TokenType, TokenView, Value};
use vstd::prelude::*;

verus! {

/// A lexical error as mathematics sees it: the line and the message.
pub type LexErrorView = (u32, Seq<char>);

/// A lexical error: the line it was found on and a message.
#[derive(Debug, Clone)]
pub struct LexError {
    pub line: u32,
    pub message: String,
}

impl View for LexError {
    type V = LexErrorView;

    open spec fn view(&self) -> LexErrorView {
        (self.line, self.message@)
    }
}

/// Whether the character has the Unicode Alphabetic property.
pub uninterp spec fn alphabetic_of(c: char) -> bool;

/// Whether the character is alphabetic or numeric in Unicode's sense.
pub uninterp spec fn alphanumeric_of(c: char) -> bool;

/// Relies on char::is_alphabetic: the answer depends on the character alone.
#[verifier::external_body]
fn char_is_alphabetic(c: char) -> (r: bool)
    ensures
        r == alphabetic_of(c),
{
    c.is_alphabetic()
}

/// Relies on char::is_alphanumeric: the answer depends on the character alone.
#[verifier::external_body]
fn char_is_alphanumeric(c: char) -> (r: bool)
    ensures
        r == alphanumeric_of(c),
{
    c.is_alphanumeric()
}

pub open spec fn is_digit(c: char) -> bool {
    '0' <= c <= '9'
}

pub open spec fn is_ascii_letter(c: char) -> bool {
    'a' <= c <= 'z' || 'A' <= c <= 'Z'
}

/// The characters that start an identifier.
pub open spec fn is_alpha(c: char) -> bool {
    if (c as u32) < 128 {
        is_ascii_letter(c)
    } else {
        alphabetic_of(c)
    }
}

/// The characters that continue an identifier.
pub open spec fn is_alnum(c: char) -> bool {
    if (c as u32) < 128 {
        is_ascii_letter(c) || is_digit(c)
    } else {
        alphanumeric_of(c)
    }
}

/// The length of the longest prefix of `s` made of digits.
pub open spec fn digit_run(s: Seq<char>) -> nat
    decreases s.len(),
{
    if s.len() > 0 && is_digit(s[0]) {
        1 + digit_run(s.drop_first())
    } else {
        0
    }
}

/// The length of the longest prefix of `s` made of identifier characters.
pub open spec fn alnum_run(s: Seq<char>) -> nat
    decreases s.len(),
{
    if s.len() > 0 && is_alnum(s[0]) {
        1 + alnum_run(s.drop_first())
    } else {
        0
    }
}

/// The number of characters of `s` before the first `c`, or its length.
pub open spec fn upto_len(s: Seq<char>, c: char) -> nat
    decreases s.len(),
{
    if s.len() > 0 && s[0] != c {
        1 + upto_len(s.drop_first(), c)
    } else {
        0
    }
}

/// The number of newlines in `s`.
pub open spec fn newlines(s: Seq<char>) -> nat
    decreases s.len(),
{
    if s.len() == 0 {
        0
    } else {
        newlines(s.drop_last()) + if s.last() == '\n' {
            1nat
        } else {
            0nat
        }
    }
}

/// The value of a string of decimal digits.
pub open spec fn digits_value(s: Seq<char>) -> int
    decreases s.len(),
{
    if s.len() == 0 {
        0
    } else {
        digits_value(s.drop_last()) * 10 + (s.last() as int - '0' as int)
    }
}

pub open spec fn pow10(n: nat) -> int
    decreases n,
{
    if n == 0 {
        1
    } else {
        10 * pow10((n - 1) as nat)
    }
}

/// The kind of a reserved word, if `text` is one.
pub open spec fn keyword(text: Seq<char>) -> Option<TokenType> {
    if text == "and"@ {
        Some(TokenType::And)
    } else if text == "class"@ {
        Some(TokenType::Class)
    } else if text == "else"@ {
        Some(TokenType::Else)
    } else if text == "false"@ {
        Some(TokenType::False)
    } else if text == "for"@ {
        Some(TokenType::For)
    } else if text == "fun"@ {
        Some(TokenType::Fun)
    } else if text == "if"@ {
        Some(TokenType::If)
    } else if text == "nil"@ {
        Some(TokenType::Nil)
    } else if text == "or"@ {
        Some(TokenType::Or)
    } else if text == "print"@ {
        Some(TokenType::Print)
    } else if text == "return"@ {
        Some(TokenType::Return)
    } else if text == "super"@ {
        Some(TokenType::Super)
    } else if text == "this"@ {
        Some(TokenType::This)
    } else if text == "true"@ {
        Some(TokenType::True)
    } else if text == "var"@ {
        Some(TokenType::Var)
    } else if text == "while"@ {
        Some(TokenType::While)
    } else {
        None
    }
}

/// The kind of a one-character token.
pub open spec fn single_kind(c: char) -> Option<TokenType> {
    match c {
        '(' => Some(TokenType::LeftParen),
        ')' => Some(TokenType::RightParen),
        '{' => Some(TokenType::LeftBrace),
        '}' => Some(TokenType::RightBrace),
        ',' => Some(TokenType::Comma),
        '.' => Some(TokenType::Dot),
        '-' => Some(TokenType::Minus),
        '+' => Some(TokenType::Plus),
        ';' => Some(TokenType::SemiColon),
        '*' => Some(TokenType::Star),
        _ => None,
    }
}

/// The kinds of an operator that may be followed by `=`: alone, and with `=`.
pub open spec fn pair_kinds(c: char) -> Option<(TokenType, TokenType)> {
    match c {
        '!' => Some((TokenType::Bang, TokenType::BangEqual)),
        '=' => Some((TokenType::Equal, TokenType::EqualEqual)),
        '<' => Some((TokenType::Less, TokenType::LessEqual)),
        '>' => Some((TokenType::Greater, TokenType::GreaterEqual)),
        _ => None,
    }
}

pub open spec fn unexpected_message() -> Seq<char> {
    "Unexpected character."@
}

pub open spec fn unterminated_message() -> Seq<char> {
    "Unterminated string."@
}

/// What scanning one lexeme at the start of `rest` gives: the characters
/// consumed, the line afterwards, the token made and the error reported.
pub struct Step {
    pub len: nat,
    pub line: int,
    pub token: Option<TokenView>,
    pub error: Option<LexErrorView>,
}

pub open spec fn token_at(kind: TokenType, text: Seq<char>, literal: Value, line: int) -> TokenView {
    TokenView { token_type: kind, lexeme: text, literal: Some(literal), line: line as u32 }
}

pub open spec fn emit(rest: Seq<char>, len: nat, kind: TokenType, line: int) -> Step {
    Step {
        len,
        line,
        token: Some(token_at(kind, rest.subrange(0, len as int), Value::Nil, line)),
        error: None,
    }
}

pub open spec fn skip(len: nat, line: int) -> Step {
    Step { len, line, token: None, error: None }
}

/// A string literal at the start of `rest`.
pub open spec fn string_step(rest: Seq<char>, line: int) -> Step {
    let k = upto_len(rest.drop_first(), '"') as int;
    if k + 1 >= rest.len() {
        let end = line + newlines(rest.drop_first());
        Step {
            len: rest.len(),
            line: end,
            token: None,
            error: Some((end as u32, unterminated_message())),
        }
    } else {
        let end = line + newlines(rest.subrange(1, k + 1));
        Step {
            len: (k + 2) as nat,
            line: end,
            token: Some(
                token_at(
                    TokenType::String,
                    rest.subrange(0, k + 2),
                    Value::Str(rest.subrange(1, k + 1)),
                    end,
                ),
            ),
            error: None,
        }
    }
}

/// The length, whole digits and fraction digits of the number literal at
/// the start of `rest`: digits, then a fraction only where a digit follows
/// the point.
pub open spec fn number_parts(rest: Seq<char>) -> (nat, Seq<char>, Seq<char>) {
    let whole = digit_run(rest) as int;
    let has_fraction = whole + 1 < rest.len() && rest[whole as int] == '.' && is_digit(
        rest[whole + 1],
    );
    if has_fraction {
        let len = whole + 1 + digit_run(rest.subrange(whole + 1, rest.len() as int));
        (len as nat, rest.subrange(0, whole), rest.subrange(whole + 1, len))
    } else {
        (whole as nat, rest.subrange(0, whole), Seq::empty())
    }
}

/// How many leading fraction digits are kept, counting on from `k`: each
/// further digit is kept while numerator and denominator still fit in an
/// `i64`.
pub open spec fn kept_digits(whole: Seq<char>, frac: Seq<char>, k: nat) -> nat
    decreases frac.len() - k,
{
    if k < frac.len() && digits_value(whole + frac.subrange(0, k as int + 1)) <= i64::MAX && pow10(
        k + 1,
    ) <= i64::MAX {
        kept_digits(whole, frac, k + 1)
    } else {
        k
    }
}

/// The number a literal with digits `whole` and fraction digits `frac`
/// stands for: exact where it fits, else with the fraction cut short; a
/// whole part beyond `i64` is infinite.
pub open spec fn literal_number(whole: Seq<char>, frac: Seq<char>) -> ExtRatio {
    if digits_value(whole) > i64::MAX {
        ExtRatio::PosInf
    } else {
        let k = kept_digits(whole, frac, 0);
        ExtRatio::Finite(Ratio { num: digits_value(whole + frac.subrange(0, k as int)), den: pow10(k) })
    }
}

/// A number literal at the start of `rest`.
pub open spec fn number_step(rest: Seq<char>, line: int) -> Step {
    let (len, whole, frac) = number_parts(rest);
    Step {
        len,
        line,
        token: Some(
            token_at(
                TokenType::Number,
                rest.subrange(0, len as int),
                Value::Num(literal_number(whole, frac)),
                line,
            ),
        ),
        error: None,
    }
}

/// An identifier or reserved word at the start of `rest`.
pub open spec fn word_step(rest: Seq<char>, line: int) -> Step {
    let len = 1 + alnum_run(rest.drop_first());
    let text = rest.subrange(0, len as int);
    let kind = match keyword(text) {
        Some(k) => k,
        None => TokenType::Identifier,
    };
    emit(rest, len, kind, line)
}

/// Scanning the lexeme at the start of a non-empty `rest`.
pub open spec fn step(rest: Seq<char>, line: int) -> Step {
    let c = rest[0];
    if single_kind(c) is Some {
        emit(rest, 1, single_kind(c)->Some_0, line)
    } else if pair_kinds(c) is Some {
        if rest.len() > 1 && rest[1] == '=' {
            emit(rest, 2, pair_kinds(c)->Some_0.1, line)
        } else {
            emit(rest, 1, pair_kinds(c)->Some_0.0, line)
        }
    } else if c == '/' {
        if rest.len() > 1 && rest[1] == '/' {
            skip(2 + upto_len(rest.subrange(2, rest.len() as int), '\n'), line)
        } else {
            emit(rest, 1, TokenType::Slash, line)
        }
    } else if c == ' ' || c == '\r' || c == '\t' {
        skip(1, line)
    } else if c == '\n' {
        skip(1, line + 1)
    } else if c == '"' {
        string_step(rest, line)
    } else if is_digit(c) {
        number_step(rest, line)
    } else if is_alpha(c) {
        word_step(rest, line)
    } else {
        Step { len: 1, line, token: None, error: Some((line as u32, unexpected_message())) }
    }
}

pub open spec fn opt_seq<T>(o: Option<T>) -> Seq<T> {
    match o {
        Some(x) => seq![x],
        None => Seq::empty(),
    }
}

/// Scans `rest`, starting on `line`: the tokens, ended by one end-of-input
/// token, and the lexical errors in the order found.
pub open spec fn scan(rest: Seq<char>, line: int) -> (Seq<TokenView>, Seq<LexErrorView>)
    decreases rest.len(),
{
    if rest.len() == 0 {
        (
            seq![TokenView { token_type: TokenType::Eof, lexeme: Seq::empty(), literal: None, line: line as u32 }],
            Seq::empty(),
        )
    } else {
        let s = step(rest, line);
        if 1 <= s.len <= rest.len() {
            let (ts, es) = scan(rest.subrange(s.len as int, rest.len() as int), s.line);
            (opt_seq(s.token) + ts, opt_seq(s.error) + es)
        } else {
            (Seq::empty(), Seq::empty())
        }
    }
}

pub open spec fn tokens_model(v: Seq<Token>) -> Seq<TokenView> {
    v.map_values(|t: Token| t@)
}

pub open spec fn lex_errors_model(v: Seq<LexError>) -> Seq<LexErrorView> {
    v.map_values(|e: LexError| e@)
}

/// Whether `c` starts an identifier.
fn alpha(c: char) -> (r: bool)
    ensures
        r == is_alpha(c),
{
    if (c as u32) < 128 {
        ('a' <= c && c <= 'z') || ('A' <= c && c <= 'Z')
    } else {
        char_is_alphabetic(c)
    }
}

/// Whether `c` continues an identifier.
fn alnum(c: char) -> (r: bool)
    ensures
        r == is_alnum(c),
{
    if (c as u32) < 128 {
        ('a' <= c && c <= 'z') || ('A' <= c && c <= 'Z') || ('0' <= c && c <= '9')
    } else {
        char_is_alphanumeric(c)
    }
}

fn digit(c: char) -> (r: bool)
    ensures
        r == is_digit(c),
{
    '0' <= c && c <= '9'
}

/// The end of the run of digits that starts at `from`.
fn digits_end(chars: &Vec<char>, from: usize) -> (r: usize)
    requires
        from <= chars@.len(),
    ensures
        r == from + digit_run(chars@.subrange(from as int, chars@.len() as int)),
        r <= chars@.len(),
{
    let ghost s = chars@;
    let mut i = from;
    while i < chars.len() && digit(chars[i])
        invariant
            from <= i <= s.len(),
            s == chars@,
            digit_run(s.subrange(from as int, s.len() as int)) == (i - from) + digit_run(
                s.subrange(i as int, s.len() as int),
            ),
        decreases s.len() - i,
    {
        assert(s.subrange(i as int, s.len() as int).drop_first() =~= s.subrange(i + 1, s.len() as int));
        i = i + 1;
    }
    i
}

/// The end of the run of identifier characters that starts at `from`.
fn word_end(chars: &Vec<char>, from: usize) -> (r: usize)
    requires
        from <= chars@.len(),
    ensures
        r == from + alnum_run(chars@.subrange(from as int, chars@.len() as int)),
        r <= chars@.len(),
{
    let ghost s = chars@;
    let mut i = from;
    while i < chars.len() && alnum(chars[i])
        invariant
            from <= i <= s.len(),
            s == chars@,
            alnum_run(s.subrange(from as int, s.len() as int)) == (i - from) + alnum_run(
                s.subrange(i as int, s.len() as int),
            ),
        decreases s.len() - i,
    {
        assert(s.subrange(i as int, s.len() as int).drop_first() =~= s.subrange(i + 1, s.len() as int));
        i = i + 1;
    }
    i
}

/// The position of the first `c` at or after `from`, or the end.
fn find_char(chars: &Vec<char>, from: usize, c: char) -> (r: usize)
    requires
        from <= chars@.len(),
    ensures
        r == from + upto_len(chars@.subrange(from as int, chars@.len() as int), c),
        r <= chars@.len(),
{
    let ghost s = chars@;
    let mut i = from;
    while i < chars.len() && chars[i] != c
        invariant
            from <= i <= s.len(),
            s == chars@,
            upto_len(s.subrange(from as int, s.len() as int), c) == (i - from) + upto_len(
                s.subrange(i as int, s.len() as int),
                c,
            ),
        decreases s.len() - i,
    {
        assert(s.subrange(i as int, s.len() as int).drop_first() =~= s.subrange(i + 1, s.len() as int));
        i = i + 1;
    }
    i
}

/// The number of newlines between `from` and `to`.
fn count_newlines(chars: &Vec<char>, from: usize, to: usize) -> (r: usize)
    requires
        from <= to <= chars@.len(),
    ensures
        r == newlines(chars@.subrange(from as int, to as int)),
        r <= to - from,
{
    let ghost s = chars@;
    let mut n: usize = 0;
    let mut i = from;
    while i < to
        invariant
            from <= i <= to <= s.len(),
            s == chars@,
            n == newlines(s.subrange(from as int, i as int)),
            n <= i - from,
        decreases to - i,
    {
        assert(s.subrange(from as int, i + 1).drop_last() =~= s.subrange(from as int, i as int));
        if chars[i] == '\n' {
            n = n + 1;
        }
        i = i + 1;
    }
    n
}

proof fn lemma_digits_value_grows(s: Seq<char>, c: char)
    requires
        is_digit(c),
        digits_value(s) >= 0,
    ensures
        digits_value(s.push(c)) >= digits_value(s),
        digits_value(s.push(c)) == digits_value(s) * 10 + (c as int - '0' as int),
{
    assert(s.push(c).drop_last() =~= s);
}

/// Adds the digits between `from` and `to` to the value `v` of the digits
/// `before`; `None` once the value passes `i64::MAX`.
fn add_digits(chars: &Vec<char>, from: usize, to: usize, v: Option<i64>, Ghost(before): Ghost<
    Seq<char>,
>) -> (r: Option<i64>)
    requires
        from <= to <= chars@.len(),
        forall|k: int| from <= k < to ==> is_digit(#[trigger] chars@[k]),
        digits_value(before) >= 0,
        v matches Some(x) ==> x == digits_value(before),
        v is None ==> digits_value(before) > i64::MAX,
    ensures
        digits_value(before + chars@.subrange(from as int, to as int)) >= 0,
        r matches Some(x) ==> x == digits_value(before + chars@.subrange(from as int, to as int)),
        r is None ==> digits_value(before + chars@.subrange(from as int, to as int)) > i64::MAX,
{
    let ghost s = chars@;
    let mut acc = v;
    let mut i = from;
    assert(before + s.subrange(from as int, from as int) =~= before);
    while i < to
        invariant
            from <= i <= to <= s.len(),
            s == chars@,
            forall|k: int| from <= k < to ==> is_digit(#[trigger] s[k]),
            digits_value(before + s.subrange(from as int, i as int)) >= 0,
            acc matches Some(x) ==> x == digits_value(before + s.subrange(from as int, i as int)),
            acc is None ==> digits_value(before + s.subrange(from as int, i as int)) > i64::MAX,
        decreases to - i,
    {
        let ghost prefix = before + s.subrange(from as int, i as int);
        assert(before + s.subrange(from as int, i + 1) =~= prefix.push(s[i as int]));
        proof {
            lemma_digits_value_grows(prefix, s[i as int]);
        }
        let d = (chars[i] as u32 - '0' as u32) as i64;
        acc = match acc {
            Some(x) => if x <= (i64::MAX - d) / 10 {
                Some(x * 10 + d)
            } else {
                None
            },
            None => None,
        };
        i = i + 1;
    }
    acc
}

proof fn lemma_pow10_grows(n: nat)
    ensures
        pow10(n) >= 1,
        pow10(n + 1) == 10 * pow10(n),
    decreases n,
{
    if n > 0 {
        lemma_pow10_grows((n - 1) as nat);
    }
}

/// Whether the characters between `from` and `to` spell `word`.
fn spells(chars: &Vec<char>, from: usize, to: usize, word: &str) -> (r: bool)
    requires
        from <= to <= chars@.len(),
    ensures
        r == (chars@.subrange(from as int, to as int) == word@),
{
    let n = word.unicode_len();
    if to - from != n {
        return false;
    }
    let mut i: usize = 0;
    while i < n
        invariant
            n == word@.len(),
            to - from == n,
            from <= to <= chars@.len(),
            i <= n,
            forall|k: int| 0 <= k < i ==> chars@[from + k] == word@[k],
        decreases n - i,
    {
        if chars[from + i] != word.get_char(i) {
            assert(chars@.subrange(from as int, to as int)[i as int] != word@[i as int]);
            return false;
        }
        i = i + 1;
    }
    assert(chars@.subrange(from as int, to as int) =~= word@);
    true
}

/// The kind of the reserved word between `from` and `to`, if it is one.
fn keyword_kind(chars: &Vec<char>, from: usize, to: usize) -> (r: Option<TokenType>)
    requires
        from <= to <= chars@.len(),
    ensures
        r == keyword(chars@.subrange(from as int, to as int)),
{
    if spells(chars, from, to, "and") {
        Some(TokenType::And)
    } else if spells(chars, from, to, "class") {
        Some(TokenType::Class)
    } else if spells(chars, from, to, "else") {
        Some(TokenType::Else)
    } else if spells(chars, from, to, "false") {
        Some(TokenType::False)
    } else if spells(chars, from, to, "for") {
        Some(TokenType::For)
    } else if spells(chars, from, to, "fun") {
        Some(TokenType::Fun)
    } else if spells(chars, from, to, "if") {
        Some(TokenType::If)
    } else if spells(chars, from, to, "nil") {
        Some(TokenType::Nil)
    } else if spells(chars, from, to, "or") {
        Some(TokenType::Or)
    } else if spells(chars, from, to, "print") {
        Some(TokenType::Print)
    } else if spells(chars, from, to, "return") {
        Some(TokenType::Return)
    } else if spells(chars, from, to, "super") {
        Some(TokenType::Super)
    } else if spells(chars, from, to, "this") {
        Some(TokenType::This)
    } else if spells(chars, from, to, "true") {
        Some(TokenType::True)
    } else if spells(chars, from, to, "var") {
        Some(TokenType::Var)
    } else if spells(chars, from, to, "while") {
        Some(TokenType::While)
    } else {
        None
    }
}

proof fn lemma_digit_run(s: Seq<char>)
    ensures
        digit_run(s) <= s.len(),
        forall|k: int| 0 <= k < digit_run(s) ==> is_digit(#[trigger] s[k]),
        digit_run(s) < s.len() ==> !is_digit(s[digit_run(s) as int]),
    decreases s.len(),
{
    if s.len() > 0 && is_digit(s[0]) {
        lemma_digit_run(s.drop_first());
        assert forall|k: int| 0 <= k < digit_run(s) implies is_digit(#[trigger] s[k]) by {
            if k > 0 {
                assert(s[k] == s.drop_first()[k - 1]);
            }
        }
    }
}

/// The number a literal stands for, from its whole digits between `ws`
/// and `we` and its fraction digits between `fs` and `fe`.
fn literal_value(chars: &Vec<char>, ws: usize, we: usize, fs: usize, fe: usize) -> (r: Number)
    requires
        ws <= we <= chars@.len(),
        fs <= fe <= chars@.len(),
        forall|k: int| ws <= k < we ==> is_digit(#[trigger] chars@[k]),
        forall|k: int| fs <= k < fe ==> is_digit(#[trigger] chars@[k]),
    ensures
        r@ == literal_number(chars@.subrange(ws as int, we as int), chars@.subrange(fs as int, fe as int)),
{
    let ghost whole = chars@.subrange(ws as int, we as int);
    let ghost frac = chars@.subrange(fs as int, fe as int);
    assert(Seq::<char>::empty() + whole =~= whole);
    let w = add_digits(chars, ws, we, Some(0), Ghost(Seq::empty()));
    let mut num: i64 = match w {
        Some(x) => x,
        None => return Number::infinity(),
    };
    let mut den: i64 = 1;
    let mut k: usize = 0;
    let n = fe - fs;
    let mut done = false;
    assert(whole + frac.subrange(0, 0) =~= whole);
    while !done && k < n
        invariant
            ws <= we <= chars@.len(),
            fs <= fe <= chars@.len(),
            n == fe - fs,
            whole == chars@.subrange(ws as int, we as int),
            frac == chars@.subrange(fs as int, fe as int),
            forall|j: int| fs <= j < fe ==> is_digit(#[trigger] chars@[j]),
            digits_value(whole) <= i64::MAX,
            k <= n,
            num >= 0,
            num == digits_value(whole + frac.subrange(0, k as int)),
            den >= 1,
            den == pow10(k as nat),
            done ==> kept_digits(whole, frac, 0) == k,
            !done ==> kept_digits(whole, frac, 0) == kept_digits(whole, frac, k as nat),
        decreases n - k, if done { 0int } else { 1int },
    {
        let c = chars[fs + k];
        let d = (c as u32 - '0' as u32) as i64;
        proof {
            assert(frac[k as int] == c);
            assert((whole + frac.subrange(0, k as int)).push(c) =~= whole + frac.subrange(0, k + 1));
            lemma_digits_value_grows(whole + frac.subrange(0, k as int), c);
            lemma_pow10_grows(k as nat);
        }
        if (num as i128) * 10 + d as i128 <= i64::MAX as i128 && (den as i128) * 10 <= i64::MAX as i128 {
            num = num * 10 + d;
            den = den * 10;
            k = k + 1;
        } else {
            done = true;
        }
    }
    match Number::new(num, den) {
        Some(v) => v,
        None => Number::nan(),
    }
}

/// The end of the number literal that starts at `from`, and its value.
fn number_literal(chars: &Vec<char>, from: usize) -> (r: (usize, Number))
    requires
        from < chars@.len(),
        is_digit(chars@[from as int]),
    ensures
        ({
            let (len, whole, frac) = number_parts(chars@.subrange(from as int, chars@.len() as int));
            &&& r.0 == from + len
            &&& r.1@ == literal_number(whole, frac)
        }),
        r.0 <= chars@.len(),
{
    let ghost rest = chars@.subrange(from as int, chars@.len() as int);
    let ghost len = chars@.len() as int;
    let ghost cur = from as int;
    let whole_end = digits_end(chars, from);
    proof {
        assert(rest =~= chars@.subrange(cur, len));
        lemma_digit_run(rest);
    }
    let has_fraction = chars.len() - whole_end > 1 && chars[whole_end] == '.'
        && digit(chars[whole_end + 1]);
    let end = if has_fraction {
        digits_end(chars, whole_end + 1)
    } else {
        whole_end
    };
    proof {
        if has_fraction {
            assert(rest.subrange((whole_end - cur) + 1, rest.len() as int) =~= chars@.subrange(
                whole_end + 1,
                len,
            ));
            lemma_digit_run(chars@.subrange(whole_end + 1, len));
            assert forall|k: int| whole_end + 1 <= k < end implies is_digit(
                #[trigger] chars@[k],
            ) by {
                assert(chars@[k] == chars@.subrange(whole_end + 1, len)[k - whole_end - 1]);
            }
            assert(rest.subrange(whole_end - cur + 1, end - cur) =~= chars@.subrange(
                whole_end + 1,
                end as int,
            ));
        }
        assert forall|k: int| cur <= k < whole_end implies is_digit(#[trigger] chars@[k]) by {
            assert(chars@[k] == rest[k - cur]);
        }
        assert(rest.subrange(0, whole_end - cur) =~= chars@.subrange(cur, whole_end as int));
    }
    let value = if has_fraction {
        literal_value(chars, from, whole_end, whole_end + 1, end)
    } else {
        proof {
            assert(chars@.subrange(whole_end as int, whole_end as int) =~= Seq::<char>::empty());
        }
        literal_value(chars, from, whole_end, whole_end, whole_end)
    };
    (end, value)
}

fn single(c: char) -> (r: Option<TokenType>)
    ensures
        r == single_kind(c),
{
    match c {
        '(' => Some(TokenType::LeftParen),
        ')' => Some(TokenType::RightParen),
        '{' => Some(TokenType::LeftBrace),
        '}' => Some(TokenType::RightBrace),
        ',' => Some(TokenType::Comma),
        '.' => Some(TokenType::Dot),
        '-' => Some(TokenType::Minus),
        '+' => Some(TokenType::Plus),
        ';' => Some(TokenType::SemiColon),
        '*' => Some(TokenType::Star),
        _ => None,
    }
}

fn pair(c: char) -> (r: Option<(TokenType, TokenType)>)
    ensures
        r == pair_kinds(c),
{
    match c {
        '!' => Some((TokenType::Bang, TokenType::BangEqual)),
        '=' => Some((TokenType::Equal, TokenType::EqualEqual)),
        '<' => Some((TokenType::Less, TokenType::LessEqual)),
        '>' => Some((TokenType::Greater, TokenType::GreaterEqual)),
        _ => None,
    }
}

/// Turns source text into tokens, one lexeme at a time. Lexical errors are
/// collected in `errors`, and scanning goes on after each.
pub struct Scanner {
    pub source: String,
    pub chars: Vec<char>,
    pub tokens: Vec<Token>,
    pub errors: Vec<LexError>,
    pub start: usize,
    pub current: usize,
    pub line: u32,
}

impl Scanner {
    pub open spec fn wf(&self) -> bool {
        &&& self.chars@ == self.source@
        &&& self.chars@.len() < u32::MAX
        &&& self.current <= self.chars@.len()
        &&& 1 <= self.line <= self.current + 1
    }

    /// The input not yet scanned.
    pub open spec fn rest(&self) -> Seq<char> {
        self.chars@.subrange(self.current as int, self.chars@.len() as int)
    }

    /// A scanner at the start of `source`, on line 1.
    pub fn new(source: String) -> (r: Self)
        requires
            source@.len() < u32::MAX,
        ensures
            r.wf(),
            r.source@ == source@,
            r.current == 0,
            r.line == 1,
            r.tokens@.len() == 0,
            r.errors@.len() == 0,
    {
        let mut chars: Vec<char> = Vec::new();
        for c in it: source.as_str().chars()
            invariant
                it.seq() == source@,
                chars@ == it.seq().subrange(0, it.index() as int),
        {
            chars.push(c);
        }
        assert(chars@ =~= source@);
        Scanner {
            source,
            chars,
            tokens: Vec::new(),
            errors: Vec::new(),
            start: 0,
            current: 0,
            line: 1,
        }
    }

    /// Whether the whole input has been scanned.
    fn at_end(&self) -> (r: bool)
        requires
            self.wf(),
        ensures
            r == (self.current == self.chars@.len()),
    {
        self.current >= self.chars.len()
    }

    /// The text between `from` and `to`.
    fn text(&self, from: usize, to: usize) -> (r: String)
        requires
            self.wf(),
            from <= to <= self.chars@.len(),
        ensures
            r@ == self.chars@.subrange(from as int, to as int),
    {
        self.source.as_str().substring_char(from, to).to_owned()
    }

    /// Records a token that runs from the current position to `end`, and
    /// moves past it.
    fn add_full_token(&mut self, token_type: TokenType, end: usize, literal: Literal)
        requires
            old(self).wf(),
            old(self).current <= end <= old(self).chars@.len(),
            old(self).line <= end + 1,
        ensures
            final(self).wf(),
            final(self).source == old(self).source,
            final(self).chars == old(self).chars,
            final(self).errors == old(self).errors,
            final(self).line == old(self).line,
            final(self).current == end,
            tokens_model(final(self).tokens@) == tokens_model(old(self).tokens@).push(
                TokenView {
                    token_type,
                    lexeme: old(self).chars@.subrange(old(self).current as int, end as int),
                    literal: Some(literal@),
                    line: old(self).line,
                },
            ),
    {
        let text = self.text(self.current, end);
        let ghost before = self.tokens@;
        let t = Token::new(token_type, text, Some(literal), self.line);
        self.tokens.push(t);
        self.current = end;
        proof {
            assert(tokens_model(self.tokens@) =~= tokens_model(before).push(t@));
        }
    }

    /// Records a token without a value of its own.
    fn add_token(&mut self, token_type: TokenType, end: usize)
        requires
            old(self).wf(),
            old(self).current <= end <= old(self).chars@.len(),
            old(self).line <= end + 1,
        ensures
            final(self).wf(),
            final(self).source == old(self).source,
            final(self).chars == old(self).chars,
            final(self).errors == old(self).errors,
            final(self).line == old(self).line,
            final(self).current == end,
            tokens_model(final(self).tokens@) == tokens_model(old(self).tokens@).push(
                TokenView {
                    token_type,
                    lexeme: old(self).chars@.subrange(old(self).current as int, end as int),
                    literal: Some(Value::Nil),
                    line: old(self).line,
                },
            ),
    {
        self.add_full_token(token_type, end, Literal::Nil)
    }

    /// Records a lexical error on the current line.
    fn error(&mut self, message: String)
        ensures
            final(self).source == old(self).source,
            final(self).chars == old(self).chars,
            final(self).tokens == old(self).tokens,
            final(self).current == old(self).current,
            final(self).start == old(self).start,
            final(self).line == old(self).line,
            lex_errors_model(final(self).errors@) == lex_errors_model(old(self).errors@).push(
                (old(self).line, message@),
            ),
    {
        let ghost before = self.errors@;
        let e = LexError { line: self.line, message };
        self.errors.push(e);
        proof {
            assert(lex_errors_model(self.errors@) =~= lex_errors_model(before).push(e@));
        }
    }

    /// What a scanner holds after `before` scanned one lexeme as `st` says.
    pub open spec fn advanced(&self, before: Scanner, st: Step) -> bool {
        &&& self.wf()
        &&& self.source == before.source
        &&& self.chars == before.chars
        &&& self.current == before.current + st.len
        &&& self.line == st.line
        &&& tokens_model(self.tokens@) == tokens_model(before.tokens@) + opt_seq(st.token)
        &&& lex_errors_model(self.errors@) == lex_errors_model(before.errors@) + opt_seq(st.error)
    }

    /// A string literal; the opening quote is at the current position.
    fn string(&mut self)
        requires
            old(self).wf(),
            old(self).current < old(self).chars@.len(),
            old(self).chars@[old(self).current as int] == '"',
        ensures
            final(self).advanced(*old(self), string_step(old(self).rest(), old(self).line as int)),
    {
        let ghost rest = self.rest();
        let ghost len = self.chars@.len() as int;
        let from = self.current + 1;
        let q = find_char(&self.chars, from, '"');
        assert(rest.drop_first() =~= self.chars@.subrange(from as int, len));
        if q >= self.chars.len() {
            let n = count_newlines(&self.chars, from, self.chars.len());
            self.line = self.line + n as u32;
            self.current = self.chars.len();
            let ghost before = self.errors@;
            self.error("Unterminated string.".to_owned());
            proof {
                assert(lex_errors_model(self.errors@) =~= lex_errors_model(old(self).errors@) + opt_seq(
                    string_step(rest, old(self).line as int).error,
                ));
                assert(tokens_model(self.tokens@) =~= tokens_model(old(self).tokens@) + opt_seq(
                    string_step(rest, old(self).line as int).token,
                ));
            }
        } else {
            let n = count_newlines(&self.chars, from, q);
            let value = self.text(from, q);
            let lexeme = self.text(self.current, q + 1);
            self.line = self.line + n as u32;
            self.current = q + 1;
            self.push_token(Token::new(TokenType::String, lexeme, Some(Literal::String(value)), self.line));
            proof {
                assert(rest.subrange(1, (q - old(self).current) as int) =~= self.chars@.subrange(from as int, q as int));
                assert(rest.subrange(0, (q + 1 - old(self).current) as int) =~= self.chars@.subrange(
                    old(self).current as int,
                    q + 1,
                ));
                assert(lex_errors_model(self.errors@) =~= lex_errors_model(old(self).errors@) + opt_seq(
                    string_step(rest, old(self).line as int).error,
                ));
            }
        }
    }

    /// Records a token.
    fn push_token(&mut self, t: Token)
        ensures
            final(self).source == old(self).source,
            final(self).chars == old(self).chars,
            final(self).errors == old(self).errors,
            final(self).current == old(self).current,
            final(self).start == old(self).start,
            final(self).line == old(self).line,
            tokens_model(final(self).tokens@) == tokens_model(old(self).tokens@) + seq![t@],
    {
        let ghost before = self.tokens@;
        self.tokens.push(t);
        proof {
            assert(tokens_model(self.tokens@) =~= tokens_model(before) + seq![t@]);
        }
    }

    /// A number literal; its first digit is at the current position.
    fn number(&mut self)
        requires
            old(self).wf(),
            old(self).current < old(self).chars@.len(),
            is_digit(old(self).chars@[old(self).current as int]),
        ensures
            final(self).advanced(*old(self), number_step(old(self).rest(), old(self).line as int)),
    {
        let ghost rest = self.rest();
        let (end, value) = number_literal(&self.chars, self.current);
        proof {
            assert(rest.subrange(0, end - self.current) =~= self.chars@.subrange(
                self.current as int,
                end as int,
            ));
        }
        self.add_full_token(TokenType::Number, end, Literal::Number(value));
        proof {
            assert(tokens_model(self.tokens@) =~= tokens_model(old(self).tokens@) + opt_seq(
                number_step(rest, old(self).line as int).token,
            ));
            assert(lex_errors_model(self.errors@) =~= lex_errors_model(old(self).errors@) + opt_seq(
                number_step(rest, old(self).line as int).error,
            ));
        }
    }

    /// An identifier or reserved word; its first letter is at the current
    /// position.
    fn identifier(&mut self)
        requires
            old(self).wf(),
            old(self).current < old(self).chars@.len(),
        ensures
            final(self).advanced(*old(self), word_step(old(self).rest(), old(self).line as int)),
    {
        let ghost rest = self.rest();
        let ghost len = self.chars@.len() as int;
        let end = word_end(&self.chars, self.current + 1);
        proof {
            assert(rest.drop_first() =~= self.chars@.subrange(self.current + 1, len));
            assert(rest.subrange(0, end - self.current) =~= self.chars@.subrange(
                self.current as int,
                end as int,
            ));
        }
        let token_type = match keyword_kind(&self.chars, self.current, end) {
            Some(k) => k,
            None => TokenType::Identifier,
        };
        self.add_token(token_type, end);
        proof {
            assert(tokens_model(self.tokens@) =~= tokens_model(old(self).tokens@) + opt_seq(
                word_step(rest, old(self).line as int).token,
            ));
            assert(lex_errors_model(self.errors@) =~= lex_errors_model(old(self).errors@) + opt_seq(
                word_step(rest, old(self).line as int).error,
            ));
        }
    }

    /// Scans the lexeme at the current position.
    fn scan_token(&mut self)
        requires
            old(self).wf(),
            old(self).current < old(self).chars@.len(),
        ensures
            final(self).advanced(*old(self), step(old(self).rest(), old(self).line as int)),
    {
        let ghost rest = self.rest();
        let ghost len = self.chars@.len() as int;
        let cur = self.current;
        let c = self.chars[cur];
        assert(rest[0] == c);
        proof {
            assert(rest.subrange(0, 1) =~= self.chars@.subrange(cur as int, cur + 1));
            if cur + 2 <= len {
                assert(rest.subrange(0, 2) =~= self.chars@.subrange(cur as int, cur + 2));
            }
            assert(tokens_model(self.tokens@) + opt_seq(None::<TokenView>) =~= tokens_model(self.tokens@));
            assert(lex_errors_model(self.errors@) + opt_seq(None::<LexErrorView>) =~= lex_errors_model(self.errors@));
        }
        let ghost toks = tokens_model(self.tokens@);
        let ghost errs = lex_errors_model(self.errors@);
        match single(c) {
            Some(k) => {
                self.add_token(k, cur + 1);
                assert(tokens_model(self.tokens@) =~= toks + opt_seq(step(rest, old(self).line as int).token));
                return;
            },
            None => {},
        }
        match pair(c) {
            Some((alone, with_equal)) => {
                if cur + 1 < self.chars.len() && self.chars[cur + 1] == '=' {
                    self.add_token(with_equal, cur + 2);
                } else {
                    self.add_token(alone, cur + 1);
                }
                assert(tokens_model(self.tokens@) =~= toks + opt_seq(step(rest, old(self).line as int).token));
                return;
            },
            None => {},
        }
        if c == '/' {
            if cur + 1 < self.chars.len() && self.chars[cur + 1] == '/' {
                let e = find_char(&self.chars, cur + 2, '\n');
                proof {
                    assert(rest.subrange(2, rest.len() as int) =~= self.chars@.subrange(cur + 2, len));
                }
                self.current = e;
            } else {
                self.add_token(TokenType::Slash, cur + 1);
                assert(tokens_model(self.tokens@) =~= toks + opt_seq(step(rest, old(self).line as int).token));
            }
        } else if c == ' ' || c == '\r' || c == '\t' {
            self.current = cur + 1;
        } else if c == '\n' {
            self.line = self.line + 1;
            self.current = cur + 1;
        } else if c == '"' {
            self.string();
        } else if digit(c) {
            self.number();
        } else if alpha(c) {
            self.identifier();
        } else {
            self.current = cur + 1;
            self.error("Unexpected character.".to_owned());
            assert(lex_errors_model(self.errors@) =~= errs + opt_seq(step(rest, old(self).line as int).error));
        }
    }

    /// Scans the whole input: the tokens, ended by a single end-of-input
    /// token; the lexical errors stay in `errors`.
    pub fn scan_tokens(&mut self) -> (r: Vec<Token>)
        requires
            old(self).wf(),
            old(self).current == 0,
            old(self).line == 1,
            old(self).tokens@.len() == 0,
            old(self).errors@.len() == 0,
        ensures
            tokens_model(r@) == scan(old(self).source@, 1).0,
            lex_errors_model(final(self).errors@) == scan(old(self).source@, 1).1,
            r@.len() >= 1,
            r@.last().token_type == TokenType::Eof,
    {
        let ghost src = self.chars@;
        proof {
            assert(self.rest() =~= src);
            assert(tokens_model(self.tokens@) =~= Seq::empty());
            assert(lex_errors_model(self.errors@) =~= Seq::empty());
        }
        while !self.at_end()
            invariant
                self.wf(),
                self.chars@ == src,
                src == old(self).source@,
                scan(src, 1) == (
                    tokens_model(self.tokens@) + scan(self.rest(), self.line as int).0,
                    lex_errors_model(self.errors@) + scan(self.rest(), self.line as int).1,
                ),
            decreases src.len() - self.current,
        {
            self.start = self.current;
            let ghost before = *self;
            let ghost rest = self.rest();
            self.scan_token();
            proof {
                let st = step(rest, before.line as int);
                assert(rest.subrange(st.len as int, rest.len() as int) =~= self.rest());
                assert(tokens_model(self.tokens@) + scan(self.rest(), self.line as int).0 =~= tokens_model(
                    before.tokens@,
                ) + scan(rest, before.line as int).0);
                assert(lex_errors_model(self.errors@) + scan(self.rest(), self.line as int).1
                    =~= lex_errors_model(before.errors@) + scan(rest, before.line as int).1);
            }
        }
        let ghost before = self.tokens@;
        let eof = Token::new(TokenType::Eof, String::new(), None, self.line);
        self.tokens.push(eof);
        proof {
            assert(self.rest() =~= Seq::<char>::empty());
            assert(tokens_model(self.tokens@) =~= tokens_model(before) + scan(self.rest(), self.line as int).0);
            assert(lex_errors_model(self.errors@) =~= lex_errors_model(self.errors@) + scan(self.rest(), self.line as int).1);
        }
        let mut out: Vec<Token> = Vec::new();
        std::mem::swap(&mut out, &mut self.tokens);
        out
    }
}

/// A token with its line left out.
pub open spec fn without_line(t: TokenView) -> TokenView {
    TokenView { line: 0, ..t }
}

/// Tokens with their lines left out.
pub open spec fn without_lines(ts: Seq<TokenView>) -> Seq<TokenView> {
    ts.map_values(|t: TokenView| without_line(t))
}

proof fn lemma_upto_absent(s: Seq<char>, c: char)
    requires
        !s.contains(c),
    ensures
        upto_len(s, c) == s.len(),
    decreases s.len(),
{
    if s.len() > 0 {
        assert(!s.drop_first().contains(c)) by {
            if s.drop_first().contains(c) {
                let k = choose|k: int| 0 <= k < s.drop_first().len() && s.drop_first()[k] == c;
                assert(s[k + 1] == c);
            }
        }
        assert(s[0] != c) by {
            if s[0] == c {
                assert(s.contains(c));
            }
        }
        lemma_upto_absent(s.drop_first(), c);
    }
}

/// A string literal left open at the end of input is one lexical error, on
/// the line where the input ends, and gives no token: only the end of input
/// remains.
pub proof fn lemma_unterminated_string(text: Seq<char>, line: int)
    requires
        !text.contains('"'),
    ensures
        ({
            let (tokens, errors) = scan(seq!['"'] + text, line);
            let end = line + newlines(text);
            &&& tokens.len() == 1
            &&& tokens[0].token_type == TokenType::Eof
            &&& tokens[0].line == end as u32
            &&& errors == seq![(end as u32, unterminated_message())]
        }),
{
    let rest = seq!['"'] + text;
    assert(rest.drop_first() =~= text);
    lemma_upto_absent(text, '"');
    assert(rest.subrange(rest.len() as int, rest.len() as int) =~= Seq::<char>::empty());
    let st = step(rest, line);
    assert(st.len == rest.len());
    assert(opt_seq(st.token) =~= Seq::<TokenView>::empty());
    let tail = scan(Seq::<char>::empty(), st.line);
    assert(scan(rest, line) == (opt_seq(st.token) + tail.0, opt_seq(st.error) + tail.1));
    assert(opt_seq(st.error) =~= seq![(st.line as u32, unterminated_message())]);
    let (ts, es) = scan(rest, line);
    assert(ts =~= seq![TokenView { token_type: TokenType::Eof, lexeme: Seq::empty(), literal: None, line: st.line as u32 }]);
    assert(es =~= seq![(st.line as u32, unterminated_message())]);
}

/// Scanning one lexeme does not depend on the line it starts on, except
/// for the lines it records.
proof fn lemma_step_line_free(rest: Seq<char>, l1: int, l2: int)
    requires
        rest.len() > 0,
    ensures
        step(rest, l1).len == step(rest, l2).len,
        step(rest, l1).line - l1 == step(rest, l2).line - l2,
        without_lines(opt_seq(step(rest, l1).token)) == without_lines(opt_seq(step(rest, l2).token)),
{
    let (a, b) = (step(rest, l1), step(rest, l2));
    assert(without_lines(opt_seq(a.token)) =~= without_lines(opt_seq(b.token)));
}

/// The tokens of a scan, lines aside, do not depend on the line it starts on.
pub proof fn lemma_scan_line_free(rest: Seq<char>, l1: int, l2: int)
    ensures
        without_lines(scan(rest, l1).0) == without_lines(scan(rest, l2).0),
    decreases rest.len(),
{
    if rest.len() == 0 {
        assert(without_lines(scan(rest, l1).0) =~= without_lines(scan(rest, l2).0));
    } else {
        lemma_step_line_free(rest, l1, l2);
        let (a, b) = (step(rest, l1), step(rest, l2));
        if 1 <= a.len <= rest.len() {
            let next = rest.subrange(a.len as int, rest.len() as int);
            lemma_scan_line_free(next, a.line, b.line);
            let (t1, t2) = (scan(next, a.line).0, scan(next, b.line).0);
            assert(without_lines(opt_seq(a.token) + t1) =~= without_lines(opt_seq(a.token)) + without_lines(t1));
            assert(without_lines(opt_seq(b.token) + t2) =~= without_lines(opt_seq(b.token)) + without_lines(t2));
        }
    }
}

/// A token on a line `d` further down.
pub open spec fn shifted(t: TokenView, d: int) -> TokenView {
    TokenView { line: (t.line + d) as u32, ..t }
}

/// Tokens on lines `d` further down.
pub open spec fn shift_lines(ts: Seq<TokenView>, d: int) -> Seq<TokenView> {
    ts.map_values(|t: TokenView| shifted(t, d))
}

proof fn lemma_newlines_le(s: Seq<char>)
    ensures
        newlines(s) <= s.len(),
    decreases s.len(),
{
    if s.len() > 0 {
        lemma_newlines_le(s.drop_last());
    }
}

/// Scanning a lexeme from a later line gives the same token on a line as
/// much later; the lexeme moves the line on by at most its length.
proof fn lemma_step_shift(rest: Seq<char>, l: int, d: int)
    requires
        rest.len() > 0,
        0 <= l,
        0 <= d,
        l + d + rest.len() <= u32::MAX,
    ensures
        step(rest, l + d).len == step(rest, l).len,
        step(rest, l + d).line == step(rest, l).line + d,
        step(rest, l).len <= rest.len() ==> l <= step(rest, l).line <= l + step(rest, l).len,
        opt_seq(step(rest, l + d).token) == shift_lines(opt_seq(step(rest, l).token), d),
{
    let (a, b) = (step(rest, l), step(rest, l + d));
    if rest[0] == '"' {
        lemma_newlines_le(rest.drop_first());
        let k = upto_len(rest.drop_first(), '"') as int;
        if k + 1 < rest.len() {
            lemma_newlines_le(rest.subrange(1, k + 1));
        }
    }
    assert(opt_seq(b.token) =~= shift_lines(opt_seq(a.token), d));
}

/// Scanning from a later line gives the same tokens on lines as much later.
pub proof fn lemma_scan_shift(rest: Seq<char>, l: int, d: int)
    requires
        0 <= l,
        0 <= d,
        l + d + rest.len() <= u32::MAX,
    ensures
        scan(rest, l + d).0 == shift_lines(scan(rest, l).0, d),
    decreases rest.len(),
{
    if rest.len() == 0 {
        assert(scan(rest, l + d).0 =~= shift_lines(scan(rest, l).0, d));
    } else {
        lemma_step_shift(rest, l, d);
        let (a, b) = (step(rest, l), step(rest, l + d));
        if 1 <= a.len <= rest.len() {
            let next = rest.subrange(a.len as int, rest.len() as int);
            lemma_scan_shift(next, a.line, d);
            let t = scan(next, a.line).0;
            assert(shift_lines(opt_seq(a.token) + t, d) =~= shift_lines(opt_seq(a.token), d)
                + shift_lines(t, d));
        } else {
            assert(scan(rest, l + d).0 =~= shift_lines(scan(rest, l).0, d));
        }
    }
}

/// A line comment gives no token: the tokens of `// text` and a newline
/// followed by `rest` are those of `rest` alone, lines aside; each stands
/// exactly one line further down, for the newline (where no line passes the
/// largest line number).
pub proof fn lemma_comment_gives_no_tokens(text: Seq<char>, rest: Seq<char>, line: int)
    requires
        !text.contains('\n'),
    ensures
        without_lines(scan(seq!['/', '/'] + text + seq!['\n'] + rest, line).0) == without_lines(
            scan(rest, line).0,
        ),
        0 <= line && line + 1 + rest.len() <= u32::MAX ==> scan(
            seq!['/', '/'] + text + seq!['\n'] + rest,
            line,
        ).0 == shift_lines(scan(rest, line).0, 1),
{
    let src = seq!['/', '/'] + text + seq!['\n'] + rest;
    let after = seq!['\n'] + rest;
    assert(src.subrange(2, src.len() as int) =~= text + after);
    lemma_upto_before(text, after, '\n');
    let st = step(src, line);
    assert(st.len == 2 + text.len());
    assert(src.subrange(st.len as int, src.len() as int) =~= after);
    assert(opt_seq(st.token) =~= Seq::<TokenView>::empty());
    assert(scan(src, line).0 =~= scan(after, line).0);
    let st2 = step(after, line);
    assert(after.subrange(1, after.len() as int) =~= rest);
    assert(opt_seq(st2.token) =~= Seq::<TokenView>::empty());
    assert(scan(after, line).0 =~= scan(rest, line + 1).0);
    lemma_scan_line_free(rest, line + 1, line);
    if 0 <= line && line + 1 + rest.len() <= u32::MAX {
        lemma_scan_shift(rest, line, 1);
    }
}

proof fn lemma_upto_before(s: Seq<char>, t: Seq<char>, c: char)
    requires
        !s.contains(c),
        t.len() > 0,
        t[0] == c,
    ensures
        upto_len(s + t, c) == s.len(),
    decreases s.len(),
{
    if s.len() == 0 {
        assert(s + t =~= t);
    } else {
        assert((s + t).drop_first() =~= s.drop_first() + t);
        assert(!s.drop_first().contains(c)) by {
            if s.drop_first().contains(c) {
                let k = choose|k: int| 0 <= k < s.drop_first().len() && s.drop_first()[k] == c;
                assert(s[k + 1] == c);
            }
        }
        assert(s[0] != c) by {
            if s[0] == c {
                assert(s.contains(c));
            }
        }
        lemma_upto_before(s.drop_first(), t, c);
    }
}

/// The line on which scanning `rest` from `line` ends.
pub open spec fn end_line(rest: Seq<char>, line: int) -> int
    decreases rest.len(),
{
    if rest.len() == 0 {
        line
    } else {
        let s = step(rest, line);
        if 1 <= s.len <= rest.len() {
            end_line(rest.subrange(s.len as int, rest.len() as int), s.line)
        } else {
            line
        }
    }
}

/// Scanning `p` followed by `q` takes the lexemes of `p` just as scanning `p`
/// alone does: `p` ends outside any lexeme that `q` could continue, such as
/// an open string literal or a line comment.
pub open spec fn splits(p: Seq<char>, q: Seq<char>, line: int) -> bool
    decreases p.len(),
{
    if p.len() == 0 {
        true
    } else {
        let s = step(p, line);
        &&& 1 <= s.len <= p.len()
        &&& step(p + q, line) == s
        &&& splits(p.subrange(s.len as int, p.len() as int), q, s.line)
    }
}

/// Where `p` splits from `q`, scanning `p` then `q` gives the tokens of `p`
/// (without its end of input), then those of `q`; and the errors of both.
pub proof fn lemma_scan_concat(p: Seq<char>, q: Seq<char>, line: int)
    requires
        splits(p, q, line),
    ensures
        scan(p, line).0.len() >= 1,
        scan(p + q, line).0 == scan(p, line).0.drop_last() + scan(q, end_line(p, line)).0,
        scan(p + q, line).1 == scan(p, line).1 + scan(q, end_line(p, line)).1,
    decreases p.len(),
{
    if p.len() == 0 {
        assert(p + q =~= q);
        assert(scan(p, line).0.drop_last() =~= Seq::<TokenView>::empty());
        assert(scan(p + q, line).0 =~= scan(p, line).0.drop_last() + scan(q, line).0);
        assert(scan(p + q, line).1 =~= scan(p, line).1 + scan(q, line).1);
    } else {
        let st = step(p, line);
        let p1 = p.subrange(st.len as int, p.len() as int);
        lemma_scan_concat(p1, q, st.line);
        assert((p + q).subrange(st.len as int, (p + q).len() as int) =~= p1 + q);
        let (t1, e1) = scan(p1, st.line);
        let end = end_line(p1, st.line);
        assert(scan(p + q, line).0 =~= opt_seq(st.token) + scan(p1 + q, st.line).0);
        assert((opt_seq(st.token) + t1).drop_last() =~= opt_seq(st.token) + t1.drop_last());
        assert(scan(p + q, line).0 =~= scan(p, line).0.drop_last() + scan(q, end).0);
        assert(scan(p + q, line).1 =~= scan(p, line).1 + scan(q, end).1);
    }
}

/// A string literal left open at the end of input, after any text `p` that
/// ends outside a lexeme, is one lexical error more than `p` has and gives
/// no token: the tokens of `p` are followed by the end of input alone.
pub proof fn lemma_unterminated_string_after(p: Seq<char>, text: Seq<char>, line: int)
    requires
        !text.contains('"'),
        splits(p, seq!['"'] + text, line),
    ensures
        ({
            let (tokens, errors) = scan(p + (seq!['"'] + text), line);
            let end = end_line(p, line) + newlines(text);
            &&& tokens.len() == scan(p, line).0.len()
            &&& tokens.drop_last() == scan(p, line).0.drop_last()
            &&& tokens.last().token_type == TokenType::Eof
            &&& tokens.last().line == end as u32
            &&& errors == scan(p, line).1.push((end as u32, unterminated_message()))
        }),
{
    lemma_scan_concat(p, seq!['"'] + text, line);
    lemma_unterminated_string(text, end_line(p, line));
    let (tp, ep) = scan(p, line);
    let (tq, eq) = scan(seq!['"'] + text, end_line(p, line));
    let tokens = tp.drop_last() + tq;
    assert(tokens.drop_last() =~= tp.drop_last());
    assert(ep + eq =~= ep.push(eq[0]));
}

} // verus!
