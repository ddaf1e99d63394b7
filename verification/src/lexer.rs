//! A pull-based scanner that turns source text into [`Token`] values,
//! one per call, until the terminal `Eof`.

use vstd::prelude::*;
use vstd::string::*;
use crate::token::Token;
use crate::token::TokenModel;

verus! {

// ---------------------------------------------------------------------------
// Character classification
// ---------------------------------------------------------------------------

/// The characters the scanner recognizes directly, before the
/// identifier and number rules get a look.
pub open spec fn reserved_char(c: char) -> bool {
    c == ':' || c == '{' || c == '}' || c == '*' || c == '/' || c == '%' || c == '=' || c == '<'
        || c == '>' || c == '(' || c == ')' || c == ',' || c == '\'' || c == '"' || c == ' '
        || c == '\n' || c == '+' || c == '-'
}

/// The ten decimal digit characters.
pub open spec fn ascii_digit(c: char) -> bool {
    48 <= c as u32 && c as u32 <= 57
}

/// What `char::is_alphabetic` returns on a character that is neither a
/// digit nor one of the scanner's reserved characters. The Unicode
/// `Alphabetic` property is a fixed function of the character, far too
/// large to write out, so it is only named here.
pub uninterp spec fn unicode_alphabetic(c: char) -> bool;

/// What `char::is_numeric` returns on a character that is not a decimal
/// digit and not one of the scanner's reserved characters.
pub uninterp spec fn unicode_numeric(c: char) -> bool;

/// Whether the scanner treats `c` as a letter. The scanner's reserved
/// characters and the decimal digits are never letters; everything else
/// goes by the Unicode `Alphabetic` property.
pub open spec fn alphabetic(c: char) -> bool {
    !reserved_char(c) && !ascii_digit(c) && unicode_alphabetic(c)
}

/// Whether the scanner treats `c` as a numeric character. The decimal
/// digits always are; the scanner's reserved characters never are;
/// everything else goes by the Unicode numeric categories.
pub open spec fn numeric(c: char) -> bool {
    ascii_digit(c) || (!reserved_char(c) && unicode_numeric(c))
}

/// Relies on `char::is_alphabetic`: whether the character has the
/// Unicode `Alphabetic` property, a function of the character alone.
/// ASCII punctuation, the space, the newline and the decimal digits do
/// not have it.
pub assume_specification[ char::is_alphabetic ](c: char) -> (r: bool)
    ensures
        r == alphabetic(c),
        !reserved_char(c) && !ascii_digit(c) ==> r == unicode_alphabetic(c),
;

/// Relies on `char::is_numeric`: whether the character is in one of the
/// Unicode numeric general categories, a function of the character
/// alone. The decimal digits are; ASCII punctuation, the space and the
/// newline are not.
pub assume_specification[ char::is_numeric ](c: char) -> (r: bool)
    ensures
        r == numeric(c),
        !reserved_char(c) && !ascii_digit(c) ==> r == unicode_numeric(c),
;

/// Relies on `String::push`: appends the given character to the end of
/// the string.
pub assume_specification[ String::push ](s: &mut String, c: char)
    ensures
        final(s)@ == old(s)@.push(c),
;

// ---------------------------------------------------------------------------
// The scanner, mathematically
// ---------------------------------------------------------------------------

/// Length of the run of alphabetic characters that starts at `i`.
pub open spec fn alpha_run_len(s: Seq<char>, i: int) -> nat
    decreases s.len() - i when 0 <= i <= s.len()
{
    if i < s.len() && alphabetic(s[i]) {
        (1 + alpha_run_len(s, i + 1)) as nat
    } else {
        0
    }
}

/// Length of the run of numeric characters that starts at `i`.
pub open spec fn numeric_run_len(s: Seq<char>, i: int) -> nat
    decreases s.len() - i when 0 <= i <= s.len()
{
    if i < s.len() && numeric(s[i]) {
        (1 + numeric_run_len(s, i + 1)) as nat
    } else {
        0
    }
}

/// Number of characters from `i` up to, and not counting, the first
/// `quote` at or after `i`; up to the end of the text when no `quote`
/// follows.
pub open spec fn string_body_len(s: Seq<char>, i: int, quote: char) -> nat
    decreases s.len() - i when 0 <= i <= s.len()
{
    if i < s.len() && s[i] != quote {
        (1 + string_body_len(s, i + 1, quote)) as nat
    } else {
        0
    }
}

/// Index of the first interpolation marker `#{` at or after `i`, and
/// the length of `s` when none follows.
pub open spec fn marker_pos(s: Seq<char>, i: int) -> int
    decreases s.len() - i when 0 <= i
{
    if i + 2 > s.len() {
        s.len() as int
    } else if s[i] == '#' && s[i + 1] == '{' {
        i
    } else {
        marker_pos(s, i + 1)
    }
}

/// Index of the first `}` at or after `i`, and the length of `s` when
/// none follows.
pub open spec fn close_pos(s: Seq<char>, i: int) -> int
    decreases s.len() - i when 0 <= i
{
    if i >= s.len() {
        s.len() as int
    } else if s[i] == '}' {
        i
    } else {
        close_pos(s, i + 1)
    }
}

/// Whether the contents of a string literal hold an interpolation
/// marker `#{` with a closing `}` somewhere after it.
pub open spec fn has_interpolation(s: Seq<char>) -> bool {
    marker_pos(s, 0) + 2 <= s.len() && close_pos(s, marker_pos(s, 0) + 2) < s.len()
}

/// The token carried by a string literal with the given contents.
/// A double-quoted literal whose contents hold a `#{` marker with a
/// later `}` splits into the literal prefix and the embedded
/// expression; any other literal, a single-quoted one included, is
/// plain text.
pub open spec fn string_token(contents: Seq<char>, quote: char) -> TokenModel {
    if quote == '"' && has_interpolation(contents) {
        let m = marker_pos(contents, 0);
        TokenModel::Interpolation(
            contents.take(m),
            contents.subrange(m + 2, close_pos(contents, m + 2)),
        )
    } else {
        TokenModel::Text(contents)
    }
}

/// Value of the decimal digit `c`.
pub open spec fn digit_value(c: char) -> int {
    c as u32 - 48
}

/// Whether every character of `s` is a decimal digit.
pub open spec fn all_ascii_digits(s: Seq<char>) -> bool {
    forall|j: int| 0 <= j < s.len() ==> ascii_digit(#[trigger] s[j])
}

/// The integer that the digit string `s` denotes in decimal.
pub open spec fn digits_value(s: Seq<char>) -> int
    decreases s.len()
{
    if s.len() == 0 {
        0
    } else {
        digits_value(s.drop_last()) * 10 + digit_value(s.last())
    }
}

/// The value carried by a number token scanned from the run `s`: its
/// decimal value when every character is a decimal digit and the value
/// fits the token's machine integer, and zero otherwise.
pub open spec fn number_value(s: Seq<char>) -> int {
    if all_ascii_digits(s) && digits_value(s) <= i32::MAX {
        digits_value(s)
    } else {
        0
    }
}

/// The token scanned after a leading `:` at `i`: a symbol made of the
/// run of alphabetic characters that follows the colon when there is
/// one, and a bare colon otherwise.
pub open spec fn scan_colon(s: Seq<char>, i: int) -> (TokenModel, int) {
    if i + 1 < s.len() && alphabetic(s[i + 1]) {
        let n = alpha_run_len(s, i + 1) as int;
        (TokenModel::Symbol(s.subrange(i + 1, i + 1 + n)), 1 + n)
    } else {
        (TokenModel::Colon, 1)
    }
}

/// The token scanned after a leading `=` at `i`, resolved greedily:
/// `===`, then `==`, then `=>`, then `=` alone.
pub open spec fn scan_equal(s: Seq<char>, i: int) -> (TokenModel, int) {
    if i + 1 < s.len() && s[i + 1] == '=' {
        if i + 2 < s.len() && s[i + 2] == '=' {
            (TokenModel::EqualEqualEqual, 3)
        } else {
            (TokenModel::EqualEqual, 2)
        }
    } else if i + 1 < s.len() && s[i + 1] == '>' {
        (TokenModel::Arrow, 2)
    } else {
        (TokenModel::Equal, 1)
    }
}

/// The token scanned from a string literal whose opening quote stands
/// at `i`: the quote, the contents up to the matching quote or the end
/// of the text, and the closing quote when there is one, are consumed.
pub open spec fn scan_string(s: Seq<char>, i: int) -> (TokenModel, int) {
    let quote = s[i];
    let b = string_body_len(s, i + 1, quote) as int;
    let contents = s.subrange(i + 1, i + 1 + b);
    if i + 1 + b < s.len() {
        (string_token(contents, quote), b + 2)
    } else {
        (string_token(contents, quote), b + 1)
    }
}

/// The token produced at position `i` of the text `s`, with the number
/// of characters it consumes. This is the whole behaviour of one
/// `next_token` call: at the end of the text it is `Eof` and nothing is
/// consumed; otherwise the current character is classified, reserved
/// characters first, then the identifier and number rules, and
/// anything left is an `Illegal` token of that one character.
pub open spec fn scan_at(s: Seq<char>, i: int) -> (TokenModel, int)
    recommends 0 <= i <= s.len()
{
    if i >= s.len() {
        (TokenModel::Eof, 0)
    } else {
        let c = s[i];
        if c == ':' {
            scan_colon(s, i)
        } else if c == '{' {
            (TokenModel::LeftBrace, 1)
        } else if c == '}' {
            (TokenModel::RightBrace, 1)
        } else if c == '*' {
            (TokenModel::Asterisk, 1)
        } else if c == '/' {
            (TokenModel::Slash, 1)
        } else if c == '%' {
            (TokenModel::Percent, 1)
        } else if c == '=' {
            scan_equal(s, i)
        } else if c == '<' {
            if i + 1 < s.len() && s[i + 1] == '=' {
                (TokenModel::LessThanOrEqual, 2)
            } else {
                (TokenModel::LessThan, 1)
            }
        } else if c == '>' {
            if i + 1 < s.len() && s[i + 1] == '=' {
                (TokenModel::GreaterThanOrEqual, 2)
            } else {
                (TokenModel::GreaterThan, 1)
            }
        } else if c == '(' {
            (TokenModel::LeftParenthesis, 1)
        } else if c == ')' {
            (TokenModel::RightParenthesis, 1)
        } else if c == ',' {
            (TokenModel::Comma, 1)
        } else if c == '\'' || c == '"' {
            scan_string(s, i)
        } else if c == ' ' {
            (TokenModel::WhiteSpace, 1)
        } else if c == '\n' {
            (TokenModel::BreakLine, 1)
        } else if c == '+' {
            (TokenModel::Plus, 1)
        } else if c == '-' {
            (TokenModel::Minus, 1)
        } else if alphabetic(c) {
            let n = alpha_run_len(s, i) as int;
            (TokenModel::Identifier(s.subrange(i, i + n)), n)
        } else if numeric(c) {
            let n = numeric_run_len(s, i) as int;
            (TokenModel::Number(number_value(s.subrange(i, i + n))), n)
        } else {
            (TokenModel::Illegal(seq![c]), 1)
        }
    }
}

// ---------------------------------------------------------------------------
// Run and search lemmas
// ---------------------------------------------------------------------------

/// A stretch of alphabetic characters that ends at the end of the text
/// or at a non-alphabetic character is the whole run.
proof fn lemma_alpha_run(s: Seq<char>, i: int, end: int)
    requires
        0 <= i <= end <= s.len(),
        forall|j: int| i <= j < end ==> alphabetic(#[trigger] s[j]),
        end == s.len() || !alphabetic(s[end]),
    ensures
        alpha_run_len(s, i) == end - i,
    decreases end - i,
{
    if i < end {
        lemma_alpha_run(s, i + 1, end);
    }
}

/// A stretch of numeric characters that ends at the end of the text or
/// at a non-numeric character is the whole run.
proof fn lemma_numeric_run(s: Seq<char>, i: int, end: int)
    requires
        0 <= i <= end <= s.len(),
        forall|j: int| i <= j < end ==> numeric(#[trigger] s[j]),
        end == s.len() || !numeric(s[end]),
    ensures
        numeric_run_len(s, i) == end - i,
    decreases end - i,
{
    if i < end {
        lemma_numeric_run(s, i + 1, end);
    }
}

/// A stretch free of the quote that ends at the end of the text or at
/// the quote is the whole body of the string literal.
proof fn lemma_string_body(s: Seq<char>, i: int, end: int, quote: char)
    requires
        0 <= i <= end <= s.len(),
        forall|j: int| i <= j < end ==> #[trigger] s[j] != quote,
        end == s.len() || s[end] == quote,
    ensures
        string_body_len(s, i, quote) == end - i,
    decreases end - i,
{
    if i < end {
        lemma_string_body(s, i + 1, end, quote);
    }
}

/// A `#{` at `m` with no `#{` before it, from `i` on, is the first
/// marker.
proof fn lemma_marker_found(s: Seq<char>, i: int, m: int)
    requires
        0 <= i <= m,
        m + 2 <= s.len(),
        s[m] == '#',
        s[m + 1] == '{',
        forall|j: int| i <= j < m ==> !(#[trigger] s[j] == '#' && s[j + 1] == '{'),
    ensures
        marker_pos(s, i) == m,
    decreases m - i,
{
    if i < m {
        lemma_marker_found(s, i + 1, m);
    }
}

/// Where no `#{` stands at or after `i`, there is no marker.
proof fn lemma_marker_none(s: Seq<char>, i: int)
    requires
        0 <= i,
        forall|j: int| i <= j && j + 2 <= s.len() ==> !(#[trigger] s[j] == '#' && s[j + 1] == '{'),
    ensures
        marker_pos(s, i) == s.len(),
    decreases s.len() - i,
{
    if i + 2 <= s.len() {
        lemma_marker_none(s, i + 1);
    }
}

/// A `}` at `c` with no `}` before it, from `i` on, is the first one.
proof fn lemma_close_found(s: Seq<char>, i: int, c: int)
    requires
        0 <= i <= c < s.len(),
        s[c] == '}',
        forall|j: int| i <= j < c ==> #[trigger] s[j] != '}',
    ensures
        close_pos(s, i) == c,
    decreases c - i,
{
    if i < c {
        lemma_close_found(s, i + 1, c);
    }
}

/// Where no `}` stands at or after `i`, there is no closing brace.
proof fn lemma_close_none(s: Seq<char>, i: int)
    requires
        0 <= i,
        forall|j: int| i <= j < s.len() ==> #[trigger] s[j] != '}',
    ensures
        close_pos(s, i) == s.len(),
    decreases s.len() - i,
{
    if i < s.len() {
        lemma_close_none(s, i + 1);
    }
}

/// Every character of a shortened digit string is still a digit.
proof fn lemma_all_digits_drop_last(s: Seq<char>)
    requires
        all_ascii_digits(s),
        s.len() > 0,
    ensures
        all_ascii_digits(s.drop_last()),
{
    assert forall|j: int| 0 <= j < s.drop_last().len() implies ascii_digit(
        #[trigger] s.drop_last()[j],
    ) by {
        assert(s.drop_last()[j] == s[j]);
    }
}

/// A string of decimal digits denotes a value that is not negative.
proof fn lemma_digits_value_nonneg(s: Seq<char>)
    requires
        all_ascii_digits(s),
    ensures
        digits_value(s) >= 0,
    decreases s.len(),
{
    if s.len() > 0 {
        lemma_all_digits_drop_last(s);
        lemma_digits_value_nonneg(s.drop_last());
        assert(ascii_digit(s.last()));
    }
}

/// Appending digits never makes the denoted value smaller.
proof fn lemma_digits_value_prefix(s: Seq<char>, k: int)
    requires
        all_ascii_digits(s),
        0 <= k <= s.len(),
    ensures
        digits_value(s.take(k)) <= digits_value(s),
    decreases s.len(),
{
    if k == s.len() {
        assert(s.take(k) =~= s);
    } else {
        lemma_all_digits_drop_last(s);
        assert(s.drop_last().take(k) =~= s.take(k));
        lemma_digits_value_prefix(s.drop_last(), k);
        lemma_digits_value_nonneg(s.drop_last());
        assert(ascii_digit(s.last()));
    }
}

/// Reads the run of characters collected for a number token as a
/// decimal integer. A run with a character that is not a decimal
/// digit, or whose value does not fit the result type, reads as zero.
fn parse_decimal(digits: &Vec<char>) -> (v: i32)
    ensures
        v as int == number_value(digits@),
{
    let mut val: i32 = 0;
    let mut ok: bool = true;
    let mut i: usize = 0;
    while i < digits.len()
        invariant
            i <= digits.len(),
            ok ==> all_ascii_digits(digits@.take(i as int)) && 0 <= val && val as int
                == digits_value(digits@.take(i as int)),
            !ok ==> !(all_ascii_digits(digits@) && digits_value(digits@) <= i32::MAX),
        decreases digits.len() - i,
    {
        let c = digits[i];
        let cu: u32 = c as u32;
        if ok {
            if 48 <= cu && cu <= 57 {
                let d: i32 = (cu - 48) as i32;
                let wide: i64 = (val as i64) * 10 + (d as i64);
                proof {
                    assert(digits@.take(i + 1).drop_last() =~= digits@.take(i as int));
                    assert(digits@.take(i + 1).last() == digits@[i as int]);
                }
                if wide <= i32::MAX as i64 {
                    val = wide as i32;
                    proof {
                        assert(ascii_digit(c));
                        assert forall|j: int| 0 <= j < i + 1 implies ascii_digit(
                            #[trigger] digits@.take(i + 1)[j],
                        ) by {
                            if j < i {
                                assert(digits@.take(i + 1)[j] == digits@.take(i as int)[j]);
                            } else {
                                assert(digits@.take(i + 1)[j] == digits@[i as int]);
                            }
                        }
                    }
                } else {
                    ok = false;
                    proof {
                        if all_ascii_digits(digits@) {
                            lemma_digits_value_prefix(digits@, i + 1);
                        }
                    }
                }
            } else {
                ok = false;
                proof {
                    assert(!ascii_digit(digits@[i as int]));
                }
            }
        }
        i = i + 1;
    }
    proof {
        assert(digits@.take(digits@.len() as int) =~= digits@);
    }
    if ok {
        val
    } else {
        0
    }
}

/// Copies the characters of `v` between `from` and `to` into an owned
/// string.
fn chars_to_string(v: &Vec<char>, from: usize, to: usize) -> (s: String)
    requires
        from <= to <= v@.len(),
    ensures
        s@ == v@.subrange(from as int, to as int),
{
    let mut s = String::new();
    let mut i: usize = from;
    while i < to
        invariant
            from <= i <= to <= v@.len(),
            s@ == v@.subrange(from as int, i as int),
        decreases to - i,
    {
        s.push(v[i]);
        proof {
            assert(s@ =~= v@.subrange(from as int, i + 1));
        }
        i = i + 1;
    }
    s
}

/// Index of the first interpolation marker `#{` in `v`, and the
/// length of `v` when there is none.
fn find_marker(v: &Vec<char>) -> (m: usize)
    ensures
        m as int == marker_pos(v@, 0),
{
    let n = v.len();
    let mut j: usize = 0;
    while j + 1 < n
        invariant
            n == v@.len(),
            j == 0 || j < n,
            forall|k: int| 0 <= k < j ==> !(#[trigger] v@[k] == '#' && v@[k + 1] == '{'),
        decreases n - j,
    {
        if v[j] == '#' && v[j + 1] == '{' {
            proof {
                lemma_marker_found(v@, 0, j as int);
            }
            return j;
        }
        j = j + 1;
    }
    proof {
        lemma_marker_none(v@, 0);
    }
    n
}

/// Index of the first `}` in `v` at or after `from`, and the length of
/// `v` when there is none.
fn find_close(v: &Vec<char>, from: usize) -> (c: usize)
    requires
        from <= v@.len(),
    ensures
        from <= c <= v@.len(),
        c as int == close_pos(v@, from as int),
{
    let n = v.len();
    let mut k: usize = from;
    while k < n
        invariant
            n == v@.len(),
            from <= k <= n,
            forall|j: int| from <= j < k ==> #[trigger] v@[j] != '}',
        decreases n - k,
    {
        if v[k] == '}' {
            proof {
                lemma_close_found(v@, from as int, k as int);
            }
            return k;
        }
        k = k + 1;
    }
    proof {
        lemma_close_none(v@, from as int);
    }
    n
}

/// Builds the token for a string literal from its collected contents
/// and its quote character: an `Interpolation` when a double-quoted
/// literal holds a `#{` marker with a later `}`, and a `Text`
/// otherwise.
fn make_string_token(body: &Vec<char>, quote: char) -> (t: Token)
    ensures
        t@ == string_token(body@, quote),
{
    let n = body.len();
    if quote == '"' {
        let marker = find_marker(body);
        if n >= 2 && marker <= n - 2 {
            let close = find_close(body, marker + 2);
            if close < n {
                proof {
                    assert(body@.subrange(0, marker as int) =~= body@.take(marker as int));
                }
                let prefix = chars_to_string(body, 0, marker);
                let expression = chars_to_string(body, marker + 2, close);
                Token::Interpolation(prefix, expression)
            } else {
                proof {
                    assert(body@.subrange(0, n as int) =~= body@);
                }
                Token::Text(chars_to_string(body, 0, n))
            }
        } else {
            proof {
                assert(body@.subrange(0, n as int) =~= body@);
            }
            Token::Text(chars_to_string(body, 0, n))
        }
    } else {
        proof {
            assert(body@.subrange(0, n as int) =~= body@);
        }
        Token::Text(chars_to_string(body, 0, n))
    }
}

// ---------------------------------------------------------------------------
// The lexer
// ---------------------------------------------------------------------------

/// A cursor over one source text. It is built once per text and hands
/// out one token per `next_token` call until the terminal `Eof`.
pub struct Lexer {
    input: Vec<char>,
    position: usize,
}

/// The mathematical state of a [`Lexer`]: the characters of the whole
/// source text and the count of characters consumed so far.
pub struct LexerModel {
    pub input: Seq<char>,
    pub position: int,
}

impl View for Lexer {
    type V = LexerModel;

    closed spec fn view(&self) -> LexerModel {
        LexerModel { input: self.input@, position: self.position as int }
    }
}

impl Lexer {
    /// The cursor never stands past the end of the text.
    pub open spec fn wf(&self) -> bool {
        0 <= self@.position <= self@.input.len()
    }

    /// Builds a lexer over the given source text, with the cursor on
    /// the first character.
    pub fn new(input: &str) -> (lexer: Lexer)
        ensures
            lexer.wf(),
            lexer@.input == input@,
            lexer@.position == 0,
    {
        let n = input.unicode_len();
        let mut chars: Vec<char> = Vec::new();
        let mut i: usize = 0;
        while i < n
            invariant
                i <= n,
                n == input@.len(),
                chars@ == input@.take(i as int),
            decreases n - i,
        {
            let c = input.get_char(i);
            chars.push(c);
            proof {
                assert(chars@ =~= input@.take(i + 1));
            }
            i = i + 1;
        }
        proof {
            assert(chars@ =~= input@);
        }
        Lexer { input: chars, position: 0 }
    }

    /// The next unconsumed character, when one remains.
    fn peek(&self) -> (c: Option<char>)
        requires
            self.wf(),
        ensures
            self@.position < self@.input.len() ==> c == Some(self@.input[self@.position]),
            self@.position >= self@.input.len() ==> c is None,
    {
        if self.position < self.input.len() {
            Some(self.input[self.position])
        } else {
            None
        }
    }

    /// Scans the run of alphabetic characters whose first character,
    /// already consumed, is `first_char`, and returns it as an
    /// `Identifier`. Any non-alphabetic character ends the run.
    fn read_identifier(&mut self, first_char: char) -> (t: Token)
        requires
            old(self).wf(),
            1 <= old(self)@.position,
            old(self)@.input[old(self)@.position - 1] == first_char,
            alphabetic(first_char),
        ensures
            final(self).wf(),
            final(self)@.input == old(self)@.input,
            ({
                let start = old(self)@.position - 1;
                let n = alpha_run_len(old(self)@.input, start) as int;
                t@ == TokenModel::Identifier(old(self)@.input.subrange(start, start + n))
                    && final(self)@.position == start + n
            }),
    {
        let ghost start = old(self)@.position - 1;
        let mut identifier = String::new();
        identifier.push(first_char);
        while self.position < self.input.len() && self.input[self.position].is_alphabetic()
            invariant
                self.wf(),
                self@.input == old(self)@.input,
                0 <= start,
                start + 1 <= self@.position,
                identifier@ == self@.input.subrange(start, self@.position as int),
                forall|j: int| start <= j < self@.position ==> alphabetic(
                    #[trigger] self@.input[j],
                ),
            decreases self@.input.len() - self@.position,
        {
            let ch = self.input[self.position];
            identifier.push(ch);
            proof {
                assert(identifier@ =~= self@.input.subrange(start, self@.position + 1));
            }
            self.advance();
        }
        proof {
            lemma_alpha_run(self@.input, start, self@.position as int);
        }
        Token::Identifier(identifier)
    }

    /// Scans the run of alphabetic characters whose first character,
    /// already consumed, is `first_char`, and returns it as a `Symbol`.
    fn read_symbol(&mut self, first_char: char) -> (t: Token)
        requires
            old(self).wf(),
            1 <= old(self)@.position,
            old(self)@.input[old(self)@.position - 1] == first_char,
            alphabetic(first_char),
        ensures
            final(self).wf(),
            final(self)@.input == old(self)@.input,
            ({
                let start = old(self)@.position - 1;
                let n = alpha_run_len(old(self)@.input, start) as int;
                t@ == TokenModel::Symbol(old(self)@.input.subrange(start, start + n))
                    && final(self)@.position == start + n
            }),
    {
        let ghost start = old(self)@.position - 1;
        let mut symbol = String::new();
        symbol.push(first_char);
        while self.position < self.input.len() && self.input[self.position].is_alphabetic()
            invariant
                self.wf(),
                self@.input == old(self)@.input,
                0 <= start,
                start + 1 <= self@.position,
                symbol@ == self@.input.subrange(start, self@.position as int),
                forall|j: int| start <= j < self@.position ==> alphabetic(
                    #[trigger] self@.input[j],
                ),
            decreases self@.input.len() - self@.position,
        {
            let ch = self.input[self.position];
            symbol.push(ch);
            proof {
                assert(symbol@ =~= self@.input.subrange(start, self@.position + 1));
            }
            self.advance();
        }
        proof {
            lemma_alpha_run(self@.input, start, self@.position as int);
        }
        Token::Symbol(symbol)
    }

    /// Scans the run of numeric characters whose first character,
    /// already consumed, is `first_char`, and returns its decimal value
    /// as a `Number`. A run that is not plain decimal digits, or whose
    /// value does not fit the token's integer, yields zero.
    fn read_number(&mut self, first_char: char) -> (t: Token)
        requires
            old(self).wf(),
            1 <= old(self)@.position,
            old(self)@.input[old(self)@.position - 1] == first_char,
            numeric(first_char),
        ensures
            final(self).wf(),
            final(self)@.input == old(self)@.input,
            ({
                let start = old(self)@.position - 1;
                let n = numeric_run_len(old(self)@.input, start) as int;
                t@ == TokenModel::Number(number_value(old(self)@.input.subrange(start, start + n)))
                    && final(self)@.position == start + n
            }),
    {
        let ghost start = old(self)@.position - 1;
        let mut number: Vec<char> = Vec::new();
        number.push(first_char);
        while self.position < self.input.len() && self.input[self.position].is_numeric()
            invariant
                self.wf(),
                self@.input == old(self)@.input,
                0 <= start,
                start + 1 <= self@.position,
                number@ == self@.input.subrange(start, self@.position as int),
                forall|j: int| start <= j < self@.position ==> numeric(#[trigger] self@.input[j]),
            decreases self@.input.len() - self@.position,
        {
            let ch = self.input[self.position];
            number.push(ch);
            proof {
                assert(number@ =~= self@.input.subrange(start, self@.position + 1));
            }
            self.advance();
        }
        proof {
            lemma_numeric_run(self@.input, start, self@.position as int);
        }
        Token::Number(parse_decimal(&number))
    }

    /// Resolves the token that begins with an already consumed `>`:
    /// `>=` when an `=` follows, else `>` alone, consuming nothing.
    fn resolve_greater(&mut self) -> (t: Token)
        requires
            old(self).wf(),
            1 <= old(self)@.position,
        ensures
            final(self).wf(),
            final(self)@.input == old(self)@.input,
            ({
                let s = old(self)@.input;
                let i = old(self)@.position - 1;
                if i + 1 < s.len() && s[i + 1] == '=' {
                    t@ == TokenModel::GreaterThanOrEqual && final(self)@.position == i + 2
                } else {
                    t@ == TokenModel::GreaterThan && final(self)@.position == i + 1
                }
            }),
    {
        if self.position < self.input.len() && self.input[self.position] == '=' {
            self.advance();
            Token::GreaterThanOrEqual
        } else {
            Token::GreaterThan
        }
    }

    /// Resolves the token that begins with an already consumed `<`:
    /// `<=` when an `=` follows, else `<` alone, consuming nothing.
    fn resolve_less(&mut self) -> (t: Token)
        requires
            old(self).wf(),
            1 <= old(self)@.position,
        ensures
            final(self).wf(),
            final(self)@.input == old(self)@.input,
            ({
                let s = old(self)@.input;
                let i = old(self)@.position - 1;
                if i + 1 < s.len() && s[i + 1] == '=' {
                    t@ == TokenModel::LessThanOrEqual && final(self)@.position == i + 2
                } else {
                    t@ == TokenModel::LessThan && final(self)@.position == i + 1
                }
            }),
    {
        if self.position < self.input.len() && self.input[self.position] == '=' {
            self.advance();
            Token::LessThanOrEqual
        } else {
            Token::LessThan
        }
    }

    /// Resolves the token that begins with an already consumed `=`,
    /// greedily: `===`, then `==`, then `=>`, then `=` alone.
    fn resolve_equal(&mut self) -> (t: Token)
        requires
            old(self).wf(),
            1 <= old(self)@.position,
        ensures
            final(self).wf(),
            final(self)@.input == old(self)@.input,
            ({
                let r = scan_equal(old(self)@.input, old(self)@.position - 1);
                t@ == r.0 && final(self)@.position == old(self)@.position - 1 + r.1
            }),
    {
        if self.position < self.input.len() && self.input[self.position] == '=' {
            self.advance();
            if self.position < self.input.len() && self.input[self.position] == '=' {
                self.advance();
                Token::EqualEqualEqual
            } else {
                Token::EqualEqual
            }
        } else if self.position < self.input.len() && self.input[self.position] == '>' {
            self.advance();
            Token::Arrow
        } else {
            Token::Equal
        }
    }

    /// Resolves what follows an already consumed `:`: a `Symbol` when
    /// the next character is alphabetic, and a bare `Colon` otherwise.
    fn resolve_colon_or_symbol(&mut self) -> (t: Token)
        requires
            old(self).wf(),
            1 <= old(self)@.position,
        ensures
            final(self).wf(),
            final(self)@.input == old(self)@.input,
            ({
                let r = scan_colon(old(self)@.input, old(self)@.position - 1);
                t@ == r.0 && final(self)@.position == old(self)@.position - 1 + r.1
            }),
    {
        if self.position < self.input.len() && self.input[self.position].is_alphabetic() {
            let ch = self.input[self.position];
            self.advance();
            self.read_symbol(ch)
        } else {
            Token::Colon
        }
    }

    /// Produces the next token and consumes exactly the characters it
    /// spans. At the end of the input it returns `Eof`, consumes
    /// nothing, and keeps doing so on every later call; it never fails,
    /// an unrecognized character comes back as an `Illegal` token.
    pub fn next_token(&mut self) -> (t: Token)
        requires
            old(self).wf(),
        ensures
            final(self).wf(),
            final(self)@.input == old(self)@.input,
            ({
                let r = scan_at(old(self)@.input, old(self)@.position);
                t@ == r.0 && final(self)@.position == old(self)@.position + r.1
            }),
    {
        match self.peek() {
            Some(ch) => {
                if ch == ':' {
                    self.advance();
                    self.resolve_colon_or_symbol()
                } else if ch == '{' {
                    self.advance();
                    Token::LeftBrace
                } else if ch == '}' {
                    self.advance();
                    Token::RightBrace
                } else if ch == '*' {
                    self.advance();
                    Token::Asterisk
                } else if ch == '/' {
                    self.advance();
                    Token::Slash
                } else if ch == '%' {
                    self.advance();
                    Token::Percent
                } else if ch == '=' {
                    self.advance();
                    self.resolve_equal()
                } else if ch == '<' {
                    self.advance();
                    self.resolve_less()
                } else if ch == '>' {
                    self.advance();
                    self.resolve_greater()
                } else if ch == '(' {
                    self.advance();
                    Token::LeftParenthesis
                } else if ch == ')' {
                    self.advance();
                    Token::RightParenthesis
                } else if ch == ',' {
                    self.advance();
                    Token::Comma
                } else if ch == '\'' || ch == '"' {
                    self.advance();
                    self.read_string(ch)
                } else if ch == ' ' {
                    self.advance();
                    Token::WhiteSpace
                } else if ch == '\n' {
                    self.advance();
                    Token::BreakLine
                } else if ch == '+' {
                    self.advance();
                    Token::Plus
                } else if ch == '-' {
                    self.advance();
                    Token::Minus
                } else if ch.is_alphabetic() {
                    self.advance();
                    self.read_identifier(ch)
                } else if ch.is_numeric() {
                    self.advance();
                    self.read_number(ch)
                } else {
                    self.advance();
                    let mut illegal = String::new();
                    illegal.push(ch);
                    proof {
                        assert(illegal@ =~= seq![ch]);
                    }
                    Token::Illegal(illegal)
                }
            },
            None => Token::Eof,
        }
    }

    /// Scans a string literal whose opening quote, already consumed,
    /// was `quote`: characters are collected up to the matching quote,
    /// which is consumed, or to the end of the input when the literal
    /// is unterminated.
    fn read_string(&mut self, quote: char) -> (t: Token)
        requires
            old(self).wf(),
            1 <= old(self)@.position,
            old(self)@.input[old(self)@.position - 1] == quote,
        ensures
            final(self).wf(),
            final(self)@.input == old(self)@.input,
            ({
                let r = scan_string(old(self)@.input, old(self)@.position - 1);
                t@ == r.0 && final(self)@.position == old(self)@.position - 1 + r.1
            }),
    {
        let ghost start = old(self)@.position;
        let mut text: Vec<char> = Vec::new();
        while self.position < self.input.len() && self.input[self.position] != quote
            invariant
                self.wf(),
                self@.input == old(self)@.input,
                0 <= start <= self@.position,
                text@ == self@.input.subrange(start as int, self@.position as int),
                forall|j: int| start <= j < self@.position ==> #[trigger] self@.input[j] != quote,
            decreases self@.input.len() - self@.position,
        {
            let ch = self.input[self.position];
            text.push(ch);
            proof {
                assert(text@ =~= self@.input.subrange(start as int, self@.position + 1));
            }
            self.advance();
        }
        proof {
            lemma_string_body(self@.input, start as int, self@.position as int, quote);
        }
        if self.position < self.input.len() {
            self.advance();
        }
        make_string_token(&text, quote)
    }

    /// Consumes one character.
    fn advance(&mut self)
        requires
            old(self).wf(),
            old(self)@.position < old(self)@.input.len(),
        ensures
            final(self).wf(),
            final(self)@.input == old(self)@.input,
            final(self)@.position == old(self)@.position + 1,
    {
        let n: usize = self.input.len();
        assert(self.position < n);
        self.position = self.position + 1;
    }
}

// ---------------------------------------------------------------------------
// Laws of the scanner
// ---------------------------------------------------------------------------

/// On empty input the scanner reports `Eof` and consumes nothing, on
/// the first and on every later call.
pub proof fn lemma_empty_input_eof(s: Seq<char>, i: int)
    requires
        s.len() == 0,
        0 <= i,
    ensures
        scan_at(s, i) == (TokenModel::Eof, 0int),
{
}

/// The characters that always form a fixed one-character token.
pub open spec fn fixed_single_char(c: char) -> bool {
    c == '+' || c == '-' || c == '*' || c == '/' || c == '%' || c == '{' || c == '}' || c == '('
        || c == ')' || c == ',' || c == ' ' || c == '\n'
}

/// The fixed token that each such character forms.
pub open spec fn fixed_single_token(c: char) -> TokenModel
    recommends
        fixed_single_char(c),
{
    if c == '+' {
        TokenModel::Plus
    } else if c == '-' {
        TokenModel::Minus
    } else if c == '*' {
        TokenModel::Asterisk
    } else if c == '/' {
        TokenModel::Slash
    } else if c == '%' {
        TokenModel::Percent
    } else if c == '{' {
        TokenModel::LeftBrace
    } else if c == '}' {
        TokenModel::RightBrace
    } else if c == '(' {
        TokenModel::LeftParenthesis
    } else if c == ')' {
        TokenModel::RightParenthesis
    } else if c == ',' {
        TokenModel::Comma
    } else if c == ' ' {
        TokenModel::WhiteSpace
    } else {
        TokenModel::BreakLine
    }
}

/// On a character that forms a fixed one-character token the scanner
/// returns exactly that token and consumes exactly that one character.
pub proof fn lemma_single_char_token(s: Seq<char>, i: int)
    requires
        0 <= i < s.len(),
        fixed_single_char(s[i]),
    ensures
        scan_at(s, i) == (fixed_single_token(s[i]), 1int),
{
}

/// A maximal run of alphabetic characters is scanned as a single
/// `Identifier` holding the whole run: the character after the run,
/// a digit included, ends it.
pub proof fn lemma_identifier_run(s: Seq<char>, i: int, end: int)
    requires
        0 <= i < end <= s.len(),
        forall|j: int| i <= j < end ==> alphabetic(#[trigger] s[j]),
        end == s.len() || !alphabetic(s[end]),
    ensures
        scan_at(s, i) == (TokenModel::Identifier(s.subrange(i, end)), end - i),
{
    lemma_alpha_run(s, i, end);
    assert(alphabetic(s[i]));
}

/// A maximal run of numeric characters is scanned as a single `Number`
/// carrying the run's decimal value. A character that is alphabetic as
/// well as numeric starts an identifier instead, so the run's first
/// character is asked not to be alphabetic.
pub proof fn lemma_number_run(s: Seq<char>, i: int, end: int)
    requires
        0 <= i < end <= s.len(),
        !alphabetic(s[i]),
        forall|j: int| i <= j < end ==> numeric(#[trigger] s[j]),
        end == s.len() || !numeric(s[end]),
    ensures
        scan_at(s, i) == (TokenModel::Number(number_value(s.subrange(i, end))), end - i),
{
    lemma_numeric_run(s, i, end);
}

/// The end of the input is a stable terminal state: the scanner
/// reports `Eof` exactly at the end of the text, and there it consumes
/// nothing, so every later call reports `Eof` again.
pub proof fn lemma_eof_stable(s: Seq<char>, i: int)
    requires
        0 <= i <= s.len(),
    ensures
        (scan_at(s, i).0 is Eof) <==> i == s.len(),
        i == s.len() ==> scan_at(s, i) == (TokenModel::Eof, 0int),
{
}

} // verus!
