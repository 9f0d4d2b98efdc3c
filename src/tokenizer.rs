//! The scanner: a text with the class of each of its characters, read one
//! token at a time.

use vstd::prelude::*;
use crate::token::{Token, TokenView};

verus! {

/// Whether a character has Unicode's White_Space property, which is what
/// `char::is_whitespace` tests.
pub open spec fn whitespace(c: char) -> bool {
    ('\u{9}' <= c && c <= '\u{d}') || c == ' ' || c == '\u{85}' || c == '\u{a0}' || c == '\u{1680}'
        || ('\u{2000}' <= c && c <= '\u{200a}') || c == '\u{2028}' || c == '\u{2029}' || c
        == '\u{202f}' || c == '\u{205f}' || c == '\u{3000}'
}

/// Whether `char::is_alphabetic` holds of a character (Unicode Alphabetic).
pub uninterp spec fn alphabetic(c: char) -> bool;

/// Whether `char::is_numeric` holds of a character (Unicode general categories Nd, Nl, No).
pub uninterp spec fn numeric(c: char) -> bool;

/// What the scanner needs to know of a character beyond the character itself.
#[derive(Debug, Clone, Copy, PartialEq, Eq, Structural)]
pub struct CharClass {
    pub whitespace: bool,
    pub alphabetic: bool,
    pub numeric: bool,
}

/// The class of a character under std's Unicode classification.
pub open spec fn class_of(c: char) -> CharClass {
    CharClass { whitespace: whitespace(c), alphabetic: alphabetic(c), numeric: numeric(c) }
}

/// The classes of the characters of a text, in order.
pub open spec fn classes_of(s: Seq<char>) -> Seq<CharClass> {
    s.map_values(|c: char| class_of(c))
}

pub open spec fn is_digit(c: char) -> bool {
    '0' <= c && c <= '9'
}

pub open spec fn starts_name(c: char, class: CharClass) -> bool {
    class.alphabetic || c == '_'
}

pub open spec fn continues_name(c: char, class: CharClass) -> bool {
    class.alphabetic || class.numeric || c == '_'
}

/// The first position at or after `p` that does not hold whitespace.
pub open spec fn skip_whitespace(s: Seq<char>, k: Seq<CharClass>, p: nat) -> nat
    decreases s.len() - p,
{
    if p < s.len() && k[p as int].whitespace {
        skip_whitespace(s, k, p + 1)
    } else {
        p
    }
}

/// The end of the run of name characters that starts at `p`.
pub open spec fn name_end(s: Seq<char>, k: Seq<CharClass>, p: nat) -> nat
    decreases s.len() - p,
{
    if p < s.len() && continues_name(s[p as int], k[p as int]) {
        name_end(s, k, p + 1)
    } else {
        p
    }
}

/// The end of the run of decimal digits that starts at `p`.
pub open spec fn digits_end(s: Seq<char>, p: nat) -> nat
    decreases s.len() - p,
{
    if p < s.len() && is_digit(s[p as int]) {
        digits_end(s, p + 1)
    } else {
        p
    }
}

/// The number that a string of decimal digits denotes.
pub open spec fn digits_value(d: Seq<char>) -> int
    decreases d.len(),
{
    if d.len() == 0 {
        0
    } else {
        digits_value(d.drop_last()) * 10 + (d.last() as int - '0' as int)
    }
}

/// The token for a run of digits: a number with a leading zero, or one
/// beyond `i32`, is illegal.
pub open spec fn literal_token(d: Seq<char>) -> TokenView {
    if d.len() > 1 && d[0] == '0' {
        TokenView::Illegal
    } else if digits_value(d) <= i32::MAX {
        TokenView::Literal(digits_value(d) as i32)
    } else {
        TokenView::Illegal
    }
}

/// Where the token that starts at `q` (a position before the end) ends.
pub open spec fn token_end(s: Seq<char>, k: Seq<CharClass>, q: nat) -> nat {
    let c = s[q as int];
    if is_operator(c) {
        q + 1
    } else if starts_name(c, k[q as int]) {
        name_end(s, k, q + 1)
    } else if is_digit(c) {
        digits_end(s, q + 1)
    } else {
        q + 1
    }
}

pub open spec fn is_operator(c: char) -> bool {
    c == '=' || c == '+' || c == '-' || c == '*' || c == ';' || c == '(' || c == ')'
}

/// The token that starts at `q` (a position before the end).
pub open spec fn token_of(s: Seq<char>, k: Seq<CharClass>, q: nat) -> TokenView {
    let c = s[q as int];
    if c == '=' {
        TokenView::Assign
    } else if c == '+' {
        TokenView::Plus
    } else if c == '-' {
        TokenView::Minus
    } else if c == '*' {
        TokenView::Multiply
    } else if c == ';' {
        TokenView::Semicolon
    } else if c == '(' {
        TokenView::LeftParenthesis
    } else if c == ')' {
        TokenView::RightParenthesis
    } else if starts_name(c, k[q as int]) {
        TokenView::Id(s.subrange(q as int, name_end(s, k, q + 1) as int))
    } else if is_digit(c) {
        literal_token(s.subrange(q as int, digits_end(s, q + 1) as int))
    } else {
        TokenView::Illegal
    }
}

/// One step of the scanner from position `p`: the token found and the number
/// of characters consumed, leading whitespace included.
#[verifier::opaque]
pub open spec fn scan(s: Seq<char>, k: Seq<CharClass>, p: nat) -> (TokenView, nat) {
    let q = skip_whitespace(s, k, p);
    if q < s.len() {
        (token_of(s, k, q), (token_end(s, k, q) - p) as nat)
    } else {
        (TokenView::EndOfFile, (q - p) as nat)
    }
}

proof fn lemma_skip_whitespace(s: Seq<char>, k: Seq<CharClass>, p: nat)
    ensures
        p <= skip_whitespace(s, k, p),
        p <= s.len() ==> skip_whitespace(s, k, p) <= s.len(),
    decreases s.len() - p,
{
    if p < s.len() && k[p as int].whitespace {
        lemma_skip_whitespace(s, k, p + 1);
    }
}

/// Skipping stops at a character that is not whitespace.
pub proof fn lemma_skip_stops(s: Seq<char>, k: Seq<CharClass>, p: nat)
    ensures
        skip_whitespace(s, k, p) < s.len() ==> !k[skip_whitespace(s, k, p) as int].whitespace,
    decreases s.len() - p,
{
    if p < s.len() && k[p as int].whitespace {
        lemma_skip_stops(s, k, p + 1);
    }
}

proof fn lemma_name_end(s: Seq<char>, k: Seq<CharClass>, p: nat)
    ensures
        p <= name_end(s, k, p),
        p <= s.len() ==> name_end(s, k, p) <= s.len(),
    decreases s.len() - p,
{
    if p < s.len() && continues_name(s[p as int], k[p as int]) {
        lemma_name_end(s, k, p + 1);
    }
}

proof fn lemma_digits_end(s: Seq<char>, p: nat)
    ensures
        p <= digits_end(s, p),
        p <= s.len() ==> digits_end(s, p) <= s.len(),
    decreases s.len() - p,
{
    if p < s.len() && is_digit(s[p as int]) {
        lemma_digits_end(s, p + 1);
    }
}

/// A step of the scanner stays within the text, and one that finds a token
/// other than `EndOfFile` starts before the end and consumes something.
pub proof fn lemma_scan_bounds(s: Seq<char>, k: Seq<CharClass>, p: nat)
    requires
        p <= s.len(),
    ensures
        p + scan(s, k, p).1 <= s.len(),
        skip_whitespace(s, k, p) < s.len() ==> p + scan(s, k, p).1 == token_end(s, k, skip_whitespace(s, k, p)),
        skip_whitespace(s, k, p) >= s.len() ==> p + scan(s, k, p).1 == s.len(),
        scan(s, k, p).0 != TokenView::EndOfFile ==> p < s.len() && scan(s, k, p).1 > 0,
{
    reveal(scan);
    let q = skip_whitespace(s, k, p);
    lemma_skip_whitespace(s, k, p);
    if q < s.len() {
        lemma_name_end(s, k, q + 1);
        lemma_digits_end(s, q + 1);
    }
}

/// Relies on `char::is_whitespace`: true exactly of the characters with
/// Unicode's White_Space property.
#[verifier::external_body]
fn is_whitespace(c: char) -> (r: bool)
    ensures
        r == whitespace(c),
{
    c.is_whitespace()
}

/// Relies on `char::is_alphabetic`: its answer depends on the character alone.
#[verifier::external_body]
fn is_alphabetic(c: char) -> (r: bool)
    ensures
        r == alphabetic(c),
{
    c.is_alphabetic()
}

/// Relies on `char::is_numeric`: its answer depends on the character alone.
#[verifier::external_body]
fn is_numeric(c: char) -> (r: bool)
    ensures
        r == numeric(c),
{
    c.is_numeric()
}

/// The characters of a string, in order.
fn chars_of(s: &str) -> (r: Vec<char>)
    ensures
        r@ == s@,
{
    let mut out: Vec<char> = Vec::new();
    for c in it: s.chars()
        invariant
            out@ == it.seq().subrange(0, it.index() as int),
    {
        out.push(c);
    }
    out
}

/// Relies on `String: FromIterator<char>`: the string of the given characters.
#[verifier::external_body]
fn string_of(v: &Vec<char>) -> (r: String)
    ensures
        r@ == v@,
{
    v.iter().collect()
}

fn is_digit_char(c: char) -> (r: bool)
    ensures
        r == is_digit(c),
{
    '0' <= c && c <= '9'
}

/// The class of a character, from std's classification.
pub fn classify(c: char) -> (r: CharClass)
    ensures
        r == class_of(c),
{
    CharClass { whitespace: is_whitespace(c), alphabetic: is_alphabetic(c), numeric: is_numeric(c) }
}

/// A scanner over a source text: it hands out one token per call.
pub struct Tokenizer {
    chars: Vec<char>,
    classes: Vec<CharClass>,
    pos: usize,
}

impl Tokenizer {
    /// The text being scanned.
    pub closed spec fn source(&self) -> Seq<char> {
        self.chars@
    }

    /// The class of each character of the text.
    pub closed spec fn classes(&self) -> Seq<CharClass> {
        self.classes@
    }

    /// The position of the next character to read.
    pub closed spec fn cursor(&self) -> nat {
        self.pos as nat
    }

    pub closed spec fn wf(&self) -> bool {
        self.pos <= self.chars.len() && self.classes.len() == self.chars.len()
    }

    /// A scanner at the start of `input`, whose characters are classed by std.
    pub fn new(input: &str) -> (r: Tokenizer)
        ensures
            r.wf(),
            r.source() == input@,
            r.classes() == classes_of(input@),
            r.cursor() == 0,
    {
        let chars = chars_of(input);
        let mut classes: Vec<CharClass> = Vec::new();
        let mut i: usize = 0;
        while i < chars.len()
            invariant
                i <= chars.len(),
                classes@ == classes_of(chars@.subrange(0, i as int)),
            decreases chars.len() - i,
        {
            classes.push(classify(chars[i]));
            i = i + 1;
            assert(classes_of(chars@.subrange(0, i as int)) =~= classes_of(
                chars@.subrange(0, i - 1),
            ).push(class_of(chars@[i - 1])));
        }
        assert(chars@.subrange(0, i as int) =~= chars@);
        Tokenizer { chars, classes, pos: 0 }
    }

    /// A scanner at the start of `chars`, the class of each of which is given.
    pub fn with_classes(chars: Vec<char>, classes: Vec<CharClass>) -> (r: Tokenizer)
        requires
            chars.len() == classes.len(),
        ensures
            r.wf(),
            r.source() == chars@,
            r.classes() == classes@,
            r.cursor() == 0,
    {
        Tokenizer { chars, classes, pos: 0 }
    }

    /// Goes back to the start of the text.
    pub fn rewind(&mut self)
        requires
            old(self).wf(),
        ensures
            final(self).wf(),
            final(self).source() == old(self).source(),
            final(self).classes() == old(self).classes(),
            final(self).cursor() == 0,
    {
        self.pos = 0;
    }

    fn skip_whitespace(&mut self)
        requires
            old(self).wf(),
        ensures
            final(self).wf(),
            final(self).chars@ == old(self).chars@,
            final(self).classes@ == old(self).classes@,
            final(self).pos == skip_whitespace(
                old(self).chars@,
                old(self).classes@,
                old(self).pos as nat,
            ),
    {
        let ghost s = self.chars@;
        let ghost k = self.classes@;
        let ghost start = self.pos as nat;
        while self.pos < self.chars.len() && self.classes[self.pos].whitespace
            invariant
                self.wf(),
                self.chars@ == s,
                self.classes@ == k,
                skip_whitespace(s, k, start) == skip_whitespace(s, k, self.pos as nat),
            decreases self.chars.len() - self.pos,
        {
            self.pos = self.pos + 1;
        }
    }

    fn at_name_char(&self) -> (r: bool)
        requires
            self.wf(),
        ensures
            r == (self.pos < self.chars.len() && continues_name(
                self.chars@[self.pos as int],
                self.classes@[self.pos as int],
            )),
    {
        if self.pos >= self.chars.len() {
            return false;
        }
        let class = self.classes[self.pos];
        class.alphabetic || class.numeric || self.chars[self.pos] == '_'
    }

    /// Reads the rest of a name whose first character, `first`, was just read.
    fn read_identifier(&mut self, first: char) -> (r: Token)
        requires
            old(self).wf(),
            old(self).pos >= 1,
            old(self).chars@[old(self).pos - 1] == first,
        ensures
            final(self).wf(),
            final(self).chars@ == old(self).chars@,
            final(self).classes@ == old(self).classes@,
            final(self).pos == name_end(old(self).chars@, old(self).classes@, old(self).pos as nat),
            r@ == TokenView::Id(old(self).chars@.subrange(old(self).pos - 1, final(self).pos as int)),
    {
        let ghost s = self.chars@;
        let ghost k = self.classes@;
        let ghost start = self.pos as nat;
        let mut ident: Vec<char> = Vec::new();
        ident.push(first);
        while self.at_name_char()
            invariant
                self.wf(),
                self.chars@ == s,
                self.classes@ == k,
                1 <= start <= self.pos <= s.len(),
                name_end(s, k, start) == name_end(s, k, self.pos as nat),
                ident@ == s.subrange(start - 1, self.pos as int),
            decreases self.chars.len() - self.pos,
        {
            ident.push(self.chars[self.pos]);
            self.pos = self.pos + 1;
            assert(ident@ == s.subrange(start - 1, self.pos as int));
        }
        Token::Id(string_of(&ident))
    }

    /// Reads the rest of a number whose first digit, `first`, was just read.
    fn read_literal(&mut self, first: char) -> (r: Token)
        requires
            old(self).wf(),
            old(self).pos >= 1,
            old(self).chars@[old(self).pos - 1] == first,
            is_digit(first),
        ensures
            final(self).wf(),
            final(self).chars@ == old(self).chars@,
            final(self).classes@ == old(self).classes@,
            final(self).pos == digits_end(old(self).chars@, old(self).pos as nat),
            r@ == literal_token(old(self).chars@.subrange(old(self).pos - 1, final(self).pos as int)),
    {
        let ghost s = self.chars@;
        let ghost k = self.classes@;
        let ghost start = self.pos as nat;
        let first_end: usize = self.pos;
        let mut value: i64 = (first as u32 - '0' as u32) as i64;
        let mut too_big = false;
        proof {
            let d = s.subrange(start - 1, start as int);
            assert(d.drop_last() =~= Seq::<char>::empty());
            assert(d.last() == first);
            assert(value == first as int - '0' as int);
            assert(digits_value(d.drop_last()) == 0);
            assert(digits_value(d) == value);
        }
        while self.pos < self.chars.len() && is_digit_char(self.chars[self.pos])
            invariant
                self.wf(),
                self.chars@ == s,
                self.classes@ == k,
                1 <= start <= self.pos <= s.len(),
                digits_end(s, start) == digits_end(s, self.pos as nat),
                too_big == (digits_value(s.subrange(start - 1, self.pos as int)) > i32::MAX),
                !too_big ==> value == digits_value(s.subrange(start - 1, self.pos as int)),
                digits_value(s.subrange(start - 1, self.pos as int)) >= 0,
            decreases self.chars.len() - self.pos,
        {
            let c = self.chars[self.pos];
            let ghost before = s.subrange(start - 1, self.pos as int);
            self.pos = self.pos + 1;
            let ghost after = s.subrange(start - 1, self.pos as int);
            assert(after.drop_last() =~= before);
            assert(digits_value(after) == digits_value(before) * 10 + (c as int - '0' as int));
            if !too_big {
                value = value * 10 + (c as u32 - '0' as u32) as i64;
                if value > i32::MAX as i64 {
                    too_big = true;
                }
            } else {
                assert(digits_value(after) >= digits_value(before)) by (nonlinear_arith)
                    requires
                        digits_value(after) == digits_value(before) * 10 + (c as int - '0' as int),
                        digits_value(before) >= 0,
                        is_digit(c),
                ;
            }
        }
        if self.pos > first_end && first == '0' {
            Token::Illegal
        } else if too_big {
            Token::Illegal
        } else {
            Token::Literal(value as i32)
        }
    }

    /// Scans the next token. Once the text is exhausted, every call returns
    /// `EndOfFile` and leaves the cursor where it is.
    pub fn next(&mut self) -> (r: Token)
        requires
            old(self).wf(),
        ensures
            final(self).wf(),
            final(self).source() == old(self).source(),
            final(self).classes() == old(self).classes(),
            r@ == scan(old(self).source(), old(self).classes(), old(self).cursor()).0,
            final(self).cursor() == old(self).cursor() + scan(
                old(self).source(),
                old(self).classes(),
                old(self).cursor(),
            ).1,
    {
        proof {
            reveal(scan);
            lemma_scan_bounds(self.chars@, self.classes@, self.pos as nat);
        }
        self.skip_whitespace();
        if self.pos >= self.chars.len() {
            return Token::EndOfFile;
        }
        let ch = self.chars[self.pos];
        self.pos = self.pos + 1;
        if ch == '=' {
            Token::Assign
        } else if ch == '+' {
            Token::Plus
        } else if ch == '-' {
            Token::Minus
        } else if ch == '*' {
            Token::Multiply
        } else if ch == ';' {
            Token::Semicolon
        } else if ch == '(' {
            Token::LeftParenthesis
        } else if ch == ')' {
            Token::RightParenthesis
        } else if self.classes[self.pos - 1].alphabetic || ch == '_' {
            self.read_identifier(ch)
        } else if is_digit_char(ch) {
            self.read_literal(ch)
        } else {
            Token::Illegal
        }
    }
}

} // verus!
