//! The scanner: turns the raw bytes of a Core source program into a flat
//! sequence of tokens, terminated by an explicit end-of-input token.
//!
//! The whole scan is specified by `scan_from`, a total spec-level scanner
//! over the byte sequence; `tokenize_source` is proved to produce exactly
//! that token sequence.

use vstd::prelude::*;

verus! {

/// One lexical unit of a Core source program.
#[derive(Debug, Clone)]
pub enum Token {
    // For errors
    Error,
    // Reserved words
    Whitespace,
    Program,
    Begin,
    End,
    Int,
    If,
    Then,
    Else,
    While,
    Loop,
    Read,
    Write,
    // Special symbols
    Semicolon,
    Comma,
    Assignment,
    Exclamation,
    LeftSquare,
    RightSquare,
    LogicalAnd,
    LogicalOr,
    LeftParen,
    RightParen,
    Addition,
    Subtraction,
    Multiplication,
    LogicalInequality,
    LogicalEquality,
    LessThan,
    GreaterThan,
    LessThanEqual,
    GreaterThanEqual,
    // User-defined
    Integer(i32),
    Identifier(String),
    // Other
    EOF,
}

/// The mathematical shape of a token: what `Token` means in specifications.
/// An identifier is a sequence of characters, an integer a mathematical
/// integer.
pub ghost enum Lexeme {
    Error,
    Whitespace,
    Program,
    Begin,
    End,
    Int,
    If,
    Then,
    Else,
    While,
    Loop,
    Read,
    Write,
    Semicolon,
    Comma,
    Assignment,
    Exclamation,
    LeftSquare,
    RightSquare,
    LogicalAnd,
    LogicalOr,
    LeftParen,
    RightParen,
    Addition,
    Subtraction,
    Multiplication,
    LogicalInequality,
    LogicalEquality,
    LessThan,
    GreaterThan,
    LessThanEqual,
    GreaterThanEqual,
    Integer(int),
    Identifier(Seq<char>),
    EOF,
}

impl View for Token {
    type V = Lexeme;

    open spec fn view(&self) -> Lexeme {
        match self {
            Token::Error => Lexeme::Error,
            Token::Whitespace => Lexeme::Whitespace,
            Token::Program => Lexeme::Program,
            Token::Begin => Lexeme::Begin,
            Token::End => Lexeme::End,
            Token::Int => Lexeme::Int,
            Token::If => Lexeme::If,
            Token::Then => Lexeme::Then,
            Token::Else => Lexeme::Else,
            Token::While => Lexeme::While,
            Token::Loop => Lexeme::Loop,
            Token::Read => Lexeme::Read,
            Token::Write => Lexeme::Write,
            Token::Semicolon => Lexeme::Semicolon,
            Token::Comma => Lexeme::Comma,
            Token::Assignment => Lexeme::Assignment,
            Token::Exclamation => Lexeme::Exclamation,
            Token::LeftSquare => Lexeme::LeftSquare,
            Token::RightSquare => Lexeme::RightSquare,
            Token::LogicalAnd => Lexeme::LogicalAnd,
            Token::LogicalOr => Lexeme::LogicalOr,
            Token::LeftParen => Lexeme::LeftParen,
            Token::RightParen => Lexeme::RightParen,
            Token::Addition => Lexeme::Addition,
            Token::Subtraction => Lexeme::Subtraction,
            Token::Multiplication => Lexeme::Multiplication,
            Token::LogicalInequality => Lexeme::LogicalInequality,
            Token::LogicalEquality => Lexeme::LogicalEquality,
            Token::LessThan => Lexeme::LessThan,
            Token::GreaterThan => Lexeme::GreaterThan,
            Token::LessThanEqual => Lexeme::LessThanEqual,
            Token::GreaterThanEqual => Lexeme::GreaterThanEqual,
            Token::Integer(v) => Lexeme::Integer(*v as int),
            Token::Identifier(s) => Lexeme::Identifier(s@),
            Token::EOF => Lexeme::EOF,
        }
    }
}

impl DeepView for Token {
    type V = Lexeme;

    open spec fn deep_view(&self) -> Lexeme {
        self.view()
    }
}

impl PartialEq for Token {
    #[verifier::rlimit(100)]
    fn eq(&self, other: &Token) -> (r: bool) {
        match (self, other) {
            (Token::Error, Token::Error) => true,
            (Token::Whitespace, Token::Whitespace) => true,
            (Token::Program, Token::Program) => true,
            (Token::Begin, Token::Begin) => true,
            (Token::End, Token::End) => true,
            (Token::Int, Token::Int) => true,
            (Token::If, Token::If) => true,
            (Token::Then, Token::Then) => true,
            (Token::Else, Token::Else) => true,
            (Token::While, Token::While) => true,
            (Token::Loop, Token::Loop) => true,
            (Token::Read, Token::Read) => true,
            (Token::Write, Token::Write) => true,
            (Token::Semicolon, Token::Semicolon) => true,
            (Token::Comma, Token::Comma) => true,
            (Token::Assignment, Token::Assignment) => true,
            (Token::Exclamation, Token::Exclamation) => true,
            (Token::LeftSquare, Token::LeftSquare) => true,
            (Token::RightSquare, Token::RightSquare) => true,
            (Token::LogicalAnd, Token::LogicalAnd) => true,
            (Token::LogicalOr, Token::LogicalOr) => true,
            (Token::LeftParen, Token::LeftParen) => true,
            (Token::RightParen, Token::RightParen) => true,
            (Token::Addition, Token::Addition) => true,
            (Token::Subtraction, Token::Subtraction) => true,
            (Token::Multiplication, Token::Multiplication) => true,
            (Token::LogicalInequality, Token::LogicalInequality) => true,
            (Token::LogicalEquality, Token::LogicalEquality) => true,
            (Token::LessThan, Token::LessThan) => true,
            (Token::GreaterThan, Token::GreaterThan) => true,
            (Token::LessThanEqual, Token::LessThanEqual) => true,
            (Token::GreaterThanEqual, Token::GreaterThanEqual) => true,
            (Token::Integer(a), Token::Integer(b)) => *a == *b,
            (Token::Identifier(a), Token::Identifier(b)) => *a == *b,
            (Token::EOF, Token::EOF) => true,
            _ => false,
        }
    }
}

impl vstd::std_specs::cmp::PartialEqSpecImpl for Token {
    open spec fn obeys_eq_spec() -> bool {
        true
    }

    open spec fn eq_spec(&self, other: &Token) -> bool {
        self@ == other@
    }
}

impl Eq for Token {}

// ---------------------------------------------------------------------------
// Byte classes
// ---------------------------------------------------------------------------

pub open spec fn is_space(b: u8) -> bool {
    b == 32 || b == 10 || b == 13 || b == 9
}

pub open spec fn is_digit(b: u8) -> bool {
    48 <= b && b <= 57
}

pub open spec fn is_lower(b: u8) -> bool {
    97 <= b && b <= 122
}

pub open spec fn is_upper(b: u8) -> bool {
    65 <= b && b <= 90
}

pub open spec fn is_letter(b: u8) -> bool {
    is_lower(b) || is_upper(b)
}

/// The character a scanned identifier byte stands for.  Only upper-case
/// letters and digits are ever consulted; other bytes map arbitrarily.
pub open spec fn byte_char(b: u8) -> char {
    if b == 65 { 'A' } else if b == 66 { 'B' } else if b == 67 { 'C' }
    else if b == 68 { 'D' } else if b == 69 { 'E' } else if b == 70 { 'F' }
    else if b == 71 { 'G' } else if b == 72 { 'H' } else if b == 73 { 'I' }
    else if b == 74 { 'J' } else if b == 75 { 'K' } else if b == 76 { 'L' }
    else if b == 77 { 'M' } else if b == 78 { 'N' } else if b == 79 { 'O' }
    else if b == 80 { 'P' } else if b == 81 { 'Q' } else if b == 82 { 'R' }
    else if b == 83 { 'S' } else if b == 84 { 'T' } else if b == 85 { 'U' }
    else if b == 86 { 'V' } else if b == 87 { 'W' } else if b == 88 { 'X' }
    else if b == 89 { 'Y' } else if b == 90 { 'Z' } else if b == 48 { '0' }
    else if b == 49 { '1' } else if b == 50 { '2' } else if b == 51 { '3' }
    else if b == 52 { '4' } else if b == 53 { '5' } else if b == 54 { '6' }
    else if b == 55 { '7' } else if b == 56 { '8' } else { '9' }
}

// ---------------------------------------------------------------------------
// Maximal runs of a byte class
// ---------------------------------------------------------------------------

pub open spec fn digit_run_end(s: Seq<u8>, i: int) -> int
    decreases s.len() - i when 0 <= i <= s.len()
{
    if i < s.len() && is_digit(s[i]) {
        digit_run_end(s, i + 1)
    } else {
        i
    }
}

pub open spec fn lower_run_end(s: Seq<u8>, i: int) -> int
    decreases s.len() - i when 0 <= i <= s.len()
{
    if i < s.len() && is_lower(s[i]) {
        lower_run_end(s, i + 1)
    } else {
        i
    }
}

pub open spec fn upper_run_end(s: Seq<u8>, i: int) -> int
    decreases s.len() - i when 0 <= i <= s.len()
{
    if i < s.len() && is_upper(s[i]) {
        upper_run_end(s, i + 1)
    } else {
        i
    }
}

pub proof fn lemma_digit_run_end(s: Seq<u8>, i: int)
    requires
        0 <= i <= s.len(),
    ensures
        i <= digit_run_end(s, i) <= s.len(),
        forall|k: int| i <= k < digit_run_end(s, i) ==> is_digit(s[k]),
        digit_run_end(s, i) < s.len() ==> !is_digit(s[digit_run_end(s, i)]),
    decreases s.len() - i,
{
    if i < s.len() && is_digit(s[i]) {
        lemma_digit_run_end(s, i + 1);
    }
}

pub proof fn lemma_lower_run_end(s: Seq<u8>, i: int)
    requires
        0 <= i <= s.len(),
    ensures
        i <= lower_run_end(s, i) <= s.len(),
        forall|k: int| i <= k < lower_run_end(s, i) ==> is_lower(s[k]),
        lower_run_end(s, i) < s.len() ==> !is_lower(s[lower_run_end(s, i)]),
    decreases s.len() - i,
{
    if i < s.len() && is_lower(s[i]) {
        lemma_lower_run_end(s, i + 1);
    }
}

pub proof fn lemma_upper_run_end(s: Seq<u8>, i: int)
    requires
        0 <= i <= s.len(),
    ensures
        i <= upper_run_end(s, i) <= s.len(),
        forall|k: int| i <= k < upper_run_end(s, i) ==> is_upper(s[k]),
        upper_run_end(s, i) < s.len() ==> !is_upper(s[upper_run_end(s, i)]),
    decreases s.len() - i,
{
    if i < s.len() && is_upper(s[i]) {
        lemma_upper_run_end(s, i + 1);
    }
}

// ---------------------------------------------------------------------------
// Integer literals
// ---------------------------------------------------------------------------

/// Value of the decimal digit bytes `s[i .. end]`.
pub open spec fn digits_val(s: Seq<u8>, i: int, end: int) -> int
    decreases end - i,
{
    if end <= i {
        0
    } else {
        digits_val(s, i, end - 1) * 10 + (s[end - 1] - 48)
    }
}

pub proof fn lemma_digits_val_nonneg(s: Seq<u8>, i: int, j: int)
    requires
        i <= j,
        forall|k: int| i <= k < j ==> is_digit(s[k]),
    ensures
        0 <= digits_val(s, i, j),
    decreases j - i,
{
    if j > i {
        lemma_digits_val_nonneg(s, i, j - 1);
        assert(is_digit(s[j - 1]));
    }
}

pub proof fn lemma_digits_val_bounds(s: Seq<u8>, i: int, j: int, end: int)
    requires
        i <= j <= end,
        forall|k: int| i <= k < end ==> is_digit(s[k]),
    ensures
        0 <= digits_val(s, i, j) <= digits_val(s, i, end),
    decreases end - j,
{
    lemma_digits_val_nonneg(s, i, j);
    if end > j {
        lemma_digits_val_bounds(s, i, j, end - 1);
        lemma_digits_val_nonneg(s, i, end - 1);
        assert(is_digit(s[end - 1]));
    }
}

// ---------------------------------------------------------------------------
// One lexeme, by the byte that begins it
// ---------------------------------------------------------------------------

pub open spec fn lex_equal(s: Seq<u8>, i: int) -> (Lexeme, int) {
    if i + 1 < s.len() && s[i + 1] == 61 {
        (Lexeme::LogicalEquality, i + 2)
    } else {
        (Lexeme::Assignment, i + 1)
    }
}

pub open spec fn lex_inequal(s: Seq<u8>, i: int) -> (Lexeme, int) {
    if i + 1 < s.len() && s[i + 1] == 61 {
        (Lexeme::LogicalInequality, i + 2)
    } else {
        (Lexeme::Exclamation, i + 1)
    }
}

pub open spec fn lex_lt(s: Seq<u8>, i: int) -> (Lexeme, int) {
    if i + 1 < s.len() && s[i + 1] == 61 {
        (Lexeme::LessThanEqual, i + 2)
    } else {
        (Lexeme::LessThan, i + 1)
    }
}

pub open spec fn lex_gt(s: Seq<u8>, i: int) -> (Lexeme, int) {
    if i + 1 < s.len() && s[i + 1] == 61 {
        (Lexeme::GreaterThanEqual, i + 2)
    } else {
        (Lexeme::GreaterThan, i + 1)
    }
}

pub open spec fn lex_or(s: Seq<u8>, i: int) -> (Lexeme, int) {
    if i + 1 < s.len() && s[i + 1] == 124 {
        (Lexeme::LogicalOr, i + 2)
    } else {
        (Lexeme::Error, i + 1)
    }
}

pub open spec fn lex_and(s: Seq<u8>, i: int) -> (Lexeme, int) {
    if i + 1 < s.len() && s[i + 1] == 38 {
        (Lexeme::LogicalAnd, i + 2)
    } else {
        (Lexeme::Error, i + 1)
    }
}

pub open spec fn lex_integer(s: Seq<u8>, i: int) -> (Lexeme, int) {
    if i > 0 && is_letter(s[i - 1]) {
        (Lexeme::Error, i + 1)
    } else {
        let end = digit_run_end(s, i);
        if end < s.len() && is_letter(s[end]) {
            (Lexeme::Error, i + 1)
        } else if digits_val(s, i, end) > i32::MAX as int {
            (Lexeme::Error, i + 1)
        } else {
            (Lexeme::Integer(digits_val(s, i, end)), end)
        }
    }
}

/// The reserved word formed by the lower-case bytes `s[i .. end]`, if any.
pub open spec fn keyword_at(s: Seq<u8>, i: int, end: int) -> Lexeme {
    if end - i == 7 && s[i] == 112 && s[i + 1] == 114 && s[i + 2] == 111
        && s[i + 3] == 103 && s[i + 4] == 114 && s[i + 5] == 97 && s[i + 6] == 109 {
        Lexeme::Program
    } else if end - i == 5 && s[i] == 98 && s[i + 1] == 101 && s[i + 2] == 103
        && s[i + 3] == 105 && s[i + 4] == 110 {
        Lexeme::Begin
    } else if end - i == 3 && s[i] == 101 && s[i + 1] == 110 && s[i + 2] == 100 {
        Lexeme::End
    } else if end - i == 3 && s[i] == 105 && s[i + 1] == 110 && s[i + 2] == 116 {
        Lexeme::Int
    } else if end - i == 2 && s[i] == 105 && s[i + 1] == 102 {
        Lexeme::If
    } else if end - i == 4 && s[i] == 116 && s[i + 1] == 104 && s[i + 2] == 101
        && s[i + 3] == 110 {
        Lexeme::Then
    } else if end - i == 4 && s[i] == 101 && s[i + 1] == 108 && s[i + 2] == 115
        && s[i + 3] == 101 {
        Lexeme::Else
    } else if end - i == 5 && s[i] == 119 && s[i + 1] == 104 && s[i + 2] == 105
        && s[i + 3] == 108 && s[i + 4] == 101 {
        Lexeme::While
    } else if end - i == 4 && s[i] == 108 && s[i + 1] == 111 && s[i + 2] == 111
        && s[i + 3] == 112 {
        Lexeme::Loop
    } else if end - i == 4 && s[i] == 114 && s[i + 1] == 101 && s[i + 2] == 97
        && s[i + 3] == 100 {
        Lexeme::Read
    } else if end - i == 5 && s[i] == 119 && s[i + 1] == 114 && s[i + 2] == 105
        && s[i + 3] == 116 && s[i + 4] == 101 {
        Lexeme::Write
    } else {
        Lexeme::Error
    }
}

pub open spec fn lex_keyword(s: Seq<u8>, i: int) -> (Lexeme, int) {
    if i > 0 && (is_upper(s[i - 1]) || is_digit(s[i - 1])) {
        (Lexeme::Error, i + 1)
    } else {
        let end = lower_run_end(s, i);
        if end < s.len() && (is_upper(s[end]) || is_digit(s[end])) {
            (Lexeme::Error, i + 1)
        } else {
            (keyword_at(s, i, end), end)
        }
    }
}

/// The characters of the identifier bytes `s[i .. end]`.
pub open spec fn ident_chars(s: Seq<u8>, i: int, end: int) -> Seq<char> {
    Seq::new((end - i) as nat, |k: int| byte_char(s[i + k]))
}

pub open spec fn lex_identifier(s: Seq<u8>, i: int) -> (Lexeme, int) {
    if i > 0 && (is_lower(s[i - 1]) || is_digit(s[i - 1])) {
        (Lexeme::Error, i + 1)
    } else {
        let mid = upper_run_end(s, i);
        if mid < s.len() && is_lower(s[mid]) {
            (Lexeme::Error, i + 1)
        } else {
            let end = digit_run_end(s, mid);
            if end < s.len() && is_letter(s[end]) {
                (Lexeme::Error, i + 1)
            } else {
                (Lexeme::Identifier(ident_chars(s, i, end)), end)
            }
        }
    }
}

/// The lexeme beginning at `i`, and the index just past its last byte.
/// `s[i]` is expected to be a non-whitespace byte.
pub open spec fn lex_at(s: Seq<u8>, i: int) -> (Lexeme, int) {
    let b = s[i];
    if b == 59 { (Lexeme::Semicolon, i + 1) }
    else if b == 44 { (Lexeme::Comma, i + 1) }
    else if b == 91 { (Lexeme::LeftSquare, i + 1) }
    else if b == 93 { (Lexeme::RightSquare, i + 1) }
    else if b == 40 { (Lexeme::LeftParen, i + 1) }
    else if b == 41 { (Lexeme::RightParen, i + 1) }
    else if b == 43 { (Lexeme::Addition, i + 1) }
    else if b == 45 { (Lexeme::Subtraction, i + 1) }
    else if b == 42 { (Lexeme::Multiplication, i + 1) }
    else if b == 61 { lex_equal(s, i) }
    else if b == 33 { lex_inequal(s, i) }
    else if b == 60 { lex_lt(s, i) }
    else if b == 62 { lex_gt(s, i) }
    else if b == 124 { lex_or(s, i) }
    else if b == 38 { lex_and(s, i) }
    else if is_digit(b) { lex_integer(s, i) }
    else if is_lower(b) { lex_keyword(s, i) }
    else if is_upper(b) { lex_identifier(s, i) }
    else { (Lexeme::Error, i + 1) }
}

pub proof fn lemma_lex_at_advances(s: Seq<u8>, i: int)
    requires
        0 <= i < s.len(),
        !is_space(s[i]),
    ensures
        i < lex_at(s, i).1 <= s.len() || lex_at(s, i).0 == Lexeme::Error,
{
    let b = s[i];
    if is_digit(b) {
        lemma_digit_run_end(s, i);
    } else if is_lower(b) {
        lemma_lower_run_end(s, i);
    } else if is_upper(b) {
        lemma_upper_run_end(s, i);
        let mid = upper_run_end(s, i);
        lemma_digit_run_end(s, mid);
    }
}

// ---------------------------------------------------------------------------
// The whole scan
// ---------------------------------------------------------------------------

/// The token sequence produced from `s[i ..]`: whitespace is discarded, the
/// first unrecognized lexeme becomes a terminal `Error`, and the sequence
/// always ends with the end-of-input marker.
pub open spec fn scan_from(s: Seq<u8>, i: int) -> Seq<Lexeme>
    decreases s.len() - i when 0 <= i
{
    if i >= s.len() {
        seq![Lexeme::EOF]
    } else if is_space(s[i]) {
        scan_from(s, i + 1)
    } else {
        let (t, j) = lex_at(s, i);
        if t == Lexeme::Error {
            seq![Lexeme::Error, Lexeme::EOF]
        } else if i < j && j <= s.len() {
            seq![t] + scan_from(s, j)
        } else {
            // never reached: a non-error lexeme consumes at least one byte
            seq![Lexeme::EOF]
        }
    }
}

// ---------------------------------------------------------------------------
// The canonical printer, and the round trip back through the scanner
// ---------------------------------------------------------------------------

/// The byte an identifier character prints as; characters outside the
/// identifier alphabet print as zero and never arise.
pub open spec fn char_byte(ch: char) -> u8 {
    if ch == 'A' { 65 } else if ch == 'B' { 66 } else if ch == 'C' { 67 }
    else if ch == 'D' { 68 } else if ch == 'E' { 69 } else if ch == 'F' { 70 }
    else if ch == 'G' { 71 } else if ch == 'H' { 72 } else if ch == 'I' { 73 }
    else if ch == 'J' { 74 } else if ch == 'K' { 75 } else if ch == 'L' { 76 }
    else if ch == 'M' { 77 } else if ch == 'N' { 78 } else if ch == 'O' { 79 }
    else if ch == 'P' { 80 } else if ch == 'Q' { 81 } else if ch == 'R' { 82 }
    else if ch == 'S' { 83 } else if ch == 'T' { 84 } else if ch == 'U' { 85 }
    else if ch == 'V' { 86 } else if ch == 'W' { 87 } else if ch == 'X' { 88 }
    else if ch == 'Y' { 89 } else if ch == 'Z' { 90 } else if ch == '0' { 48 }
    else if ch == '1' { 49 } else if ch == '2' { 50 } else if ch == '3' { 51 }
    else if ch == '4' { 52 } else if ch == '5' { 53 } else if ch == '6' { 54 }
    else if ch == '7' { 55 } else if ch == '8' { 56 } else if ch == '9' { 57 }
    else { 0 }
}

pub open spec fn is_upper_char(ch: char) -> bool {
    is_upper(char_byte(ch))
}

pub open spec fn is_digit_char(ch: char) -> bool {
    is_digit(char_byte(ch))
}

pub proof fn lemma_char_byte_inverse(ch: char)
    requires
        is_upper_char(ch) || is_digit_char(ch),
    ensures
        byte_char(char_byte(ch)) == ch,
{
}

pub proof fn lemma_byte_char_inverse(b: u8)
    requires
        is_upper(b) || is_digit(b),
    ensures
        char_byte(byte_char(b)) == b,
        is_upper(b) ==> is_upper_char(byte_char(b)),
        is_digit(b) ==> is_digit_char(byte_char(b)),
{
}

/// Length of the leading run of upper-case characters.
pub open spec fn upper_prefix(name: Seq<char>, i: int) -> int
    decreases name.len() - i when 0 <= i <= name.len()
{
    if i < name.len() && is_upper_char(name[i]) {
        upper_prefix(name, i + 1)
    } else {
        i
    }
}

/// The shape a scanned identifier name always has: one or more upper-case
/// letters, then zero or more digits.
pub open spec fn wf_ident(name: Seq<char>) -> bool {
    &&& name.len() >= 1
    &&& upper_prefix(name, 0) >= 1
    &&& forall|j: int| upper_prefix(name, 0) <= j < name.len() ==> is_digit_char(name[j])
}

/// The decimal digit bytes of a non-negative value.
pub open spec fn dec_bytes(n: int) -> Seq<u8>
    decreases n,
{
    if n < 10 {
        seq![(48 + n) as u8]
    } else {
        dec_bytes(n / 10) + seq![(48 + n % 10) as u8]
    }
}

pub proof fn lemma_dec_bytes_digits(n: int)
    requires
        0 <= n,
    ensures
        dec_bytes(n).len() >= 1,
        forall|k: int| 0 <= k < dec_bytes(n).len() ==> is_digit(#[trigger] dec_bytes(n)[k]),
    decreases n,
{
    if n >= 10 {
        lemma_dec_bytes_digits(n / 10);
        assert forall|k: int| 0 <= k < dec_bytes(n).len() implies is_digit(
            #[trigger] dec_bytes(n)[k],
        ) by {
            if k < dec_bytes(n / 10).len() {
                assert(dec_bytes(n)[k] == dec_bytes(n / 10)[k]);
            }
        }
    }
}

/// The digit value of a byte range depends only on the bytes in it.
pub proof fn lemma_digits_val_congruent(s1: Seq<u8>, s2: Seq<u8>, i1: int, i2: int, n: int)
    requires
        0 <= n,
        forall|k: int| 0 <= k < n ==> s1[i1 + k] == #[trigger] s2[i2 + k],
    ensures
        digits_val(s1, i1, i1 + n) == digits_val(s2, i2, i2 + n),
    decreases n,
{
    if n > 0 {
        lemma_digits_val_congruent(s1, s2, i1, i2, n - 1);
        assert(s1[i1 + (n - 1)] == s2[i2 + (n - 1)]);
    }
}

/// Printing a value in decimal and reading the digits back gives the
/// value.
pub proof fn lemma_dec_bytes_val(n: int)
    requires
        0 <= n,
    ensures
        digits_val(dec_bytes(n), 0, dec_bytes(n).len() as int) == n,
    decreases n,
{
    if n < 10 {
        assert(digits_val(dec_bytes(n), 0, 0) == 0);
        assert(digits_val(dec_bytes(n), 0, 1) == (48 + n) - 48);
    } else {
        let d = dec_bytes(n);
        let head = dec_bytes(n / 10);
        lemma_dec_bytes_val(n / 10);
        lemma_digits_val_congruent(d, head, 0, 0, head.len() as int);
        assert(d[d.len() - 1] == (48 + n % 10) as u8);
        assert(digits_val(d, 0, d.len() as int) == digits_val(d, 0, head.len() as int) * 10 + (
        48 + n % 10) - 48);
    }
}

/// The bytes one token prints as; the canonical printer puts a single
/// space after each token.
pub open spec fn lexeme_bytes(t: Lexeme) -> Seq<u8> {
    match t {
        Lexeme::Program => seq![112u8, 114, 111, 103, 114, 97, 109],
        Lexeme::Begin => seq![98u8, 101, 103, 105, 110],
        Lexeme::End => seq![101u8, 110, 100],
        Lexeme::Int => seq![105u8, 110, 116],
        Lexeme::If => seq![105u8, 102],
        Lexeme::Then => seq![116u8, 104, 101, 110],
        Lexeme::Else => seq![101u8, 108, 115, 101],
        Lexeme::While => seq![119u8, 104, 105, 108, 101],
        Lexeme::Loop => seq![108u8, 111, 111, 112],
        Lexeme::Read => seq![114u8, 101, 97, 100],
        Lexeme::Write => seq![119u8, 114, 105, 116, 101],
        Lexeme::Semicolon => seq![59u8],
        Lexeme::Comma => seq![44u8],
        Lexeme::Assignment => seq![61u8],
        Lexeme::Exclamation => seq![33u8],
        Lexeme::LeftSquare => seq![91u8],
        Lexeme::RightSquare => seq![93u8],
        Lexeme::LogicalAnd => seq![38u8, 38],
        Lexeme::LogicalOr => seq![124u8, 124],
        Lexeme::LeftParen => seq![40u8],
        Lexeme::RightParen => seq![41u8],
        Lexeme::Addition => seq![43u8],
        Lexeme::Subtraction => seq![45u8],
        Lexeme::Multiplication => seq![42u8],
        Lexeme::LogicalInequality => seq![33u8, 61],
        Lexeme::LogicalEquality => seq![61u8, 61],
        Lexeme::LessThan => seq![60u8],
        Lexeme::GreaterThan => seq![62u8],
        Lexeme::LessThanEqual => seq![60u8, 61],
        Lexeme::GreaterThanEqual => seq![62u8, 61],
        Lexeme::Integer(v) => dec_bytes(v),
        Lexeme::Identifier(name) => Seq::new(name.len(), |k: int| char_byte(name[k])),
        Lexeme::Error => Seq::empty(),
        Lexeme::Whitespace => Seq::empty(),
        Lexeme::EOF => Seq::empty(),
    }
}

/// The canonical printing of a token sequence: each token's bytes, a
/// single space after each.
pub open spec fn print_tokens(ts: Seq<Lexeme>) -> Seq<u8>
    decreases ts.len(),
{
    if ts.len() == 0 {
        Seq::empty()
    } else {
        lexeme_bytes(ts[0]) + seq![32u8] + print_tokens(ts.drop_first())
    }
}

/// The tokens the scanner can hand on: everything but the error, the
/// internal whitespace mark and the end marker, with literal values in
/// range and identifier names of the scanned shape.
pub open spec fn wf_lexeme(t: Lexeme) -> bool {
    match t {
        Lexeme::Error => false,
        Lexeme::Whitespace => false,
        Lexeme::EOF => false,
        Lexeme::Integer(v) => 0 <= v <= i32::MAX as int,
        Lexeme::Identifier(name) => wf_ident(name),
        _ => true,
    }
}

pub proof fn lemma_lower_run_exact(s: Seq<u8>, i: int, j: int)
    requires
        0 <= i <= j < s.len(),
        forall|k: int| i <= k < j ==> is_lower(#[trigger] s[k]),
        !is_lower(s[j]),
    ensures
        lower_run_end(s, i) == j,
    decreases j - i,
{
    if i < j {
        lemma_lower_run_exact(s, i + 1, j);
    }
}

pub proof fn lemma_upper_run_exact(s: Seq<u8>, i: int, j: int)
    requires
        0 <= i <= j < s.len(),
        forall|k: int| i <= k < j ==> is_upper(#[trigger] s[k]),
        !is_upper(s[j]),
    ensures
        upper_run_end(s, i) == j,
    decreases j - i,
{
    if i < j {
        lemma_upper_run_exact(s, i + 1, j);
    }
}

pub proof fn lemma_digit_run_exact(s: Seq<u8>, i: int, j: int)
    requires
        0 <= i <= j < s.len(),
        forall|k: int| i <= k < j ==> is_digit(#[trigger] s[k]),
        !is_digit(s[j]),
    ensures
        digit_run_end(s, i) == j,
    decreases j - i,
{
    if i < j {
        lemma_digit_run_exact(s, i + 1, j);
    }
}

pub proof fn lemma_upper_prefix(name: Seq<char>)
    ensures
        0 <= upper_prefix(name, 0) <= name.len(),
        forall|k: int| 0 <= k < upper_prefix(name, 0) ==> is_upper_char(#[trigger] name[k]),
        upper_prefix(name, 0) < name.len() ==> !is_upper_char(name[upper_prefix(name, 0)]),
{
    lemma_upper_prefix_from(name, 0);
}

proof fn lemma_upper_prefix_from(name: Seq<char>, i: int)
    requires
        0 <= i <= name.len(),
    ensures
        i <= upper_prefix(name, i) <= name.len(),
        forall|k: int| i <= k < upper_prefix(name, i) ==> is_upper_char(#[trigger] name[k]),
        upper_prefix(name, i) < name.len() ==> !is_upper_char(name[upper_prefix(name, i)]),
    decreases name.len() - i,
{
    if i < name.len() && is_upper_char(name[i]) {
        lemma_upper_prefix_from(name, i + 1);
    }
}

/// A printed token followed by a space scans back to exactly that token.
#[verifier::rlimit(100)]
pub proof fn lemma_lex_printed(s: Seq<u8>, i: int, t: Lexeme)
    requires
        wf_lexeme(t),
        0 <= i,
        i + lexeme_bytes(t).len() < s.len(),
        forall|k: int|
            i <= k < i + lexeme_bytes(t).len() ==> #[trigger] s[k] == lexeme_bytes(t)[k - i],
        s[i + lexeme_bytes(t).len()] == 32,
        i == 0 || is_space(s[i - 1]),
    ensures
        lex_at(s, i) == (t, i + lexeme_bytes(t).len()),
{
    let b = lexeme_bytes(t);
    let e = i + b.len();
    match t {
        Lexeme::Integer(v) => {
            lemma_dec_bytes_digits(v);
            assert(s[i] == dec_bytes(v)[0]);
            assert forall|k: int| i <= k < e implies is_digit(#[trigger] s[k]) by {
                assert(s[k] == dec_bytes(v)[k - i]);
            }
            lemma_digit_run_exact(s, i, e);
            assert forall|k: int| 0 <= k < b.len() implies s[i + k] == #[trigger] dec_bytes(v)[k]
                by {
                assert(s[i + k] == b[(i + k) - i]);
            }
            lemma_digits_val_congruent(s, dec_bytes(v), i, 0, b.len() as int);
            lemma_dec_bytes_val(v);
            assert(digits_val(s, i, e) == v);
        },
        Lexeme::Identifier(name) => {
            lemma_upper_prefix(name);
            let up = upper_prefix(name, 0);
            let mid = i + up;
            assert(s[i] == b[0]);
            assert(b[0] == char_byte(name[0]));
            assert(is_upper_char(name[0]));
            assert forall|k: int| i <= k < mid implies is_upper(#[trigger] s[k]) by {
                assert(s[k] == char_byte(name[k - i]));
                assert(is_upper_char(name[k - i]));
            }
            if up < name.len() {
                assert(s[mid] == char_byte(name[up]));
                assert(is_digit_char(name[up]));
                lemma_upper_run_exact(s, i, mid);
            } else {
                assert(s[mid] == 32);
                lemma_upper_run_exact(s, i, mid);
            }
            assert forall|k: int| mid <= k < e implies is_digit(#[trigger] s[k]) by {
                assert(s[k] == char_byte(name[k - i]));
                assert(is_digit_char(name[k - i]));
            }
            assert(s[e] == 32);
            lemma_digit_run_exact(s, mid, e);
            assert forall|k: int| 0 <= k < e - i implies byte_char(s[i + k]) == #[trigger] name[k]
                by {
                assert(s[i + k] == char_byte(name[k]));
                if k < up {
                    lemma_char_byte_inverse(name[k]);
                } else {
                    lemma_char_byte_inverse(name[k]);
                }
            }
            assert(ident_chars(s, i, e) =~= name);
        },
        Lexeme::Program => {
            keyword_case(s, i, t);
        },
        Lexeme::Begin => {
            keyword_case(s, i, t);
        },
        Lexeme::End => {
            keyword_case(s, i, t);
        },
        Lexeme::Int => {
            keyword_case(s, i, t);
        },
        Lexeme::If => {
            keyword_case(s, i, t);
        },
        Lexeme::Then => {
            keyword_case(s, i, t);
        },
        Lexeme::Else => {
            keyword_case(s, i, t);
        },
        Lexeme::While => {
            keyword_case(s, i, t);
        },
        Lexeme::Loop => {
            keyword_case(s, i, t);
        },
        Lexeme::Read => {
            keyword_case(s, i, t);
        },
        Lexeme::Write => {
            keyword_case(s, i, t);
        },
        _ => {
            // single- and two-byte symbols resolve from the bytes alone
            assert(s[i] == b[0]);
            if b.len() == 2 {
                assert(s[i + 1] == b[1]);
            }
        },
    }
}

/// The reserved-word cases of `lemma_lex_printed`.
#[verifier::rlimit(100)]
proof fn keyword_case(s: Seq<u8>, i: int, t: Lexeme)
    requires
        wf_lexeme(t),
        t is Program || t is Begin || t is End || t is Int || t is If || t is Then || t is Else
            || t is While || t is Loop || t is Read || t is Write,
        0 <= i,
        i + lexeme_bytes(t).len() < s.len(),
        forall|k: int|
            i <= k < i + lexeme_bytes(t).len() ==> #[trigger] s[k] == lexeme_bytes(t)[k - i],
        s[i + lexeme_bytes(t).len()] == 32,
        i == 0 || is_space(s[i - 1]),
    ensures
        lex_at(s, i) == (t, i + lexeme_bytes(t).len()),
{
    let b = lexeme_bytes(t);
    let e = i + b.len();
    assert(s[i] == b[0]);
    assert forall|k: int| i <= k < e implies is_lower(#[trigger] s[k]) by {
        assert(s[k] == b[k - i]);
    }
    lemma_lower_run_exact(s, i, e);
    assert forall|k: int| 0 <= k < b.len() implies #[trigger] s[i + k] == b[k] by {
        assert(s[i + k] == b[(i + k) - i]);
    }
    assert(keyword_at(s, i, e) == t);
}

/// Scanning a canonically printed, well-formed token sequence gives back
/// exactly that sequence, closed with the end-of-input marker.
pub proof fn lemma_scan_printed(s: Seq<u8>, i: int, ts: Seq<Lexeme>)
    requires
        0 <= i <= s.len(),
        s.subrange(i, s.len() as int) == print_tokens(ts),
        forall|k: int| 0 <= k < ts.len() ==> wf_lexeme(#[trigger] ts[k]),
        i == 0 || is_space(s[i - 1]),
    ensures
        scan_from(s, i) == ts + seq![Lexeme::EOF],
    decreases ts.len(),
{
    let tail = s.subrange(i, s.len() as int);
    if ts.len() == 0 {
        assert(tail.len() == 0);
        assert(scan_from(s, i) =~= ts + seq![Lexeme::EOF]);
    } else {
        let t0 = ts[0];
        assert(wf_lexeme(t0));
        let b0 = lexeme_bytes(t0);
        let rest = print_tokens(ts.drop_first());
        assert(tail == b0 + seq![32u8] + rest);
        assert(tail.len() == b0.len() + 1 + rest.len());
        assert forall|k: int| i <= k < i + b0.len() implies #[trigger] s[k] == b0[k - i] by {
            assert(tail[k - i] == s[k]);
            assert((b0 + seq![32u8] + rest)[k - i] == b0[k - i]);
        }
        assert(tail[b0.len() as int] == s[i + b0.len()]);
        assert((b0 + seq![32u8] + rest)[b0.len() as int] == 32);
        lemma_lex_printed(s, i, t0);
        let j = i + b0.len();
        lemma_lexeme_bytes_head(t0);
        assert(!is_space(s[i]));
        assert(scan_from(s, i) == seq![t0] + scan_from(s, j));
        assert(is_space(s[j]));
        assert(scan_from(s, j) == scan_from(s, j + 1));
        assert forall|k: int| 0 <= k < rest.len() implies #[trigger] s.subrange(
            j + 1,
            s.len() as int,
        )[k] == rest[k] by {
            assert(tail[(j + 1 + k) - i] == s[j + 1 + k]);
            assert((b0 + seq![32u8] + rest)[b0.len() + 1 + k] == rest[k]);
        }
        assert(s.subrange(j + 1, s.len() as int) =~= rest);
        lemma_scan_printed(s, j + 1, ts.drop_first());
        assert(scan_from(s, i) =~= ts + seq![Lexeme::EOF]);
    }
}

/// A well-formed token prints as at least one byte, and its first byte is
/// not whitespace.
proof fn lemma_lexeme_bytes_head(t: Lexeme)
    requires
        wf_lexeme(t),
    ensures
        lexeme_bytes(t).len() >= 1,
        !is_space(lexeme_bytes(t)[0]),
{
    match t {
        Lexeme::Integer(v) => {
            lemma_dec_bytes_digits(v);
        },
        Lexeme::Identifier(name) => {
            lemma_upper_prefix(name);
            assert(is_upper_char(name[0]));
            assert(lexeme_bytes(t)[0] == char_byte(name[0]));
        },
        _ => {},
    }
}

/// Round trip of structure: any well-formed token sequence, printed back
/// through the canonical printer, scans to exactly the same sequence.
pub proof fn lemma_print_scan_round_trip(ts: Seq<Lexeme>)
    requires
        forall|k: int| 0 <= k < ts.len() ==> wf_lexeme(#[trigger] ts[k]),
    ensures
        scan_from(print_tokens(ts), 0) == ts + seq![Lexeme::EOF],
{
    let s = print_tokens(ts);
    assert(s.subrange(0, s.len() as int) =~= s);
    lemma_scan_printed(s, 0, ts);
}

proof fn lemma_upper_prefix_exact_from(name: Seq<char>, i: int, j: int)
    requires
        0 <= i <= j <= name.len(),
        forall|k: int| i <= k < j ==> is_upper_char(#[trigger] name[k]),
        j < name.len() ==> !is_upper_char(name[j]),
    ensures
        upper_prefix(name, i) == j,
    decreases j - i,
{
    if i < j {
        lemma_upper_prefix_exact_from(name, i + 1, j);
    }
}

/// Every token the scanner emits, other than a terminal `Error` and the
/// final end-of-input marker, is well formed.
pub proof fn lemma_lex_at_wf(s: Seq<u8>, i: int)
    requires
        0 <= i < s.len(),
        !is_space(s[i]),
    ensures
        lex_at(s, i).0 == Lexeme::Error || wf_lexeme(lex_at(s, i).0),
{
    let b = s[i];
    if is_digit(b) {
        if !(i > 0 && is_letter(s[i - 1])) {
            let end = digit_run_end(s, i);
            lemma_digit_run_end(s, i);
            lemma_digits_val_bounds(s, i, i, end);
        }
    } else if is_upper(b) {
        if !(i > 0 && (is_lower(s[i - 1]) || is_digit(s[i - 1]))) {
            let mid = upper_run_end(s, i);
            lemma_upper_run_end(s, i);
            if !(mid < s.len() && is_lower(s[mid])) {
                let end = digit_run_end(s, mid);
                lemma_digit_run_end(s, mid);
                if !(end < s.len() && is_letter(s[end])) {
                    let name = ident_chars(s, i, end);
                    assert forall|k: int| 0 <= k < mid - i implies is_upper_char(
                        #[trigger] name[k],
                    ) by {
                        assert(name[k] == byte_char(s[i + k]));
                        lemma_byte_char_inverse(s[i + k]);
                    }
                    assert forall|k: int| mid - i <= k < end - i implies is_digit_char(
                        #[trigger] name[k],
                    ) by {
                        assert(name[k] == byte_char(s[i + k]));
                        lemma_byte_char_inverse(s[i + k]);
                    }
                    if mid - i < name.len() {
                        assert(is_digit_char(name[mid - i]));
                        assert(char_byte(byte_char(s[mid])) == s[mid]) by {
                            lemma_byte_char_inverse(s[mid]);
                        }
                        assert(!is_upper_char(name[mid - i]));
                    }
                    lemma_upper_prefix_exact_from(name, 0, mid - i);
                    assert(wf_ident(name));
                }
            }
        }
    }
}

/// The scanner's output always ends with the end-of-input marker, and
/// every token before it is either well formed or the one terminal
/// `Error`.
pub proof fn lemma_scan_wf(s: Seq<u8>, i: int)
    requires
        0 <= i,
    ensures
        scan_from(s, i).len() >= 1,
        scan_from(s, i)[scan_from(s, i).len() - 1] == Lexeme::EOF,
        forall|k: int|
            0 <= k < scan_from(s, i).len() - 1 ==> wf_lexeme(#[trigger] scan_from(s, i)[k])
                || scan_from(s, i)[k] == Lexeme::Error,
    decreases s.len() - i,
{
    if i >= s.len() {
    } else if is_space(s[i]) {
        lemma_scan_wf(s, i + 1);
    } else {
        lemma_lex_at_wf(s, i);
        let (t, j) = lex_at(s, i);
        if t == Lexeme::Error {
        } else if i < j && j <= s.len() {
            lemma_scan_wf(s, j);
            assert forall|k: int|
                0 <= k < scan_from(s, i).len() - 1 implies wf_lexeme(#[trigger] scan_from(s, i)[k])
                || scan_from(s, i)[k] == Lexeme::Error by {
                if k > 0 {
                    assert(scan_from(s, i)[k] == scan_from(s, j)[k - 1]);
                }
            }
        }
    }
}

/// Round trip of structure: a source program that scans with no `Error`
/// token, printed back through the canonical printer, scans to exactly
/// the same token sequence.
pub proof fn lemma_error_free_scan_round_trip(s: Seq<u8>)
    requires
        !scan_from(s, 0).contains(Lexeme::Error),
    ensures
        scan_from(print_tokens(scan_from(s, 0).drop_last()), 0) == scan_from(s, 0),
{
    lemma_scan_wf(s, 0);
    let out = scan_from(s, 0);
    let ts = out.drop_last();
    assert forall|k: int| 0 <= k < ts.len() implies wf_lexeme(#[trigger] ts[k]) by {
        assert(out[k] != Lexeme::Error);
        assert(ts[k] == out[k]);
    }
    lemma_print_scan_round_trip(ts);
    assert(ts + seq![Lexeme::EOF] =~= out);
}

/// An identifier character is ASCII and prints as its own code.
proof fn lemma_ident_char_code(ch: char)
    requires
        is_upper_char(ch) || is_digit_char(ch),
    ensures
        ch as u8 == char_byte(ch),
        '\0' <= ch <= '\u{7f}',
{
    lemma_char_byte_inverse(ch);
}

/// Appends the decimal digit bytes of `n`, per `dec_bytes`.
fn push_dec_bytes(out: &mut Vec<u8>, n: u32)
    ensures
        final(out)@ == old(out)@ + dec_bytes(n as int),
    decreases n,
{
    if n >= 10 {
        push_dec_bytes(out, n / 10);
    }
    out.push(48 + (n % 10) as u8);
    proof {
        assert(final(out)@ =~= old(out)@ + dec_bytes(n as int));
    }
}

/// Appends one token's canonical bytes, per `lexeme_bytes`.
#[verifier::rlimit(100)]
fn push_token_bytes(out: &mut Vec<u8>, t: &Token)
    requires
        wf_lexeme(t@),
    ensures
        final(out)@ == old(out)@ + lexeme_bytes(t@),
{
    match t {
        Token::Program => {
            out.push(112); out.push(114); out.push(111); out.push(103);
            out.push(114); out.push(97); out.push(109);
            proof { assert(final(out)@ =~= old(out)@ + lexeme_bytes(t@)); }
        },
        Token::Begin => {
            out.push(98); out.push(101); out.push(103); out.push(105); out.push(110);
            proof { assert(final(out)@ =~= old(out)@ + lexeme_bytes(t@)); }
        },
        Token::End => {
            out.push(101); out.push(110); out.push(100);
            proof { assert(final(out)@ =~= old(out)@ + lexeme_bytes(t@)); }
        },
        Token::Int => {
            out.push(105); out.push(110); out.push(116);
            proof { assert(final(out)@ =~= old(out)@ + lexeme_bytes(t@)); }
        },
        Token::If => {
            out.push(105); out.push(102);
            proof { assert(final(out)@ =~= old(out)@ + lexeme_bytes(t@)); }
        },
        Token::Then => {
            out.push(116); out.push(104); out.push(101); out.push(110);
            proof { assert(final(out)@ =~= old(out)@ + lexeme_bytes(t@)); }
        },
        Token::Else => {
            out.push(101); out.push(108); out.push(115); out.push(101);
            proof { assert(final(out)@ =~= old(out)@ + lexeme_bytes(t@)); }
        },
        Token::While => {
            out.push(119); out.push(104); out.push(105); out.push(108); out.push(101);
            proof { assert(final(out)@ =~= old(out)@ + lexeme_bytes(t@)); }
        },
        Token::Loop => {
            out.push(108); out.push(111); out.push(111); out.push(112);
            proof { assert(final(out)@ =~= old(out)@ + lexeme_bytes(t@)); }
        },
        Token::Read => {
            out.push(114); out.push(101); out.push(97); out.push(100);
            proof { assert(final(out)@ =~= old(out)@ + lexeme_bytes(t@)); }
        },
        Token::Write => {
            out.push(119); out.push(114); out.push(105); out.push(116); out.push(101);
            proof { assert(final(out)@ =~= old(out)@ + lexeme_bytes(t@)); }
        },
        Token::Semicolon => {
            out.push(59);
            proof { assert(final(out)@ =~= old(out)@ + lexeme_bytes(t@)); }
        },
        Token::Comma => {
            out.push(44);
            proof { assert(final(out)@ =~= old(out)@ + lexeme_bytes(t@)); }
        },
        Token::Assignment => {
            out.push(61);
            proof { assert(final(out)@ =~= old(out)@ + lexeme_bytes(t@)); }
        },
        Token::Exclamation => {
            out.push(33);
            proof { assert(final(out)@ =~= old(out)@ + lexeme_bytes(t@)); }
        },
        Token::LeftSquare => {
            out.push(91);
            proof { assert(final(out)@ =~= old(out)@ + lexeme_bytes(t@)); }
        },
        Token::RightSquare => {
            out.push(93);
            proof { assert(final(out)@ =~= old(out)@ + lexeme_bytes(t@)); }
        },
        Token::LogicalAnd => {
            out.push(38); out.push(38);
            proof { assert(final(out)@ =~= old(out)@ + lexeme_bytes(t@)); }
        },
        Token::LogicalOr => {
            out.push(124); out.push(124);
            proof { assert(final(out)@ =~= old(out)@ + lexeme_bytes(t@)); }
        },
        Token::LeftParen => {
            out.push(40);
            proof { assert(final(out)@ =~= old(out)@ + lexeme_bytes(t@)); }
        },
        Token::RightParen => {
            out.push(41);
            proof { assert(final(out)@ =~= old(out)@ + lexeme_bytes(t@)); }
        },
        Token::Addition => {
            out.push(43);
            proof { assert(final(out)@ =~= old(out)@ + lexeme_bytes(t@)); }
        },
        Token::Subtraction => {
            out.push(45);
            proof { assert(final(out)@ =~= old(out)@ + lexeme_bytes(t@)); }
        },
        Token::Multiplication => {
            out.push(42);
            proof { assert(final(out)@ =~= old(out)@ + lexeme_bytes(t@)); }
        },
        Token::LogicalInequality => {
            out.push(33); out.push(61);
            proof { assert(final(out)@ =~= old(out)@ + lexeme_bytes(t@)); }
        },
        Token::LogicalEquality => {
            out.push(61); out.push(61);
            proof { assert(final(out)@ =~= old(out)@ + lexeme_bytes(t@)); }
        },
        Token::LessThan => {
            out.push(60);
            proof { assert(final(out)@ =~= old(out)@ + lexeme_bytes(t@)); }
        },
        Token::GreaterThan => {
            out.push(62);
            proof { assert(final(out)@ =~= old(out)@ + lexeme_bytes(t@)); }
        },
        Token::LessThanEqual => {
            out.push(60); out.push(61);
            proof { assert(final(out)@ =~= old(out)@ + lexeme_bytes(t@)); }
        },
        Token::GreaterThanEqual => {
            out.push(62); out.push(61);
            proof { assert(final(out)@ =~= old(out)@ + lexeme_bytes(t@)); }
        },
        Token::Integer(v) => {
            push_dec_bytes(out, *v as u32);
            proof { assert(final(out)@ =~= old(out)@ + lexeme_bytes(t@)); }
        },
        Token::Identifier(name) => {
            proof {
                let chars = name@;
                assert forall|k: int| 0 <= k < chars.len() implies '\0' <= #[trigger] chars[k]
                    <= '\u{7f}' && chars[k] as u8 == char_byte(chars[k]) by {
                    lemma_upper_prefix(chars);
                    lemma_ident_char_code(chars[k]);
                }
                assert(vstd::utf8::is_ascii_chars(chars));
                vstd::utf8::is_ascii_chars_encode_utf8(chars);
            }
            let bs = name.as_str().as_bytes();
            let mut k: usize = 0;
            while k < bs.len()
                invariant
                    k <= bs@.len(),
                    bs@ == vstd::utf8::encode_utf8(name@),
                    bs@.len() == name@.len(),
                    forall|j: int| 0 <= j < name@.len() ==> #[trigger] bs@[j] == char_byte(name@[j]),
                    out@ == old(out)@ + bs@.take(k as int),
                decreases bs@.len() - k,
            {
                out.push(bs[k]);
                k += 1;
                proof {
                    assert(out@ =~= old(out)@ + bs@.take(k as int));
                }
            }
            proof {
                assert(bs@.take(bs@.len() as int) =~= bs@);
                assert(bs@ =~= lexeme_bytes(t@));
            }
        },
        Token::Error => {
            proof { assert(false); }
        },
        Token::Whitespace => {
            proof { assert(false); }
        },
        Token::EOF => {
            proof { assert(false); }
        },
    }
}

/// Prints a token sequence back to canonical source text: each token's
/// bytes with a single separating space, per `print_tokens`.
pub fn print_token_bytes(tokens: &Vec<Token>) -> (out: Vec<u8>)
    requires
        forall|k: int|
            0 <= k < tokens.deep_view().len() ==> wf_lexeme(#[trigger] tokens.deep_view()[k]),
    ensures
        out@ == print_tokens(tokens.deep_view()),
{
    let ghost dv = tokens.deep_view();
    let mut out: Vec<u8> = Vec::new();
    let mut i: usize = 0;
    proof {
        assert(dv.skip(0) =~= dv);
    }
    while i < tokens.len()
        invariant
            i <= tokens@.len(),
            dv == tokens.deep_view(),
            dv.len() == tokens@.len(),
            forall|k: int| 0 <= k < dv.len() ==> wf_lexeme(#[trigger] dv[k]),
            print_tokens(dv) == out@ + print_tokens(dv.skip(i as int)),
        decreases tokens@.len() - i,
    {
        let ghost out_pre = out@;
        push_token_bytes(&mut out, &tokens[i]);
        out.push(32);
        i += 1;
        proof {
            assert(dv.skip(i - 1)[0] == dv[i - 1]);
            assert(dv.skip(i - 1).drop_first() =~= dv.skip(i as int));
            assert(out@ =~= out_pre + lexeme_bytes(dv[i - 1]) + seq![32u8]);
            assert(out@ + print_tokens(dv.skip(i as int)) =~= out_pre + print_tokens(
                dv.skip(i - 1),
            ));
        }
    }
    proof {
        assert(dv.skip(dv.len() as int) =~= Seq::<Lexeme>::empty());
        assert(out@ =~= print_tokens(dv));
    }
    out
}

// ---------------------------------------------------------------------------
// Executable scanning
// ---------------------------------------------------------------------------

/// `=` begins either `==` (logical equality) or `=` (assignment).
/// On return the cursor rests on the last byte of the lexeme.
pub fn tokenize_equal(buf: &Vec<u8>, state: &mut usize) -> (r: Token)
    requires
        *old(state) < buf@.len(),
        buf@[*old(state) as int] == 61,
    ensures
        r@ == lex_equal(buf@, *old(state) as int).0,
        *final(state) + 1 == lex_equal(buf@, *old(state) as int).1,
        *old(state) <= *final(state) < buf@.len(),
{
    let i: usize = *state;
    if i < buf.len() - 1 && buf[i + 1] == 61 {
        *state += 1;
        return Token::LogicalEquality;
    }
    Token::Assignment
}

/// `!` begins either `!=` (logical inequality) or `!` (logical not).
pub fn tokenize_inequal(buf: &Vec<u8>, state: &mut usize) -> (r: Token)
    requires
        *old(state) < buf@.len(),
        buf@[*old(state) as int] == 33,
    ensures
        r@ == lex_inequal(buf@, *old(state) as int).0,
        *final(state) + 1 == lex_inequal(buf@, *old(state) as int).1,
        *old(state) <= *final(state) < buf@.len(),
{
    let i: usize = *state;
    if i < buf.len() - 1 && buf[i + 1] == 61 {
        *state += 1;
        return Token::LogicalInequality;
    }
    Token::Exclamation
}

/// `<` begins either `<=` or `<`.
pub fn tokenize_lt_lte(buf: &Vec<u8>, state: &mut usize) -> (r: Token)
    requires
        *old(state) < buf@.len(),
        buf@[*old(state) as int] == 60,
    ensures
        r@ == lex_lt(buf@, *old(state) as int).0,
        *final(state) + 1 == lex_lt(buf@, *old(state) as int).1,
        *old(state) <= *final(state) < buf@.len(),
{
    let i: usize = *state;
    if i < buf.len() - 1 && buf[i + 1] == 61 {
        *state += 1;
        return Token::LessThanEqual;
    }
    Token::LessThan
}

/// `>` begins either `>=` or `>`.
pub fn tokenize_gt_gte(buf: &Vec<u8>, state: &mut usize) -> (r: Token)
    requires
        *old(state) < buf@.len(),
        buf@[*old(state) as int] == 62,
    ensures
        r@ == lex_gt(buf@, *old(state) as int).0,
        *final(state) + 1 == lex_gt(buf@, *old(state) as int).1,
        *old(state) <= *final(state) < buf@.len(),
{
    let i: usize = *state;
    if i < buf.len() - 1 && buf[i + 1] == 61 {
        *state += 1;
        return Token::GreaterThanEqual;
    }
    Token::GreaterThan
}

/// `|` is only valid as the start of `||`; anything else is an error.
pub fn tokenize_logical_or(buf: &Vec<u8>, state: &mut usize) -> (r: Token)
    requires
        *old(state) < buf@.len(),
        buf@[*old(state) as int] == 124,
    ensures
        r@ == lex_or(buf@, *old(state) as int).0,
        !(r@ == Lexeme::Error) ==> *final(state) + 1 == lex_or(buf@, *old(state) as int).1,
        *old(state) <= *final(state) < buf@.len(),
{
    let i: usize = *state;
    if i < buf.len() - 1 && buf[i + 1] == 124 {
        *state += 1;
        return Token::LogicalOr;
    }
    Token::Error
}

/// `&` is only valid as the start of `&&`; anything else is an error.
pub fn tokenize_logical_and(buf: &Vec<u8>, state: &mut usize) -> (r: Token)
    requires
        *old(state) < buf@.len(),
        buf@[*old(state) as int] == 38,
    ensures
        r@ == lex_and(buf@, *old(state) as int).0,
        !(r@ == Lexeme::Error) ==> *final(state) + 1 == lex_and(buf@, *old(state) as int).1,
        *old(state) <= *final(state) < buf@.len(),
{
    let i: usize = *state;
    if i < buf.len() - 1 && buf[i + 1] == 38 {
        *state += 1;
        return Token::LogicalAnd;
    }
    Token::Error
}

/// A digit begins an integer literal: greedily consume digits; a letter
/// directly before or after the digits, or a value that does not fit a
/// signed 32-bit integer, is a lexical error.
pub fn tokenize_integer(buf: &Vec<u8>, state: &mut usize) -> (r: Token)
    requires
        *old(state) < buf@.len(),
        is_digit(buf@[*old(state) as int]),
    ensures
        r@ == lex_integer(buf@, *old(state) as int).0,
        !(r@ == Lexeme::Error) ==> *final(state) + 1 == lex_integer(buf@, *old(state) as int).1,
        *old(state) <= *final(state) < buf@.len(),
{
    let i0: usize = *state;
    if i0 > 0 {
        let p = buf[i0 - 1];
        if (p >= 97 && p <= 122) || (p >= 65 && p <= 90) {
            return Token::Error;
        }
    }
    let n: usize = buf.len();
    let mut end: usize = i0 + 1;
    while end < buf.len() && buf[end] >= 48 && buf[end] <= 57
        invariant
            i0 < end <= buf@.len(),
            digit_run_end(buf@, i0 as int) == digit_run_end(buf@, end as int),
        decreases buf@.len() - end,
    {
        end = end + 1;
    }
    proof {
        assert(digit_run_end(buf@, end as int) == end);
        lemma_digit_run_end(buf@, i0 as int);
    }
    if end < buf.len() {
        let n = buf[end];
        if (n >= 97 && n <= 122) || (n >= 65 && n <= 90) {
            return Token::Error;
        }
    }
    let mut j: usize = i0;
    let mut acc: i64 = 0;
    while j < end
        invariant
            i0 == *old(state),
            *state == *old(state),
            i0 < buf@.len(),
            is_digit(buf@[i0 as int]),
            !(i0 > 0 && is_letter(buf@[i0 as int - 1])),
            i0 <= j <= end,
            end <= buf@.len(),
            end == digit_run_end(buf@, i0 as int),
            end < buf@.len() ==> !is_letter(buf@[end as int]),
            forall|k: int| i0 <= k < end ==> is_digit(buf@[k]),
            acc == digits_val(buf@, i0 as int, j as int),
            0 <= acc <= i32::MAX as i64,
        decreases end - j,
    {
        acc = acc * 10 + ((buf[j] - 48) as i64);
        j = j + 1;
        if acc > i32::MAX as i64 {
            proof {
                lemma_digits_val_bounds(buf@, i0 as int, j as int, end as int);
            }
            return Token::Error;
        }
    }
    *state = end - 1;
    Token::Integer(acc as i32)
}

/// A lower-case letter begins a reserved-word candidate: greedily consume
/// lower-case letters and look the word up in the fixed reserved-word
/// table.  An unknown word, or a missing separator against the surrounding
/// bytes, is a lexical error.
pub fn tokenize_keyword(buf: &Vec<u8>, state: &mut usize) -> (r: Token)
    requires
        *old(state) < buf@.len(),
        is_lower(buf@[*old(state) as int]),
    ensures
        r@ == lex_keyword(buf@, *old(state) as int).0,
        !(r@ == Lexeme::Error) ==> *final(state) + 1 == lex_keyword(buf@, *old(state) as int).1,
        *old(state) <= *final(state) < buf@.len(),
{
    let i0: usize = *state;
    if i0 > 0 {
        let p = buf[i0 - 1];
        if (p >= 65 && p <= 90) || (p >= 48 && p <= 57) {
            return Token::Error;
        }
    }
    let n: usize = buf.len();
    let mut end: usize = i0 + 1;
    while end < buf.len() && buf[end] >= 97 && buf[end] <= 122
        invariant
            i0 < end <= buf@.len(),
            lower_run_end(buf@, i0 as int) == lower_run_end(buf@, end as int),
        decreases buf@.len() - end,
    {
        end = end + 1;
    }
    proof {
        assert(lower_run_end(buf@, end as int) == end);
    }
    if end < buf.len() {
        let n = buf[end];
        if (n >= 65 && n <= 90) || (n >= 48 && n <= 57) {
            return Token::Error;
        }
    }
    *state = end - 1;
    let w = end - i0;
    // "program"
    if w == 7 && buf[i0] == 112 && buf[i0 + 1] == 114 && buf[i0 + 2] == 111
        && buf[i0 + 3] == 103 && buf[i0 + 4] == 114 && buf[i0 + 5] == 97 && buf[i0 + 6] == 109 {
        return Token::Program;
    }
    // "begin"
    if w == 5 && buf[i0] == 98 && buf[i0 + 1] == 101 && buf[i0 + 2] == 103
        && buf[i0 + 3] == 105 && buf[i0 + 4] == 110 {
        return Token::Begin;
    }
    // "end"
    if w == 3 && buf[i0] == 101 && buf[i0 + 1] == 110 && buf[i0 + 2] == 100 {
        return Token::End;
    }
    // "int"
    if w == 3 && buf[i0] == 105 && buf[i0 + 1] == 110 && buf[i0 + 2] == 116 {
        return Token::Int;
    }
    // "if"
    if w == 2 && buf[i0] == 105 && buf[i0 + 1] == 102 {
        return Token::If;
    }
    // "then"
    if w == 4 && buf[i0] == 116 && buf[i0 + 1] == 104 && buf[i0 + 2] == 101
        && buf[i0 + 3] == 110 {
        return Token::Then;
    }
    // "else"
    if w == 4 && buf[i0] == 101 && buf[i0 + 1] == 108 && buf[i0 + 2] == 115
        && buf[i0 + 3] == 101 {
        return Token::Else;
    }
    // "while"
    if w == 5 && buf[i0] == 119 && buf[i0 + 1] == 104 && buf[i0 + 2] == 105
        && buf[i0 + 3] == 108 && buf[i0 + 4] == 101 {
        return Token::While;
    }
    // "loop"
    if w == 4 && buf[i0] == 108 && buf[i0 + 1] == 111 && buf[i0 + 2] == 111
        && buf[i0 + 3] == 112 {
        return Token::Loop;
    }
    // "read"
    if w == 4 && buf[i0] == 114 && buf[i0 + 1] == 101 && buf[i0 + 2] == 97
        && buf[i0 + 3] == 100 {
        return Token::Read;
    }
    // "write"
    if w == 5 && buf[i0] == 119 && buf[i0 + 1] == 114 && buf[i0 + 2] == 105
        && buf[i0 + 3] == 116 && buf[i0 + 4] == 101 {
        return Token::Write;
    }
    Token::Error
}

/// Appends to `s` the one character that an identifier byte stands for.
#[verifier::rlimit(100)]
fn push_ident_byte(s: &mut String, b: u8)
    requires
        is_upper(b) || is_digit(b),
    ensures
        final(s)@ == old(s)@ + seq![byte_char(b)],
{
    if b == 65 { s.append("A"); proof { reveal_strlit("A"); assert(final(s)@ =~= old(s)@ + seq![byte_char(b)]); } }
    else if b == 66 { s.append("B"); proof { reveal_strlit("B"); assert(final(s)@ =~= old(s)@ + seq![byte_char(b)]); } }
    else if b == 67 { s.append("C"); proof { reveal_strlit("C"); assert(final(s)@ =~= old(s)@ + seq![byte_char(b)]); } }
    else if b == 68 { s.append("D"); proof { reveal_strlit("D"); assert(final(s)@ =~= old(s)@ + seq![byte_char(b)]); } }
    else if b == 69 { s.append("E"); proof { reveal_strlit("E"); assert(final(s)@ =~= old(s)@ + seq![byte_char(b)]); } }
    else if b == 70 { s.append("F"); proof { reveal_strlit("F"); assert(final(s)@ =~= old(s)@ + seq![byte_char(b)]); } }
    else if b == 71 { s.append("G"); proof { reveal_strlit("G"); assert(final(s)@ =~= old(s)@ + seq![byte_char(b)]); } }
    else if b == 72 { s.append("H"); proof { reveal_strlit("H"); assert(final(s)@ =~= old(s)@ + seq![byte_char(b)]); } }
    else if b == 73 { s.append("I"); proof { reveal_strlit("I"); assert(final(s)@ =~= old(s)@ + seq![byte_char(b)]); } }
    else if b == 74 { s.append("J"); proof { reveal_strlit("J"); assert(final(s)@ =~= old(s)@ + seq![byte_char(b)]); } }
    else if b == 75 { s.append("K"); proof { reveal_strlit("K"); assert(final(s)@ =~= old(s)@ + seq![byte_char(b)]); } }
    else if b == 76 { s.append("L"); proof { reveal_strlit("L"); assert(final(s)@ =~= old(s)@ + seq![byte_char(b)]); } }
    else if b == 77 { s.append("M"); proof { reveal_strlit("M"); assert(final(s)@ =~= old(s)@ + seq![byte_char(b)]); } }
    else if b == 78 { s.append("N"); proof { reveal_strlit("N"); assert(final(s)@ =~= old(s)@ + seq![byte_char(b)]); } }
    else if b == 79 { s.append("O"); proof { reveal_strlit("O"); assert(final(s)@ =~= old(s)@ + seq![byte_char(b)]); } }
    else if b == 80 { s.append("P"); proof { reveal_strlit("P"); assert(final(s)@ =~= old(s)@ + seq![byte_char(b)]); } }
    else if b == 81 { s.append("Q"); proof { reveal_strlit("Q"); assert(final(s)@ =~= old(s)@ + seq![byte_char(b)]); } }
    else if b == 82 { s.append("R"); proof { reveal_strlit("R"); assert(final(s)@ =~= old(s)@ + seq![byte_char(b)]); } }
    else if b == 83 { s.append("S"); proof { reveal_strlit("S"); assert(final(s)@ =~= old(s)@ + seq![byte_char(b)]); } }
    else if b == 84 { s.append("T"); proof { reveal_strlit("T"); assert(final(s)@ =~= old(s)@ + seq![byte_char(b)]); } }
    else if b == 85 { s.append("U"); proof { reveal_strlit("U"); assert(final(s)@ =~= old(s)@ + seq![byte_char(b)]); } }
    else if b == 86 { s.append("V"); proof { reveal_strlit("V"); assert(final(s)@ =~= old(s)@ + seq![byte_char(b)]); } }
    else if b == 87 { s.append("W"); proof { reveal_strlit("W"); assert(final(s)@ =~= old(s)@ + seq![byte_char(b)]); } }
    else if b == 88 { s.append("X"); proof { reveal_strlit("X"); assert(final(s)@ =~= old(s)@ + seq![byte_char(b)]); } }
    else if b == 89 { s.append("Y"); proof { reveal_strlit("Y"); assert(final(s)@ =~= old(s)@ + seq![byte_char(b)]); } }
    else if b == 90 { s.append("Z"); proof { reveal_strlit("Z"); assert(final(s)@ =~= old(s)@ + seq![byte_char(b)]); } }
    else if b == 48 { s.append("0"); proof { reveal_strlit("0"); assert(final(s)@ =~= old(s)@ + seq![byte_char(b)]); } }
    else if b == 49 { s.append("1"); proof { reveal_strlit("1"); assert(final(s)@ =~= old(s)@ + seq![byte_char(b)]); } }
    else if b == 50 { s.append("2"); proof { reveal_strlit("2"); assert(final(s)@ =~= old(s)@ + seq![byte_char(b)]); } }
    else if b == 51 { s.append("3"); proof { reveal_strlit("3"); assert(final(s)@ =~= old(s)@ + seq![byte_char(b)]); } }
    else if b == 52 { s.append("4"); proof { reveal_strlit("4"); assert(final(s)@ =~= old(s)@ + seq![byte_char(b)]); } }
    else if b == 53 { s.append("5"); proof { reveal_strlit("5"); assert(final(s)@ =~= old(s)@ + seq![byte_char(b)]); } }
    else if b == 54 { s.append("6"); proof { reveal_strlit("6"); assert(final(s)@ =~= old(s)@ + seq![byte_char(b)]); } }
    else if b == 55 { s.append("7"); proof { reveal_strlit("7"); assert(final(s)@ =~= old(s)@ + seq![byte_char(b)]); } }
    else if b == 56 { s.append("8"); proof { reveal_strlit("8"); assert(final(s)@ =~= old(s)@ + seq![byte_char(b)]); } }
    else { s.append("9"); proof { reveal_strlit("9"); assert(final(s)@ =~= old(s)@ + seq![byte_char(b)]); } }
}

/// An upper-case letter begins an identifier: greedily consume upper-case
/// letters, then trailing digits.  A lower-case letter inside, or a letter
/// directly against either end, is a lexical error.
pub fn tokenize_identifier(buf: &Vec<u8>, state: &mut usize) -> (r: Token)
    requires
        *old(state) < buf@.len(),
        is_upper(buf@[*old(state) as int]),
    ensures
        r@ == lex_identifier(buf@, *old(state) as int).0,
        !(r@ == Lexeme::Error) ==> *final(state) + 1 == lex_identifier(buf@, *old(state) as int).1,
        *old(state) <= *final(state) < buf@.len(),
{
    let i0: usize = *state;
    if i0 > 0 {
        let p = buf[i0 - 1];
        if (p >= 97 && p <= 122) || (p >= 48 && p <= 57) {
            return Token::Error;
        }
    }
    let n: usize = buf.len();
    let mut mid: usize = i0 + 1;
    while mid < buf.len() && buf[mid] >= 65 && buf[mid] <= 90
        invariant
            i0 < mid <= buf@.len(),
            upper_run_end(buf@, i0 as int) == upper_run_end(buf@, mid as int),
        decreases buf@.len() - mid,
    {
        mid = mid + 1;
    }
    proof {
        assert(upper_run_end(buf@, mid as int) == mid);
        lemma_upper_run_end(buf@, i0 as int);
    }
    if mid < buf.len() && buf[mid] >= 97 && buf[mid] <= 122 {
        return Token::Error;
    }
    let mut end: usize = mid;
    while end < buf.len() && buf[end] >= 48 && buf[end] <= 57
        invariant
            mid <= end <= buf@.len(),
            digit_run_end(buf@, mid as int) == digit_run_end(buf@, end as int),
        decreases buf@.len() - end,
    {
        end = end + 1;
    }
    proof {
        assert(digit_run_end(buf@, end as int) == end);
        lemma_digit_run_end(buf@, mid as int);
    }
    if end < buf.len() {
        let n = buf[end];
        if (n >= 97 && n <= 122) || (n >= 65 && n <= 90) {
            return Token::Error;
        }
    }
    let mut name = String::new();
    let mut k: usize = i0;
    while k < end
        invariant
            i0 <= k <= end,
            end <= buf@.len(),
            mid == upper_run_end(buf@, i0 as int),
            end == digit_run_end(buf@, mid as int),
            i0 <= mid <= end,
            forall|t: int| i0 <= t < mid ==> is_upper(buf@[t]),
            forall|t: int| mid <= t < end ==> is_digit(buf@[t]),
            name@ == ident_chars(buf@, i0 as int, k as int),
        decreases end - k,
    {
        push_ident_byte(&mut name, buf[k]);
        k = k + 1;
        proof {
            assert(name@ =~= ident_chars(buf@, i0 as int, k as int));
        }
    }
    *state = end - 1;
    proof {
        assert(ident_chars(buf@, i0 as int, i0 as int) =~= Seq::<char>::empty());
    }
    Token::Identifier(name)
}

/// Scans a whole source buffer into the token sequence given by
/// `scan_from`: whitespace discarded, tokens in source order, a terminal
/// `Error` token on the first unrecognized lexeme, and a final `EOF`.
pub fn tokenize_source(buf: &Vec<u8>) -> (out: Vec<Token>)
    ensures
        out.deep_view() == scan_from(buf@, 0),
{
    let mut out: Vec<Token> = Vec::new();
    let mut i: usize = 0;
    let mut error: bool = false;
    while i < buf.len() && !error
        invariant
            i <= buf@.len(),
            !error ==> scan_from(buf@, 0) == out.deep_view() + scan_from(buf@, i as int),
            error ==> scan_from(buf@, 0) == out.deep_view() + seq![Lexeme::EOF],
        decreases buf@.len() - i + (if error { 0int } else { 1int }),
    {
        let ghost pre = i as int;
        let ghost dv0 = out.deep_view();
        let b = buf[i];
        if b == 32 || b == 10 || b == 13 || b == 9 {
            i = i + 1;
        } else {
            proof {
                lemma_lex_at_advances(buf@, i as int);
            }
            let tok: Token = if b == 59 {
                Token::Semicolon
            } else if b == 44 {
                Token::Comma
            } else if b == 91 {
                Token::LeftSquare
            } else if b == 93 {
                Token::RightSquare
            } else if b == 40 {
                Token::LeftParen
            } else if b == 41 {
                Token::RightParen
            } else if b == 43 {
                Token::Addition
            } else if b == 45 {
                Token::Subtraction
            } else if b == 42 {
                Token::Multiplication
            } else if b == 61 {
                tokenize_equal(buf, &mut i)
            } else if b == 33 {
                tokenize_inequal(buf, &mut i)
            } else if b == 60 {
                tokenize_lt_lte(buf, &mut i)
            } else if b == 62 {
                tokenize_gt_gte(buf, &mut i)
            } else if b == 124 {
                tokenize_logical_or(buf, &mut i)
            } else if b == 38 {
                tokenize_logical_and(buf, &mut i)
            } else if b >= 48 && b <= 57 {
                tokenize_integer(buf, &mut i)
            } else if b >= 97 && b <= 122 {
                tokenize_keyword(buf, &mut i)
            } else if b >= 65 && b <= 90 {
                tokenize_identifier(buf, &mut i)
            } else {
                Token::Error
            };
            if matches!(tok, Token::Error) {
                out.push(Token::Error);
                error = true;
                proof {
                    assert(out.deep_view() =~= dv0 + seq![Lexeme::Error]);
                    assert(scan_from(buf@, pre) =~= seq![Lexeme::Error, Lexeme::EOF]);
                    assert(dv0 + scan_from(buf@, pre) =~= out.deep_view() + seq![Lexeme::EOF]);
                }
            } else {
                out.push(tok);
                i = i + 1;
                proof {
                    assert(out.deep_view() =~= dv0 + seq![tok@]);
                    assert(lex_at(buf@, pre).0 == tok@);
                    assert(i as int == lex_at(buf@, pre).1);
                    assert(scan_from(buf@, pre) =~= seq![tok@] + scan_from(buf@, i as int));
                    assert(dv0 + scan_from(buf@, pre) =~= out.deep_view() + scan_from(buf@, i as int));
                }
            }
        }
    }
    out.push(Token::EOF);
    proof {
        if !error {
            assert(scan_from(buf@, i as int) =~= seq![Lexeme::EOF]);
        }
        assert(out.deep_view() =~= scan_from(buf@, 0));
    }
    out
}

/// Verifies that the correct number of command-line arguments (the program
/// name plus exactly one file name) was passed to the interpreter.
pub fn is_valid_input(arg_count: usize) -> (r: bool)
    ensures
        r == (arg_count == 2),
{
    if arg_count != 2 {
        return false;
    }
    true
}

} // verus!
