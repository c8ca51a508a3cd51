//! The description of a catalog as text: its tokens and its grammar.
//!
//! A description lists stocks (`name:quantity`) and processes
//! (`name:(needs):(results):delay`) and ends with one line of targets
//! (`optimize:(time;name)`). A `#` starts a comment that runs to the end of
//! its line.

use vstd::prelude::*;
use vstd::string::StrSliceExecFns;
use crate::ast::{
    put_process,
    ProcessBuilder,
    ProcessView,
    Resource,
    ResourceView,
    SimulationBuilder,
    SimulationView,
};
use crate::score::{names_without, without};
use crate::utils::is_in_names;

verus! {

/// The classes of characters that a token is a run of.
#[derive(Clone, Copy, PartialEq, Eq, Structural)]
pub enum CharClass {
    /// White space, as Unicode defines it.
    Space,
    /// A decimal digit.
    Digit,
    /// A letter of the Latin alphabet, a decimal digit or `_`.
    NamePart,
    /// Anything but a line feed.
    NotNewline,
}

/// White space, as Unicode defines it.
pub open spec fn is_space(c: char) -> bool {
    let code = c as u32;
    ||| 9 <= code <= 13
    ||| code == 32
    ||| code == 0x85
    ||| code == 0xA0
    ||| code == 0x1680
    ||| 0x2000 <= code <= 0x200A
    ||| code == 0x2028
    ||| code == 0x2029
    ||| code == 0x202F
    ||| code == 0x205F
    ||| code == 0x3000
}

/// A decimal digit.
pub open spec fn is_digit(c: char) -> bool {
    '0' as u32 <= c as u32 <= '9' as u32
}

/// A letter of the Latin alphabet or `_`.
pub open spec fn is_name_start(c: char) -> bool {
    let code = c as u32;
    ||| 'A' as u32 <= code <= 'Z' as u32
    ||| 'a' as u32 <= code <= 'z' as u32
    ||| c == '_'
}

/// A letter of the Latin alphabet, a decimal digit or `_`.
pub open spec fn is_name_part(c: char) -> bool {
    is_name_start(c) || is_digit(c)
}

/// Whether `c` belongs to `class`.
pub open spec fn in_class(c: char, class: CharClass) -> bool {
    match class {
        CharClass::Space => is_space(c),
        CharClass::Digit => is_digit(c),
        CharClass::NamePart => is_name_part(c),
        CharClass::NotNewline => c != '\n',
    }
}

/// Where the run of characters of `class` that starts at `pos` ends: the
/// first position from `pos` on whose character is not of `class`, or the
/// end of the text.
pub open spec fn run_end(chars: Seq<char>, pos: int, class: CharClass) -> int
    decreases chars.len() - pos,
{
    if 0 <= pos < chars.len() && in_class(chars[pos], class) {
        run_end(chars, pos + 1, class)
    } else {
        pos
    }
}

/// A run ends at or behind its start and within the text.
pub proof fn lemma_run_end(chars: Seq<char>, pos: int, class: CharClass)
    requires
        0 <= pos <= chars.len(),
    ensures
        pos <= run_end(chars, pos, class) <= chars.len(),
    decreases chars.len() - pos,
{
    if pos < chars.len() && in_class(chars[pos], class) {
        lemma_run_end(chars, pos + 1, class);
    }
}

/// Whether `c` belongs to `class`.
pub fn char_in_class(c: char, class: CharClass) -> (res: bool)
    ensures
        res == in_class(c, class),
{
    let code = c as u32;
    match class {
        CharClass::Space => {
            (9 <= code && code <= 13) || code == 32 || code == 0x85 || code == 0xA0 || code
                == 0x1680 || (0x2000 <= code && code <= 0x200A) || code == 0x2028 || code == 0x2029
                || code == 0x202F || code == 0x205F || code == 0x3000
        },
        CharClass::Digit => '0' as u32 <= code && code <= '9' as u32,
        CharClass::NamePart => {
            ('A' as u32 <= code && code <= 'Z' as u32) || ('a' as u32 <= code && code <= 'z' as u32)
                || c == '_' || ('0' as u32 <= code && code <= '9' as u32)
        },
        CharClass::NotNewline => c != '\n',
    }
}

/// Where the run of characters of `class` that starts at `pos` ends.
pub(crate) fn scan(chars: &Vec<char>, pos: usize, class: CharClass) -> (res: usize)
    requires
        pos <= chars@.len(),
    ensures
        res as int == run_end(chars@, pos as int, class),
        pos <= res <= chars@.len(),
{
    let mut at: usize = pos;
    while at < chars.len() && char_in_class(chars[at], class)
        invariant
            pos <= at <= chars@.len(),
            run_end(chars@, pos as int, class) == run_end(chars@, at as int, class),
        decreases chars@.len() - at,
    {
        at += 1;
    }
    at
}

/// The kinds of tokens.
pub const COMMENT: usize = 0;

pub const NUMBER: usize = 1;

pub const NAME: usize = 2;

pub const LEFT: usize = 3;

pub const RIGHT: usize = 4;

pub const COLON: usize = 5;

pub const SEMICOLON: usize = 6;

pub const OPTIMIZE: usize = 7;

/// The word that opens the line of targets.
pub open spec fn optimize_word() -> Seq<char> {
    seq!['o', 'p', 't', 'i', 'm', 'i', 'z', 'e']
}

/// The token that starts at `start`: its kind and its end. A comment runs
/// to the end of its line, a number and a name as far as their characters
/// go; the word `optimize` is a kind of its own. `None` where no token
/// starts with the character at `start`.
pub open spec fn token_at(chars: Seq<char>, start: int) -> Option<(usize, int)> {
    let c = chars[start];
    if c == '#' {
        Some((COMMENT, run_end(chars, start + 1, CharClass::NotNewline)))
    } else if is_digit(c) {
        Some((NUMBER, run_end(chars, start + 1, CharClass::Digit)))
    } else if is_name_start(c) {
        let end = run_end(chars, start + 1, CharClass::NamePart);
        if chars.subrange(start, end) == optimize_word() {
            Some((OPTIMIZE, end))
        } else {
            Some((NAME, end))
        }
    } else if c == '(' {
        Some((LEFT, start + 1))
    } else if c == ')' {
        Some((RIGHT, start + 1))
    } else if c == ':' {
        Some((COLON, start + 1))
    } else if c == ';' {
        Some((SEMICOLON, start + 1))
    } else {
        None
    }
}

/// A token ends behind its start and within the text.
pub proof fn lemma_token_at(chars: Seq<char>, start: int)
    requires
        0 <= start < chars.len(),
    ensures
        token_at(chars, start) matches Some((_, end)) ==> start < end <= chars.len(),
{
    lemma_run_end(chars, start + 1, CharClass::NotNewline);
    lemma_run_end(chars, start + 1, CharClass::Digit);
    lemma_run_end(chars, start + 1, CharClass::NamePart);
}

/// Whether the characters from `start` to `end` spell `optimize`.
pub(crate) fn spells_optimize(chars: &Vec<char>, start: usize, end: usize) -> (res: bool)
    requires
        start <= end <= chars@.len(),
    ensures
        res == (chars@.subrange(start as int, end as int) == optimize_word()),
{
    let ghost word = chars@.subrange(start as int, end as int);
    if end - start != 8 {
        proof {
            assert(optimize_word().len() == 8);
        }
        return false;
    }
    let res = chars[start] == 'o' && chars[start + 1] == 'p' && chars[start + 2] == 't'
        && chars[start + 3] == 'i' && chars[start + 4] == 'm' && chars[start + 5] == 'i'
        && chars[start + 6] == 'z' && chars[start + 7] == 'e';
    proof {
        if res {
            assert(word =~= optimize_word());
        } else {
            assert(word[0] == chars@[start as int]);
            assert(word[1] == chars@[start + 1]);
            assert(word[2] == chars@[start + 2]);
            assert(word[3] == chars@[start + 3]);
            assert(word[4] == chars@[start + 4]);
            assert(word[5] == chars@[start + 5]);
            assert(word[6] == chars@[start + 6]);
            assert(word[7] == chars@[start + 7]);
        }
    }
    res
}

/// The kind and the end of the token that starts at `start`.
pub(crate) fn read_token(chars: &Vec<char>, start: usize) -> (res: Option<(usize, usize)>)
    requires
        start < chars@.len(),
    ensures
        match res {
            Some((kind, end)) => token_at(chars@, start as int) == Some((kind, end as int))
                && start < end <= chars@.len(),
            None => token_at(chars@, start as int) is None,
        },
{
    let c = chars[start];
    let len = chars.len();
    proof {
        lemma_token_at(chars@, start as int);
    }
    if c == '#' {
        Some((COMMENT, scan(chars, start + 1, CharClass::NotNewline)))
    } else if char_in_class(c, CharClass::Digit) {
        Some((NUMBER, scan(chars, start + 1, CharClass::Digit)))
    } else if char_in_class(c, CharClass::NamePart) {
        let end = scan(chars, start + 1, CharClass::NamePart);
        if spells_optimize(chars, start, end) {
            Some((OPTIMIZE, end))
        } else {
            Some((NAME, end))
        }
    } else if c == '(' {
        Some((LEFT, start + 1))
    } else if c == ')' {
        Some((RIGHT, start + 1))
    } else if c == ':' {
        Some((COLON, start + 1))
    } else if c == ';' {
        Some((SEMICOLON, start + 1))
    } else {
        None
    }
}

/// The characters of `text`, in order.
pub fn characters(text: &str) -> (res: Vec<char>)
    ensures
        res@ == text@,
{
    let mut res: Vec<char> = Vec::new();
    for c in iter: text.chars()
        invariant
            iter.seq() == text@,
            res@ == iter.seq().take(iter.index() as int),
    {
        res.push(c);
        proof {
            assert(iter.seq().take(iter.index() + 1) =~= iter.seq().take(iter.index() as int).push(c));
        }
    }
    proof {
        assert(text@.take(text@.len() as int) =~= text@);
    }
    res
}

/// A token: its kind, as one of the constants of this module, and its text.
#[derive(Debug, Clone, PartialEq, Eq)]
pub struct Token(pub usize, pub String);

/// A token with the positions, counted in characters, at which it starts
/// and ends.
#[derive(Debug, Clone, PartialEq, Eq)]
pub struct Lexeme {
    pub start: usize,
    pub token: Token,
    pub end: usize,
}

/// The mathematical value of a [`Lexeme`].
pub struct LexemeView {
    pub kind: usize,
    pub text: Seq<char>,
    pub start: int,
    pub end: int,
}

impl DeepView for Lexeme {
    type V = LexemeView;

    open spec fn deep_view(&self) -> LexemeView {
        LexemeView {
            kind: self.token.0,
            text: self.token.1@,
            start: self.start as int,
            end: self.end as int,
        }
    }
}

impl View for Lexeme {
    type V = LexemeView;

    open spec fn view(&self) -> LexemeView {
        self.deep_view()
    }
}

/// Why a description is not a catalog. Positions count characters from the
/// start of the text.
#[derive(Debug, Clone, Copy, PartialEq, Eq, Structural)]
pub enum ParseError {
    /// No token starts at `location`.
    InvalidToken { location: usize },
    /// The token at `location` cannot stand there.
    UnrecognizedToken { location: usize },
    /// The text ends, at `location`, where a token is still due.
    UnrecognizedEof { location: usize },
    /// The number at `location` is above `u32::MAX`.
    NumberTooLarge { location: usize },
}

/// The tokens of `chars` from `pos` on, comments left out; or the first
/// place at which no token starts.
pub open spec fn lex_spec(chars: Seq<char>, pos: int) -> Result<Seq<LexemeView>, ParseError>
    decreases chars.len() - pos,
{
    if pos < 0 || pos > chars.len() {
        Ok(Seq::empty())
    } else {
        let start = run_end(chars, pos, CharClass::Space);
        proof {
            lemma_run_end(chars, pos, CharClass::Space);
        }
        if start >= chars.len() {
            Ok(Seq::empty())
        } else {
            proof {
                lemma_token_at(chars, start);
            }
            match token_at(chars, start) {
                None => Err(ParseError::InvalidToken { location: start as usize }),
                Some((kind, end)) => if kind == COMMENT {
                    lex_spec(chars, end)
                } else {
                    match lex_spec(chars, end) {
                        Err(error) => Err(error),
                        Ok(rest) => Ok(
                            seq![
                                LexemeView { kind, text: chars.subrange(start, end), start, end },
                            ] + rest,
                        ),
                    }
                },
            }
        }
    }
}

/// Splits `text` into its tokens, comments left out. Fails at the first
/// character that starts no token.
pub fn tokenize(text: &str) -> (res: Result<Vec<Lexeme>, ParseError>)
    ensures
        match res {
            Ok(lexemes) => lex_spec(text@, 0) == Ok::<Seq<LexemeView>, ParseError>(
                lexemes.deep_view(),
            ),
            Err(error) => lex_spec(text@, 0) == Err::<Seq<LexemeView>, ParseError>(error),
        },
{
    let chars = characters(text);
    let mut lexemes: Vec<Lexeme> = Vec::new();
    let mut pos: usize = 0;
    loop
        invariant
            pos <= chars@.len(),
            chars@ == text@,
            lex_spec(chars@, 0) == match lex_spec(chars@, pos as int) {
                Ok(rest) => Ok(lexemes.deep_view() + rest),
                Err(error) => Err(error),
            },
        decreases chars@.len() - pos,
    {
        let ghost before = lexemes.deep_view();
        let start = scan(&chars, pos, CharClass::Space);
        if start >= chars.len() {
            proof {
                assert(before + Seq::<LexemeView>::empty() =~= before);
            }
            return Ok(lexemes);
        }
        match read_token(&chars, start) {
            None => {
                return Err(ParseError::InvalidToken { location: start });
            },
            Some((kind, end)) => {
                if kind != COMMENT {
                    let word = text.substring_char(start, end).to_owned();
                    lexemes.push(Lexeme { start, token: Token(kind, word), end });
                    proof {
                        let lexeme = LexemeView {
                            kind,
                            text: chars@.subrange(start as int, end as int),
                            start: start as int,
                            end: end as int,
                        };
                        assert(lexemes.deep_view() =~= before.push(lexeme));
                        assert forall|rest: Seq<LexemeView>|
                            #![trigger before.push(lexeme) + rest]
                            before.push(lexeme) + rest == before + (seq![lexeme] + rest) by {
                            assert(before.push(lexeme) + rest =~= before + (seq![lexeme] + rest));
                        }
                    }
                }
                pos = end;
            },
        }
    }
}

/// The number that the decimal digits `digits` spell.
pub open spec fn number_value(digits: Seq<char>) -> nat
    decreases digits.len(),
{
    if digits.len() == 0 {
        0
    } else {
        number_value(digits.drop_last()) * 10 + (digits.last() as u32 - '0' as u32) as nat
    }
}

/// The number that a prefix of digits spells is not above the number that
/// all of them spell.
pub proof fn lemma_number_grows(digits: Seq<char>, n: int)
    requires
        0 <= n <= digits.len(),
        forall|k: int| 0 <= k < digits.len() ==> is_digit(#[trigger] digits[k]),
    ensures
        number_value(digits.take(n)) <= number_value(digits),
    decreases digits.len() - n,
{
    if n == digits.len() {
        assert(digits.take(n) =~= digits);
    } else {
        assert(digits.take(n + 1).drop_last() =~= digits.take(n));
        assert(is_digit(digits[n]));
        lemma_number_grows(digits, n + 1);
    }
}

/// The number that the digits of `word` spell; `None` where it is above
/// `u32::MAX`.
pub(crate) fn read_number(word: &Vec<char>) -> (res: Option<u32>)
    requires
        forall|k: int| 0 <= k < word@.len() ==> is_digit(#[trigger] word@[k]),
    ensures
        res == (if number_value(word@) > u32::MAX {
            None
        } else {
            Some(number_value(word@) as u32)
        }),
{
    let mut value: u64 = 0;
    let mut i: usize = 0;
    while i < word.len()
        invariant
            i <= word@.len(),
            forall|k: int| 0 <= k < word@.len() ==> is_digit(#[trigger] word@[k]),
            value == number_value(word@.take(i as int)),
            value <= u32::MAX,
        decreases word@.len() - i,
    {
        proof {
            assert(word@.take(i + 1).drop_last() =~= word@.take(i as int));
            assert(word@.take(i + 1).last() == word@[i as int]);
            assert(is_digit(word@[i as int]));
        }
        let digit = (word[i] as u32 - '0' as u32) as u64;
        let next = value * 10 + digit;
        if next > u32::MAX as u64 {
            proof {
                lemma_number_grows(word@, i + 1);
            }
            return None;
        }
        value = next;
        i += 1;
    }
    proof {
        assert(word@.take(word@.len() as int) =~= word@);
    }
    Some(value as u32)
}

/// Every character of `word` is a decimal digit.
pub open spec fn all_digits(word: Seq<char>) -> bool {
    forall|k: int| 0 <= k < word.len() ==> is_digit(#[trigger] word[k])
}

/// Whether every character of `word` is a decimal digit.
pub fn only_digits(word: &Vec<char>) -> (res: bool)
    ensures
        res == all_digits(word@),
{
    let mut i: usize = 0;
    while i < word.len()
        invariant
            i <= word@.len(),
            forall|k: int| 0 <= k < i ==> is_digit(#[trigger] word@[k]),
        decreases word@.len() - i,
    {
        if !char_in_class(word[i], CharClass::Digit) {
            return false;
        }
        i += 1;
    }
    true
}

/// What a position in a list of tokens gives when a token of `kind` is due
/// there: the next position, or why the token is not there. `eof` is the
/// position at which the text ends.
pub open spec fn expect_spec(tokens: Seq<LexemeView>, i: int, kind: usize, eof: usize) -> Result<
    int,
    ParseError,
> {
    if i < 0 || i >= tokens.len() {
        Err(ParseError::UnrecognizedEof { location: eof })
    } else if tokens[i].kind != kind {
        Err(ParseError::UnrecognizedToken { location: tokens[i].start as usize })
    } else {
        Ok(i + 1)
    }
}

/// Whether a token of `kind` stands at `i`.
pub open spec fn stands_at(tokens: Seq<LexemeView>, i: int, kind: usize) -> bool {
    0 <= i < tokens.len() && tokens[i].kind == kind
}

/// The number that the token at `i` spells.
pub open spec fn number_spec(tokens: Seq<LexemeView>, i: int, eof: usize) -> Result<
    (usize, int),
    ParseError,
> {
    match expect_spec(tokens, i, NUMBER, eof) {
        Err(error) => Err(error),
        Ok(next) => if !all_digits(tokens[i].text) {
            Err(ParseError::UnrecognizedToken { location: tokens[i].start as usize })
        } else if number_value(tokens[i].text) > u32::MAX {
            Err(ParseError::NumberTooLarge { location: tokens[i].start as usize })
        } else {
            Ok((number_value(tokens[i].text) as usize, next))
        },
    }
}

/// A name with a quantity: `name:number`.
pub open spec fn item_spec(tokens: Seq<LexemeView>, i: int, eof: usize) -> Result<
    ((Seq<char>, usize), int),
    ParseError,
> {
    match expect_spec(tokens, i, NAME, eof) {
        Err(error) => Err(error),
        Ok(colon) => match expect_spec(tokens, colon, COLON, eof) {
            Err(error) => Err(error),
            Ok(number) => match number_spec(tokens, number, eof) {
                Err(error) => Err(error),
                Ok((quantity, next)) => Ok(((tokens[i].text, quantity), next)),
            },
        },
    }
}

/// The rest of a list of items behind its `(`: items parted by `;`, the
/// last of which may leave its `;` out, up to the `)`. The items are added
/// to `found`.
pub open spec fn items_spec(
    tokens: Seq<LexemeView>,
    i: int,
    found: Seq<(Seq<char>, usize)>,
    eof: usize,
) -> Result<(Seq<(Seq<char>, usize)>, int), ParseError>
    decreases tokens.len() - i,
{
    if stands_at(tokens, i, RIGHT) {
        Ok((found, i + 1))
    } else {
        match item_spec(tokens, i, eof) {
            Err(error) => Err(error),
            Ok((item, next)) => if stands_at(tokens, next, SEMICOLON) {
                items_spec(tokens, next + 1, found.push(item), eof)
            } else {
                match expect_spec(tokens, next, RIGHT, eof) {
                    Err(error) => Err(error),
                    Ok(behind) => Ok((found.push(item), behind)),
                }
            },
        }
    }
}

/// The rest of a list of names behind its `(`, as [`items_spec`] for items.
pub open spec fn names_spec(tokens: Seq<LexemeView>, i: int, found: Seq<Seq<char>>, eof: usize) -> Result<
    (Seq<Seq<char>>, int),
    ParseError,
>
    decreases tokens.len() - i,
{
    if stands_at(tokens, i, RIGHT) {
        Ok((found, i + 1))
    } else {
        match expect_spec(tokens, i, NAME, eof) {
            Err(error) => Err(error),
            Ok(next) => if stands_at(tokens, next, SEMICOLON) {
                names_spec(tokens, next + 1, found.push(tokens[i].text), eof)
            } else {
                match expect_spec(tokens, next, RIGHT, eof) {
                    Err(error) => Err(error),
                    Ok(behind) => Ok((found.push(tokens[i].text), behind)),
                }
            },
        }
    }
}

/// A list of items in brackets, where one stands at `i`; no item and the
/// same position where none does.
pub open spec fn optional_items_spec(tokens: Seq<LexemeView>, i: int, eof: usize) -> Result<
    (Seq<(Seq<char>, usize)>, int),
    ParseError,
> {
    if stands_at(tokens, i, LEFT) {
        items_spec(tokens, i + 1, Seq::empty(), eof)
    } else {
        Ok((Seq::empty(), i))
    }
}

/// The token of `kind` that is due at `i`.
pub fn expect(tokens: &Vec<Lexeme>, i: usize, kind: usize, eof: usize) -> (res: Result<
    usize,
    ParseError,
>)
    ensures
        match res {
            Ok(next) => expect_spec(tokens.deep_view(), i as int, kind, eof) == Ok::<
                int,
                ParseError,
            >(next as int) && next == i + 1 && i < tokens@.len(),
            Err(error) => expect_spec(tokens.deep_view(), i as int, kind, eof) == Err::<
                int,
                ParseError,
            >(error),
        },
{
    if i >= tokens.len() {
        Err(ParseError::UnrecognizedEof { location: eof })
    } else if tokens[i].token.0 != kind {
        Err(ParseError::UnrecognizedToken { location: tokens[i].start })
    } else {
        Ok(i + 1)
    }
}

/// Whether a token of `kind` stands at `i`.
pub fn is_at(tokens: &Vec<Lexeme>, i: usize, kind: usize) -> (res: bool)
    ensures
        res == stands_at(tokens.deep_view(), i as int, kind),
        res ==> i < tokens@.len() && i < usize::MAX,
{
    i < tokens.len() && tokens[i].token.0 == kind
}

/// Reads the number that is due at `i`.
pub fn parse_number(tokens: &Vec<Lexeme>, i: usize, eof: usize) -> (res: Result<
    (usize, usize),
    ParseError,
>)
    ensures
        match res {
            Ok((value, next)) => number_spec(tokens.deep_view(), i as int, eof) == Ok::<
                (usize, int),
                ParseError,
            >((value, next as int)) && i < next <= tokens@.len(),
            Err(error) => number_spec(tokens.deep_view(), i as int, eof) == Err::<
                (usize, int),
                ParseError,
            >(error),
        },
{
    match expect(tokens, i, NUMBER, eof) {
        Err(error) => Err(error),
        Ok(next) => {
            let word = characters(tokens[i].token.1.as_str());
            if !only_digits(&word) {
                Err(ParseError::UnrecognizedToken { location: tokens[i].start })
            } else {
                match read_number(&word) {
                    None => Err(ParseError::NumberTooLarge { location: tokens[i].start }),
                    Some(value) => Ok((value as usize, next)),
                }
            }
        },
    }
}

/// Reads the item that is due at `i`.
pub fn parse_item(tokens: &Vec<Lexeme>, i: usize, eof: usize) -> (res: Result<
    ((String, usize), usize),
    ParseError,
>)
    ensures
        match res {
            Ok((item, next)) => item_spec(tokens.deep_view(), i as int, eof) == Ok::<
                ((Seq<char>, usize), int),
                ParseError,
            >(((item.0@, item.1), next as int)) && i < next <= tokens@.len(),
            Err(error) => item_spec(tokens.deep_view(), i as int, eof) == Err::<
                ((Seq<char>, usize), int),
                ParseError,
            >(error),
        },
{
    let colon = match expect(tokens, i, NAME, eof) {
        Err(error) => {
            return Err(error);
        },
        Ok(colon) => colon,
    };
    let number = match expect(tokens, colon, COLON, eof) {
        Err(error) => {
            return Err(error);
        },
        Ok(number) => number,
    };
    match parse_number(tokens, number, eof) {
        Err(error) => Err(error),
        Ok((quantity, next)) => Ok(((tokens[i].token.1.clone(), quantity), next)),
    }
}

/// Reads the rest of a list of items behind its `(`.
pub(crate) fn parse_items(tokens: &Vec<Lexeme>, i: usize, eof: usize) -> (res: Result<
    (Vec<(String, usize)>, usize),
    ParseError,
>)
    requires
        i <= tokens@.len(),
    ensures
        match res {
            Ok((items, next)) => items_spec(tokens.deep_view(), i as int, Seq::empty(), eof)
                == Ok::<(Seq<(Seq<char>, usize)>, int), ParseError>(
                (items.deep_view(), next as int),
            ) && i < next <= tokens@.len(),
            Err(error) => items_spec(tokens.deep_view(), i as int, Seq::empty(), eof) == Err::<
                (Seq<(Seq<char>, usize)>, int),
                ParseError,
            >(error),
        },
{
    let ghost all = tokens.deep_view();
    let mut found: Vec<(String, usize)> = Vec::new();
    let mut at: usize = i;
    proof {
        assert(found.deep_view() =~= Seq::<(Seq<char>, usize)>::empty());
    }
    loop
        invariant
            i <= at <= tokens@.len(),
            all == tokens.deep_view(),
            items_spec(all, i as int, Seq::empty(), eof) == items_spec(
                all,
                at as int,
                found.deep_view(),
                eof,
            ),
        decreases tokens@.len() - at,
    {
        if is_at(tokens, at, RIGHT) {
            return Ok((found, at + 1));
        }
        let ghost before = found.deep_view();
        match parse_item(tokens, at, eof) {
            Err(error) => {
                return Err(error);
            },
            Ok((item, next)) => {
                let ghost view = (item.0@, item.1);
                found.push(item);
                proof {
                    assert(found.deep_view() =~= before.push(view));
                }
                if is_at(tokens, next, SEMICOLON) {
                    at = next + 1;
                } else {
                    match expect(tokens, next, RIGHT, eof) {
                        Err(error) => {
                            return Err(error);
                        },
                        Ok(behind) => {
                            return Ok((found, behind));
                        },
                    }
                }
            },
        }
    }
}

/// Reads the rest of a list of names behind its `(`.
pub(crate) fn parse_names(tokens: &Vec<Lexeme>, i: usize, eof: usize) -> (res: Result<
    (Vec<String>, usize),
    ParseError,
>)
    requires
        i <= tokens@.len(),
    ensures
        match res {
            Ok((names, next)) => names_spec(tokens.deep_view(), i as int, Seq::empty(), eof)
                == Ok::<(Seq<Seq<char>>, int), ParseError>((names.deep_view(), next as int)) && i
                < next <= tokens@.len(),
            Err(error) => names_spec(tokens.deep_view(), i as int, Seq::empty(), eof) == Err::<
                (Seq<Seq<char>>, int),
                ParseError,
            >(error),
        },
{
    let ghost all = tokens.deep_view();
    let mut found: Vec<String> = Vec::new();
    let mut at: usize = i;
    proof {
        assert(found.deep_view() =~= Seq::<Seq<char>>::empty());
    }
    loop
        invariant
            i <= at <= tokens@.len(),
            all == tokens.deep_view(),
            names_spec(all, i as int, Seq::empty(), eof) == names_spec(
                all,
                at as int,
                found.deep_view(),
                eof,
            ),
        decreases tokens@.len() - at,
    {
        if is_at(tokens, at, RIGHT) {
            return Ok((found, at + 1));
        }
        let ghost before = found.deep_view();
        match expect(tokens, at, NAME, eof) {
            Err(error) => {
                return Err(error);
            },
            Ok(next) => {
                found.push(tokens[at].token.1.clone());
                proof {
                    assert(found.deep_view() =~= before.push(all[at as int].text));
                }
                if is_at(tokens, next, SEMICOLON) {
                    at = next + 1;
                } else {
                    match expect(tokens, next, RIGHT, eof) {
                        Err(error) => {
                            return Err(error);
                        },
                        Ok(behind) => {
                            return Ok((found, behind));
                        },
                    }
                }
            },
        }
    }
}

/// Reads a list of items in brackets where one stands at `i`.
pub(crate) fn parse_optional_items(tokens: &Vec<Lexeme>, i: usize, eof: usize) -> (res: Result<
    (Vec<(String, usize)>, usize),
    ParseError,
>)
    requires
        i <= tokens@.len(),
    ensures
        match res {
            Ok((items, next)) => optional_items_spec(tokens.deep_view(), i as int, eof) == Ok::<
                (Seq<(Seq<char>, usize)>, int),
                ParseError,
            >((items.deep_view(), next as int)) && i <= next <= tokens@.len(),
            Err(error) => optional_items_spec(tokens.deep_view(), i as int, eof) == Err::<
                (Seq<(Seq<char>, usize)>, int),
                ParseError,
            >(error),
        },
{
    if is_at(tokens, i, LEFT) {
        parse_items(tokens, i + 1, eof)
    } else {
        let items: Vec<(String, usize)> = Vec::new();
        proof {
            assert(items.deep_view() =~= Seq::<(Seq<char>, usize)>::empty());
        }
        Ok((items, i))
    }
}

/// The position of the first resource of `list` that carries `name`.
pub open spec fn resource_index(list: Seq<ResourceView>, name: Seq<char>) -> Option<int>
    decreases list.len(),
{
    if list.len() == 0 {
        None
    } else if list[0].name == name {
        Some(0)
    } else {
        match resource_index(list.skip(1), name) {
            Some(i) => Some(i + 1),
            None => None,
        }
    }
}

/// The resources that a list of items stands for: every name once, where it
/// first occurs, with the quantity of its last item.
pub open spec fn resources_spec(items: Seq<(Seq<char>, usize)>) -> Seq<ResourceView>
    decreases items.len(),
{
    if items.len() == 0 {
        Seq::empty()
    } else {
        let before = resources_spec(items.drop_last());
        let resource = ResourceView { name: items.last().0, quantity: items.last().1 as nat };
        match resource_index(before, resource.name) {
            Some(i) => before.update(i, resource),
            None => before.push(resource),
        }
    }
}

/// Where the first resource called `name` stands in `list`.
fn find_resource(list: &Vec<Resource>, name: &String) -> (res: Option<usize>)
    ensures
        match res {
            Some(i) => i < list@.len() && resource_index(list.deep_view(), name@) == Some(i as int),
            None => resource_index(list.deep_view(), name@) is None,
        },
{
    let ghost all = list.deep_view();
    let mut i: usize = 0;
    proof {
        assert(all.skip(0) =~= all);
    }
    while i < list.len()
        invariant
            i <= list@.len(),
            all == list.deep_view(),
            resource_index(all, name@) == match resource_index(all.skip(i as int), name@) {
                Some(k) => Some(k + i),
                None => None,
            },
        decreases list@.len() - i,
    {
        proof {
            assert(all.skip(i as int)[0] == list@[i as int]@);
            assert(all.skip(i as int).skip(1) =~= all.skip(i + 1));
        }
        if list[i].name == *name {
            return Some(i);
        }
        i += 1;
    }
    None
}

/// Makes resources of a list of items: every name once, where it first
/// occurs, with the quantity of its last item.
pub fn collect_resources(items: Vec<(String, usize)>) -> (res: Vec<Resource>)
    ensures
        res.deep_view() == resources_spec(items.deep_view()),
{
    let ghost all = items.deep_view();
    let mut res: Vec<Resource> = Vec::new();
    let mut i: usize = 0;
    proof {
        assert(res.deep_view() =~= resources_spec(all.take(0)));
    }
    while i < items.len()
        invariant
            i <= items@.len(),
            all == items.deep_view(),
            res.deep_view() == resources_spec(all.take(i as int)),
        decreases items@.len() - i,
    {
        let ghost before = res.deep_view();
        proof {
            assert(all.take(i + 1).drop_last() =~= all.take(i as int));
            assert(all.take(i + 1).last() == all[i as int]);
        }
        let resource = Resource { name: items[i].0.clone(), quantity: items[i].1 };
        let ghost view = resource@;
        match find_resource(&res, &resource.name) {
            Some(at) => {
                res[at] = resource;
                proof {
                    assert(res.deep_view() =~= before.update(at as int, view));
                }
            },
            None => {
                res.push(resource);
                proof {
                    assert(res.deep_view() =~= before.push(view));
                }
            },
        }
        i += 1;
    }
    proof {
        assert(all.take(all.len() as int) =~= all);
    }
    res
}

/// One line of a description.
pub enum Entry {
    /// A starting quantity.
    Stock(String, usize),
    /// A process.
    Process(ProcessBuilder),
}

/// The mathematical value of an [`Entry`].
pub enum EntryView {
    Stock(Seq<char>, usize),
    Process(ProcessView),
}

impl DeepView for Entry {
    type V = EntryView;

    open spec fn deep_view(&self) -> EntryView {
        match self {
            Entry::Stock(name, quantity) => EntryView::Stock(name@, *quantity),
            Entry::Process(process) => EntryView::Process(process@),
        }
    }
}

/// An item in a list of items ends behind its start and among the tokens.
pub proof fn lemma_item_advances(tokens: Seq<LexemeView>, i: int, eof: usize)
    requires
        0 <= i,
    ensures
        item_spec(tokens, i, eof) matches Ok((_, next)) ==> i < next <= tokens.len(),
{
}

/// A list of items ends behind its start and among the tokens.
pub proof fn lemma_items_advance(
    tokens: Seq<LexemeView>,
    i: int,
    found: Seq<(Seq<char>, usize)>,
    eof: usize,
)
    requires
        0 <= i,
    ensures
        items_spec(tokens, i, found, eof) matches Ok((_, next)) ==> i < next <= tokens.len(),
    decreases tokens.len() - i,
{
    if !stands_at(tokens, i, RIGHT) {
        lemma_item_advances(tokens, i, eof);
        match item_spec(tokens, i, eof) {
            Ok((item, next)) => {
                if stands_at(tokens, next, SEMICOLON) {
                    lemma_items_advance(tokens, next + 1, found.push(item), eof);
                }
            },
            Err(_) => {},
        }
    }
}

/// A list of names ends behind its start and among the tokens.
pub proof fn lemma_names_advance(tokens: Seq<LexemeView>, i: int, found: Seq<Seq<char>>, eof: usize)
    requires
        0 <= i,
    ensures
        names_spec(tokens, i, found, eof) matches Ok((_, next)) ==> i < next <= tokens.len(),
    decreases tokens.len() - i,
{
    if !stands_at(tokens, i, RIGHT) {
        match expect_spec(tokens, i, NAME, eof) {
            Ok(next) => {
                if stands_at(tokens, next, SEMICOLON) {
                    lemma_names_advance(tokens, next + 1, found.push(tokens[i].text), eof);
                }
            },
            Err(_) => {},
        }
    }
}

/// The rest of a process behind its name and the `:` after it: the items
/// that it needs, `:`, the items that it gives, `:`, and its delay. Either
/// list of items may be left out.
pub open spec fn process_spec(tokens: Seq<LexemeView>, name: Seq<char>, i: int, eof: usize) -> Result<
    (ProcessView, int),
    ParseError,
> {
    match optional_items_spec(tokens, i, eof) {
        Err(error) => Err(error),
        Ok((needs, first)) => match expect_spec(tokens, first, COLON, eof) {
            Err(error) => Err(error),
            Ok(second) => match optional_items_spec(tokens, second, eof) {
                Err(error) => Err(error),
                Ok((gives, third)) => match expect_spec(tokens, third, COLON, eof) {
                    Err(error) => Err(error),
                    Ok(last) => match number_spec(tokens, last, eof) {
                        Err(error) => Err(error),
                        Ok((delay, next)) => Ok(
                            (
                                ProcessView {
                                    name,
                                    input: resources_spec(needs),
                                    output: resources_spec(gives),
                                    duration: delay as nat,
                                },
                                next,
                            ),
                        ),
                    },
                },
            },
        },
    }
}

/// One line that is not the line of targets: `name:number` for a stock, or
/// `name:` and the rest of a process.
pub open spec fn entry_spec(tokens: Seq<LexemeView>, i: int, eof: usize) -> Result<
    (EntryView, int),
    ParseError,
> {
    match expect_spec(tokens, i, NAME, eof) {
        Err(error) => Err(error),
        Ok(colon) => match expect_spec(tokens, colon, COLON, eof) {
            Err(error) => Err(error),
            Ok(behind) => if stands_at(tokens, behind, NUMBER) {
                match number_spec(tokens, behind, eof) {
                    Err(error) => Err(error),
                    Ok((quantity, next)) => Ok((EntryView::Stock(tokens[i].text, quantity), next)),
                }
            } else {
                match process_spec(tokens, tokens[i].text, behind, eof) {
                    Err(error) => Err(error),
                    Ok((process, next)) => Ok((EntryView::Process(process), next)),
                }
            },
        },
    }
}

/// A line ends behind its start and among the tokens.
pub proof fn lemma_entry_advances(tokens: Seq<LexemeView>, i: int, eof: usize)
    requires
        0 <= i,
    ensures
        entry_spec(tokens, i, eof) matches Ok((_, next)) ==> i < next <= tokens.len(),
{
    lemma_items_advance(tokens, i + 3, Seq::empty(), eof);
    match optional_items_spec(tokens, i + 2, eof) {
        Ok((_, first)) => {
            lemma_items_advance(tokens, first + 2, Seq::empty(), eof);
        },
        Err(_) => {},
    }
}

/// The word that asks for time to be optimised.
pub open spec fn time_word() -> Seq<char> {
    "time"@
}

/// The line of targets: `optimize:(names)`. The name `time` is no target:
/// it asks for time to be optimised.
pub open spec fn optimize_spec(tokens: Seq<LexemeView>, i: int, eof: usize) -> Result<
    ((Seq<Seq<char>>, bool), int),
    ParseError,
> {
    match expect_spec(tokens, i, OPTIMIZE, eof) {
        Err(error) => Err(error),
        Ok(colon) => match expect_spec(tokens, colon, COLON, eof) {
            Err(error) => Err(error),
            Ok(left) => match expect_spec(tokens, left, LEFT, eof) {
                Err(error) => Err(error),
                Ok(first) => match names_spec(tokens, first, Seq::empty(), eof) {
                    Err(error) => Err(error),
                    Ok((names, next)) => Ok(
                        ((without(names, time_word()), names.contains(time_word())), next),
                    ),
                },
            },
        },
    }
}

/// A description from the token at `i` on: lines of stocks and processes,
/// added to `found`, then the line of targets, with which the text ends.
pub open spec fn file_spec(tokens: Seq<LexemeView>, i: int, found: Seq<EntryView>, eof: usize) -> Result<
    (Seq<EntryView>, (Seq<Seq<char>>, bool)),
    ParseError,
>
    decreases tokens.len() - i,
{
    if i < 0 {
        Err(ParseError::UnrecognizedEof { location: eof })
    } else if stands_at(tokens, i, OPTIMIZE) {
        match optimize_spec(tokens, i, eof) {
            Err(error) => Err(error),
            Ok((targets, next)) => if 0 <= next < tokens.len() {
                Err(ParseError::UnrecognizedToken { location: tokens[next].start as usize })
            } else {
                Ok((found, targets))
            },
        }
    } else {
        proof {
            lemma_entry_advances(tokens, i, eof);
        }
        match entry_spec(tokens, i, eof) {
            Err(error) => Err(error),
            Ok((entry, next)) => file_spec(tokens, next, found.push(entry), eof),
        }
    }
}

/// The catalog that lines and targets make. The lines are taken from the
/// last to the first, so that of two stocks, or two processes, of one name
/// the one that stands first in the text counts.
pub open spec fn build_spec(entries: Seq<EntryView>, targets: (Seq<Seq<char>>, bool)) -> SimulationView
    decreases entries.len(),
{
    if entries.len() == 0 {
        SimulationView {
            inventory: Map::empty(),
            processes: Seq::empty(),
            optimize: targets.0,
            optimize_time: targets.1,
        }
    } else {
        let rest = build_spec(entries.skip(1), targets);
        match entries[0] {
            EntryView::Stock(name, quantity) => SimulationView {
                inventory: rest.inventory.insert(name, quantity as nat),
                ..rest
            },
            EntryView::Process(process) => SimulationView {
                processes: put_process(rest.processes, process),
                ..rest
            },
        }
    }
}

/// The catalog that the text `chars` describes, or why it describes none.
pub open spec fn parse_spec(chars: Seq<char>) -> Result<SimulationView, ParseError> {
    match lex_spec(chars, 0) {
        Err(error) => Err(error),
        Ok(tokens) => match file_spec(tokens, 0, Seq::empty(), chars.len() as usize) {
            Err(error) => Err(error),
            Ok((entries, targets)) => Ok(build_spec(entries, targets)),
        },
    }
}

/// Reads the rest of a process behind its name and the `:` after it.
pub(crate) fn parse_process(tokens: &Vec<Lexeme>, name: String, i: usize, eof: usize) -> (res: Result<
    (ProcessBuilder, usize),
    ParseError,
>)
    requires
        i <= tokens@.len(),
    ensures
        match res {
            Ok((process, next)) => process_spec(tokens.deep_view(), name@, i as int, eof) == Ok::<
                (ProcessView, int),
                ParseError,
            >((process@, next as int)) && i < next <= tokens@.len(),
            Err(error) => process_spec(tokens.deep_view(), name@, i as int, eof) == Err::<
                (ProcessView, int),
                ParseError,
            >(error),
        },
{
    let (needs, first) = match parse_optional_items(tokens, i, eof) {
        Err(error) => {
            return Err(error);
        },
        Ok(pair) => pair,
    };
    let second = match expect(tokens, first, COLON, eof) {
        Err(error) => {
            return Err(error);
        },
        Ok(second) => second,
    };
    let (gives, third) = match parse_optional_items(tokens, second, eof) {
        Err(error) => {
            return Err(error);
        },
        Ok(pair) => pair,
    };
    let last = match expect(tokens, third, COLON, eof) {
        Err(error) => {
            return Err(error);
        },
        Ok(last) => last,
    };
    match parse_number(tokens, last, eof) {
        Err(error) => Err(error),
        Ok((delay, next)) => Ok(
            (
                ProcessBuilder::new(
                    name,
                    collect_resources(needs),
                    collect_resources(gives),
                    delay,
                ),
                next,
            ),
        ),
    }
}

/// Reads the line that starts at `i` and is not the line of targets.
pub fn parse_entry(tokens: &Vec<Lexeme>, i: usize, eof: usize) -> (res: Result<
    (Entry, usize),
    ParseError,
>)
    ensures
        match res {
            Ok((entry, next)) => entry_spec(tokens.deep_view(), i as int, eof) == Ok::<
                (EntryView, int),
                ParseError,
            >((entry.deep_view(), next as int)) && i < next <= tokens@.len(),
            Err(error) => entry_spec(tokens.deep_view(), i as int, eof) == Err::<
                (EntryView, int),
                ParseError,
            >(error),
        },
{
    let colon = match expect(tokens, i, NAME, eof) {
        Err(error) => {
            return Err(error);
        },
        Ok(colon) => colon,
    };
    let behind = match expect(tokens, colon, COLON, eof) {
        Err(error) => {
            return Err(error);
        },
        Ok(behind) => behind,
    };
    let name = tokens[i].token.1.clone();
    if is_at(tokens, behind, NUMBER) {
        match parse_number(tokens, behind, eof) {
            Err(error) => Err(error),
            Ok((quantity, next)) => Ok((Entry::Stock(name, quantity), next)),
        }
    } else {
        match parse_process(tokens, name, behind, eof) {
            Err(error) => Err(error),
            Ok((process, next)) => Ok((Entry::Process(process), next)),
        }
    }
}

/// Reads the line of targets that starts at `i`.
pub fn parse_optimize(tokens: &Vec<Lexeme>, i: usize, eof: usize) -> (res: Result<
    ((Vec<String>, bool), usize),
    ParseError,
>)
    ensures
        match res {
            Ok((targets, next)) => optimize_spec(tokens.deep_view(), i as int, eof) == Ok::<
                ((Seq<Seq<char>>, bool), int),
                ParseError,
            >(((targets.0.deep_view(), targets.1), next as int)) && i < next <= tokens@.len(),
            Err(error) => optimize_spec(tokens.deep_view(), i as int, eof) == Err::<
                ((Seq<Seq<char>>, bool), int),
                ParseError,
            >(error),
        },
{
    let colon = match expect(tokens, i, OPTIMIZE, eof) {
        Err(error) => {
            return Err(error);
        },
        Ok(colon) => colon,
    };
    let left = match expect(tokens, colon, COLON, eof) {
        Err(error) => {
            return Err(error);
        },
        Ok(left) => left,
    };
    let first = match expect(tokens, left, LEFT, eof) {
        Err(error) => {
            return Err(error);
        },
        Ok(first) => first,
    };
    match parse_names(tokens, first, eof) {
        Err(error) => Err(error),
        Ok((names, next)) => {
            let time = "time".to_owned();
            let targets = names_without(&names, &time);
            let timed = is_in_names(&time, &names);
            Ok(((targets, timed), next))
        },
    }
}

/// The views of `entries`, in order.
pub open spec fn entry_views(entries: Seq<Entry>) -> Seq<EntryView> {
    Seq::new(entries.len(), |i: int| entries[i].deep_view())
}

/// Reads a whole description from its tokens: the lines, in order, and the
/// targets.
pub fn parse_file(tokens: &Vec<Lexeme>, eof: usize) -> (res: Result<
    (Vec<Entry>, (Vec<String>, bool)),
    ParseError,
>)
    ensures
        match res {
            Ok((entries, targets)) => file_spec(tokens.deep_view(), 0, Seq::empty(), eof) == Ok::<
                (Seq<EntryView>, (Seq<Seq<char>>, bool)),
                ParseError,
            >((entry_views(entries@), (targets.0.deep_view(), targets.1))),
            Err(error) => file_spec(tokens.deep_view(), 0, Seq::empty(), eof) == Err::<
                (Seq<EntryView>, (Seq<Seq<char>>, bool)),
                ParseError,
            >(error),
        },
{
    let ghost all = tokens.deep_view();
    let mut entries: Vec<Entry> = Vec::new();
    let mut at: usize = 0;
    proof {
        assert(entry_views(entries@) =~= Seq::<EntryView>::empty());
    }
    loop
        invariant
            at <= tokens@.len(),
            all == tokens.deep_view(),
            file_spec(all, 0, Seq::empty(), eof) == file_spec(
                all,
                at as int,
                entry_views(entries@),
                eof,
            ),
        decreases tokens@.len() - at,
    {
        if is_at(tokens, at, OPTIMIZE) {
            match parse_optimize(tokens, at, eof) {
                Err(error) => {
                    return Err(error);
                },
                Ok((targets, next)) => {
                    if next < tokens.len() {
                        return Err(ParseError::UnrecognizedToken { location: tokens[next].start });
                    }
                    return Ok((entries, targets));
                },
            }
        }
        let ghost before = entry_views(entries@);
        match parse_entry(tokens, at, eof) {
            Err(error) => {
                return Err(error);
            },
            Ok((entry, next)) => {
                let ghost view = entry.deep_view();
                entries.push(entry);
                proof {
                    assert(entry_views(entries@) =~= before.push(view));
                }
                at = next;
            },
        }
    }
}

/// Reads descriptions of catalogs.
pub struct SimulationBuilderParser {
    _private: (),
}

impl SimulationBuilderParser {
    /// A parser; it holds no state.
    pub fn new() -> (res: Self) {
        SimulationBuilderParser { _private: () }
    }

    /// Reads the description `input`. Gives the catalog that it describes,
    /// or the first place at which it is no description.
    pub fn parse(&self, input: &str) -> (res: Result<SimulationBuilder, ParseError>)
        ensures
            match res {
                Ok(builder) => parse_spec(input@) == Ok::<SimulationView, ParseError>(builder@),
                Err(error) => parse_spec(input@) == Err::<SimulationView, ParseError>(error),
            },
    {
        let tokens = match tokenize(input) {
            Err(error) => {
                return Err(error);
            },
            Ok(tokens) => tokens,
        };
        let eof = input.unicode_len();
        let (mut entries, targets) = match parse_file(&tokens, eof) {
            Err(error) => {
                return Err(error);
            },
            Ok(pair) => pair,
        };
        let ghost lines = entry_views(entries@);
        let ghost wanted = (targets.0.deep_view(), targets.1);
        let mut builder = SimulationBuilder::default().optimize(targets);
        proof {
            assert(lines.skip(lines.len() as int) =~= Seq::<EntryView>::empty());
        }
        while entries.len() > 0
            invariant
                entries@.len() <= lines.len(),
                entry_views(entries@) == lines.take(entries@.len() as int),
                builder@ == build_spec(lines.skip(entries@.len() as int), wanted),
            decreases entries@.len(),
        {
            let ghost count = entries@.len() as int;
            let ghost held = entries@;
            let entry = entries.pop().unwrap();
            proof {
                assert(entry.deep_view() == entry_views(held)[count - 1]);
                assert(lines.skip(count - 1)[0] == entry.deep_view());
                assert(lines.skip(count - 1).skip(1) =~= lines.skip(count));
                assert(entry_views(entries@) =~= lines.take(count - 1));
            }
            builder = match entry {
                Entry::Stock(name, quantity) => builder.add_inventory(name, quantity),
                Entry::Process(process) => builder.add_process(process),
            };
        }
        proof {
            assert(lines.skip(0) =~= lines);
        }
        Ok(builder)
    }
}

} // verus!
