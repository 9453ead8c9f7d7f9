//! Typed tokens with their classification and character offsets.
use vstd::prelude::*;
use vstd::string::StrSliceExecFns;

verus! {

/// One token of an utterance.
#[derive(Debug)]
pub struct Token {
    pub value: String,
    pub is_word: bool,
    pub is_space: bool,
    pub start_char: usize,
    pub end_char: usize,
    pub start_token: usize,
    pub end_token: usize,
}

impl Token {
    /// A field-by-field copy.
    pub fn copy(&self) -> (r: Token)
        ensures
            r == *self,
    {
        Token {
            value: self.value.clone(),
            is_word: self.is_word,
            is_space: self.is_space,
            start_char: self.start_char,
            end_char: self.end_char,
            start_token: self.start_token,
            end_token: self.end_token,
        }
    }
}

/// The punctuation and symbol characters that keep a token from being a word.
pub open spec fn is_special(c: char) -> bool {
    c == '\u{bf}' || c == '\u{f7}' || c == '\u{2265}' || c == '\u{2264}' || c == '\u{b5}'
        || c == '\u{2dc}' || c == '\u{222b}' || c == '\u{221a}' || c == '\u{2248}' || c == '\u{e6}'
        || c == '\u{2026}' || c == '\u{ac}' || c == '\u{2da}' || c == '\u{2d9}' || c == '\u{a9}'
        || c == '+' || c == '-' || c == '_' || c == '!' || c == '@' || c == '#' || c == '$'
        || c == '%' || c == '?' || c == '&' || c == '*' || c == '(' || c == ')' || c == '/'
        || c == '\\' || c == '[' || c == ']' || c == '{' || c == '}' || c == ':' || c == ';'
        || c == '<' || c == '>' || c == '=' || c == '.' || c == ',' || c == '~' || c == '`'
        || c == '"' || c == '\''
}

/// The characters of Unicode's `White_Space` property.
pub open spec fn is_white(c: char) -> bool {
    ('\u{9}' <= c && c <= '\u{d}') || c == ' ' || c == '\u{85}' || c == '\u{a0}' || c == '\u{1680}'
        || ('\u{2000}' <= c && c <= '\u{200a}') || c == '\u{2028}' || c == '\u{2029}'
        || c == '\u{202f}' || c == '\u{205f}' || c == '\u{3000}'
}

pub open spec fn word_spec(s: Seq<char>) -> bool {
    forall|i: int| 0 <= i < s.len() ==> !is_special(#[trigger] s[i]) && !is_white(s[i])
}

pub open spec fn space_spec(s: Seq<char>) -> bool {
    forall|i: int| 0 <= i < s.len() ==> #[trigger] s[i] == ' '
}

fn special_char(c: char) -> (r: bool)
    ensures
        r == is_special(c),
{
    c == '\u{bf}' || c == '\u{f7}' || c == '\u{2265}' || c == '\u{2264}' || c == '\u{b5}'
        || c == '\u{2dc}' || c == '\u{222b}' || c == '\u{221a}' || c == '\u{2248}' || c == '\u{e6}'
        || c == '\u{2026}' || c == '\u{ac}' || c == '\u{2da}' || c == '\u{2d9}' || c == '\u{a9}'
        || c == '+' || c == '-' || c == '_' || c == '!' || c == '@' || c == '#' || c == '$'
        || c == '%' || c == '?' || c == '&' || c == '*' || c == '(' || c == ')' || c == '/'
        || c == '\\' || c == '[' || c == ']' || c == '{' || c == '}' || c == ':' || c == ';'
        || c == '<' || c == '>' || c == '=' || c == '.' || c == ',' || c == '~' || c == '`'
        || c == '"' || c == '\''
}

fn white_char(c: char) -> (r: bool)
    ensures
        r == is_white(c),
{
    ('\u{9}' <= c && c <= '\u{d}') || c == ' ' || c == '\u{85}' || c == '\u{a0}' || c == '\u{1680}'
        || ('\u{2000}' <= c && c <= '\u{200a}') || c == '\u{2028}' || c == '\u{2029}'
        || c == '\u{202f}' || c == '\u{205f}' || c == '\u{3000}'
}

/// Whether the text has no whitespace and none of the special characters.
pub fn is_word(str: &str) -> (r: bool)
    ensures
        r == word_spec(str@),
{
    let n = str.unicode_len();
    let mut i: usize = 0;
    while i < n
        invariant
            n == str@.len(),
            0 <= i <= n,
            forall|k: int| 0 <= k < i ==> !is_special(#[trigger] str@[k]) && !is_white(str@[k]),
        decreases n - i,
    {
        let c = str.get_char(i);
        if special_char(c) || white_char(c) {
            assert(!word_spec(str@)) by {
                assert(is_special(str@[i as int]) || is_white(str@[i as int]));
            }
            return false;
        }
        i = i + 1;
    }
    true
}

/// Whether the text holds the space character.
pub fn has_space(str: &str) -> (r: bool)
    ensures
        r == str@.contains(' '),
{
    let n = str.unicode_len();
    let mut i: usize = 0;
    while i < n
        invariant
            n == str@.len(),
            0 <= i <= n,
            forall|k: int| 0 <= k < i ==> str@[k] != ' ',
        decreases n - i,
    {
        if str.get_char(i) == ' ' {
            assert(str@[i as int] == ' ');
            return true;
        }
        i = i + 1;
    }
    false
}

/// Whether every character of the text is the space character (true of the empty text).
pub fn is_space(str: &str) -> (r: bool)
    ensures
        r == space_spec(str@),
{
    let n = str.unicode_len();
    let mut i: usize = 0;
    while i < n
        invariant
            n == str@.len(),
            0 <= i <= n,
            forall|k: int| 0 <= k < i ==> #[trigger] str@[k] == ' ',
        decreases n - i,
    {
        if str.get_char(i) != ' ' {
            return false;
        }
        i = i + 1;
    }
    true
}

/// The views of a sequence of strings.
pub open spec fn texts(v: Seq<String>) -> Seq<Seq<char>> {
    v.map_values(|s: String| s@)
}

/// Number of characters in the first `n` texts.
pub open spec fn chars_before(ts: Seq<Seq<char>>, n: int) -> int
    decreases n,
{
    if n <= 0 {
        0
    } else {
        chars_before(ts, n - 1) + ts[n - 1].len()
    }
}

/// Number of characters in all the texts.
pub open spec fn total_len(ts: Seq<Seq<char>>) -> int {
    chars_before(ts, ts.len() as int)
}

pub proof fn lemma_chars_before_mono(ts: Seq<Seq<char>>, i: int, j: int)
    requires
        0 <= i <= j <= ts.len(),
    ensures
        chars_before(ts, i) <= chars_before(ts, j),
    decreases j - i,
{
    if i < j {
        lemma_chars_before_mono(ts, i, j - 1);
    }
}

/// What a token built from the text at position `i` holds.
pub open spec fn token_spec(t: Token, ts: Seq<Seq<char>>, i: int) -> bool {
    &&& t.value@ == ts[i]
    &&& t.is_word == word_spec(ts[i])
    &&& t.is_space == space_spec(ts[i])
    &&& t.start_char == chars_before(ts, i)
    &&& t.end_char == chars_before(ts, i + 1)
    &&& t.start_token == i
    &&& t.end_token == i + 1
}

/// Typed tokens for raw token texts, with running character offsets.
pub fn to_tokens(str_tokens: &[String]) -> (r: Vec<Token>)
    requires
        total_len(texts(str_tokens@)) < usize::MAX,
    ensures
        r@.len() == str_tokens@.len(),
        forall|i: int| 0 <= i < r@.len() ==> token_spec(#[trigger] r@[i], texts(str_tokens@), i),
{
    let ghost ts = texts(str_tokens@);
    let mut tokens: Vec<Token> = Vec::new();
    let mut char_index: usize = 0;
    let mut i: usize = 0;
    while i < str_tokens.len()
        invariant
            ts == texts(str_tokens@),
            total_len(ts) < usize::MAX,
            0 <= i <= str_tokens@.len(),
            tokens@.len() == i,
            char_index == chars_before(ts, i as int),
            forall|k: int| 0 <= k < i ==> token_spec(#[trigger] tokens@[k], ts, k),
        decreases str_tokens@.len() - i,
    {
        let s = str_tokens[i].as_str();
        let len = s.unicode_len();
        proof {
            lemma_chars_before_mono(ts, i + 1, ts.len() as int);
        }
        let token = Token {
            value: str_tokens[i].clone(),
            is_word: is_word(s),
            is_space: is_space(s),
            start_char: char_index,
            end_char: char_index + len,
            start_token: i,
            end_token: i + 1,
        };
        tokens.push(token);
        char_index = char_index + len;
        i = i + 1;
    }
    tokens
}

} // verus!
