//! The token reader.
//!
//! A lexer walks a borrowed slice of source text and hands out tokens:
//! parens, quotes, strings, and identifiers classified as symbols,
//! integers or floats. Comments run from a semicolon to the end of the
//! line. A backslash escapes the character after it inside identifiers
//! and strings.

use vstd::prelude::*;
use vstd::string::StrSliceExecFns;
use vstd::string::StringSliceAdditionalSpecFns;

verus! {

/// One token, borrowing its text from the source slice.
#[derive(PartialEq, Eq, Debug)]
pub enum Token<'a> {
    Symbol(&'a str),
    String(&'a str),
    Integer(&'a str),
    Float(&'a str),
    OpenParen(&'a str),
    CloseParen(&'a str),
    Quote(&'a str),
    QuasiQuote(&'a str),
    MacroEval(&'a str),
    MacroSplice(&'a str),
}

/// The text a token carries, whatever its kind.
pub open spec fn token_text(t: Token) -> Seq<char> {
    match t {
        Token::Symbol(x) => x@,
        Token::String(x) => x@,
        Token::Integer(x) => x@,
        Token::Float(x) => x@,
        Token::OpenParen(x) => x@,
        Token::CloseParen(x) => x@,
        Token::Quote(x) => x@,
        Token::QuasiQuote(x) => x@,
        Token::MacroEval(x) => x@,
        Token::MacroSplice(x) => x@,
    }
}

/// May the character stand inside a symbol?
pub open spec fn spec_symbol_char(c: char) -> bool {
    !((c as u32) <= 0x20 || c == '(' || c == ')' || c == '[' || c == ']' || c == '#' || c == ','
        || c == '`' || c == ';' || c == '"' || c == '\'')
}

/// Is the character lexical whitespace between tokens?
pub open spec fn spec_lex_ws(c: char) -> bool {
    c == ' ' || c == '\t' || c == '\n' || c == '\r' || c == '\x0c'
}

/// The position of the first character that can start a token, skipping
/// whitespace and line comments; the length when there is none.
pub open spec fn scan_start(s: Seq<char>, i: int, in_comment: bool) -> int
    decreases s.len() - i,
{
    if i < 0 || i >= s.len() {
        s.len() as int
    } else if in_comment {
        if s[i] == '\n' {
            scan_start(s, i + 1, false)
        } else {
            scan_start(s, i + 1, true)
        }
    } else if spec_lex_ws(s[i]) {
        scan_start(s, i + 1, false)
    } else if s[i] == ';' {
        scan_start(s, i + 1, true)
    } else {
        i
    }
}

/// Where the identifier that started before position `i` ends. A
/// backslash consumes the position after it as well.
pub open spec fn sym_end(s: Seq<char>, i: int, esc: bool) -> int
    decreases s.len() + 2 - i,
{
    if i < 0 {
        0
    } else if i >= s.len() {
        s.len() as int
    } else if esc || s[i] == '\\' {
        sym_end(s, i + 2, !esc)
    } else if !spec_symbol_char(s[i]) {
        i
    } else {
        sym_end(s, i + 1, esc)
    }
}

/// One past the closing quote of the string that opened before position
/// `i`; the length when the string never closes.
pub open spec fn str_end(s: Seq<char>, i: int, esc: bool) -> int
    decreases s.len() + 2 - i,
{
    if i < 0 {
        0
    } else if i >= s.len() {
        s.len() as int
    } else if esc || s[i] == '\\' {
        str_end(s, i + 2, !esc)
    } else if s[i] == '"' {
        i + 1
    } else {
        str_end(s, i + 1, esc)
    }
}

proof fn lemma_sym_end_bounds(s: Seq<char>, i: int, esc: bool)
    requires
        0 <= i <= s.len(),
    ensures
        i <= sym_end(s, i, esc) <= s.len(),
    decreases s.len() + 2 - i,
{
    if i < s.len() {
        if esc || s[i] == '\\' {
            if i + 2 <= s.len() {
                lemma_sym_end_bounds(s, i + 2, !esc);
            } else {
                assert(sym_end(s, i + 2, !esc) == s.len() as int);
            }
        } else if spec_symbol_char(s[i]) {
            lemma_sym_end_bounds(s, i + 1, esc);
        }
    }
}

proof fn lemma_str_end_bounds(s: Seq<char>, i: int, esc: bool)
    requires
        0 <= i <= s.len(),
    ensures
        i <= str_end(s, i, esc) <= s.len(),
    decreases s.len() + 2 - i,
{
    if i < s.len() {
        if esc || s[i] == '\\' {
            if i + 2 <= s.len() {
                lemma_str_end_bounds(s, i + 2, !esc);
            } else {
                assert(str_end(s, i + 2, !esc) == s.len() as int);
            }
        } else if s[i] != '"' {
            lemma_str_end_bounds(s, i + 1, esc);
        }
    }
}

/// The classification walk over an identifier after its first
/// character: 0 symbol, 1 integer, 2 float.
pub open spec fn class_walk(t: Seq<char>, i: int, point: bool) -> int
    decreases t.len() - i,
{
    if i < 0 {
        0
    } else if i >= t.len() {
        if point {
            2
        } else {
            1
        }
    } else if t[i] == '.' {
        if point {
            0
        } else {
            class_walk(t, i + 1, true)
        }
    } else if '0' <= t[i] && t[i] <= '9' {
        class_walk(t, i + 1, point)
    } else {
        0
    }
}

/// The class of an identifier: 0 symbol, 1 integer, 2 float, following
/// the Emacs-Lisp reading of numbers.
pub open spec fn classify_code(t: Seq<char>) -> int {
    if t.len() == 0 {
        0
    } else if t[0] == '.' {
        class_walk(t, 1, true)
    } else if ('0' <= t[0] && t[0] <= '9') || t[0] == '+' || t[0] == '-' {
        class_walk(t, 1, false)
    } else {
        0
    }
}

/// Where the token that starts at `st` ends; `-1` for a character no
/// token may start with.
pub open spec fn token_end(s: Seq<char>, st: int) -> int {
    let c = s[st];
    if spec_symbol_char(c) {
        sym_end(s, st + 1, false)
    } else if c == '"' {
        str_end(s, st + 1, false)
    } else if c == '(' || c == ')' || c == '`' || c == '\'' {
        st + 1
    } else {
        -1
    }
}

/// The remaining slice can be lexed: it is exhausted, or its next token
/// starts with an accepted character.
pub open spec fn lex_ok(s: Seq<char>) -> bool {
    let st = scan_start(s, 0, false);
    st == s.len() || token_end(s, st) != -1
}

/// The token returned for the span `[st, en)` of `s`: its kind follows
/// the starting character and, for identifiers, the classification.
pub open spec fn token_matches(tok: Token, s: Seq<char>, st: int, en: int) -> bool {
    let text = s.subrange(st, en);
    let c = s[st];
    if spec_symbol_char(c) {
        if classify_code(text) == 1 {
            tok matches Token::Integer(x) && x@ == text
        } else if classify_code(text) == 2 {
            tok matches Token::Float(x) && x@ == text
        } else {
            tok matches Token::Symbol(x) && x@ == text
        }
    } else if c == '"' {
        tok matches Token::String(x) && x@ == text
    } else if c == '(' {
        tok matches Token::OpenParen(x) && x@ == text
    } else if c == ')' {
        tok matches Token::CloseParen(x) && x@ == text
    } else if c == '`' {
        tok matches Token::QuasiQuote(x) && x@ == text
    } else if c == '\'' {
        tok matches Token::Quote(x) && x@ == text
    } else {
        false
    }
}

/// May the character stand inside a symbol?
pub fn symbol_char(chr: char) -> (r: bool)
    ensures
        r == spec_symbol_char(chr),
{
    !(chr as u32 <= 0x20 || chr == '(' || chr == ')' || chr == '[' || chr == ']' || chr == '#'
        || chr == ',' || chr == '`' || chr == ';' || chr == '"' || chr == '\'')
}

fn scan_from(s: &str) -> (r: usize)
    ensures
        r as int == scan_start(s@, 0, false),
        r <= s@.len(),
{
    let n = s.unicode_len();
    let mut j: usize = 0;
    let mut cmt = false;
    while j < n
        invariant
            j <= n,
            n == s@.len(),
            scan_start(s@, 0, false) == scan_start(s@, j as int, cmt),
        decreases n - j,
    {
        let c = s.get_char(j);
        if cmt {
            if c == '\n' {
                cmt = false;
            }
            j = j + 1;
        } else if c == ' ' || c == '\t' || c == '\n' || c == '\r' || c == '\x0c' {
            j = j + 1;
        } else if c == ';' {
            cmt = true;
            j = j + 1;
        } else {
            return j;
        }
    }
    n
}

fn sym_end_from(s: &str, start: usize) -> (r: usize)
    requires
        start <= s@.len(),
    ensures
        r as int == sym_end(s@, start as int, false),
        start <= r <= s@.len(),
{
    proof {
        lemma_sym_end_bounds(s@, start as int, false);
    }
    let n = s.unicode_len();
    let mut i: usize = start;
    let mut esc = false;
    while i < n
        invariant
            start <= i <= n,
            n == s@.len(),
            sym_end(s@, start as int, false) == sym_end(s@, i as int, esc),
        decreases n + 2 - i,
    {
        let ghost i0 = i as int;
        let ghost esc0 = esc;
        let c = s.get_char(i);
        if esc || c == '\\' {
            esc = !esc;
            i = i + 1;
            if i < n {
                i = i + 1;
            }
            proof {
                assert(sym_end(s@, i0, esc0) == sym_end(s@, i0 + 2, !esc0));
                if i0 + 2 > n as int {
                    assert(sym_end(s@, i0 + 2, !esc0) == n as int);
                    assert(sym_end(s@, i as int, esc) == n as int);
                }
            }
        } else if !symbol_char(c) {
            return i;
        } else {
            i = i + 1;
        }
    }
    n
}

fn str_end_from(s: &str, start: usize) -> (r: usize)
    requires
        start <= s@.len(),
    ensures
        r as int == str_end(s@, start as int, false),
        start <= r <= s@.len(),
{
    proof {
        lemma_str_end_bounds(s@, start as int, false);
    }
    let n = s.unicode_len();
    let mut i: usize = start;
    let mut esc = false;
    while i < n
        invariant
            start <= i <= n,
            n == s@.len(),
            str_end(s@, start as int, false) == str_end(s@, i as int, esc),
        decreases n + 2 - i,
    {
        let ghost i0 = i as int;
        let ghost esc0 = esc;
        let c = s.get_char(i);
        if esc || c == '\\' {
            esc = !esc;
            i = i + 1;
            if i < n {
                i = i + 1;
            }
            proof {
                assert(str_end(s@, i0, esc0) == str_end(s@, i0 + 2, !esc0));
                if i0 + 2 > n as int {
                    assert(str_end(s@, i0 + 2, !esc0) == n as int);
                    assert(str_end(s@, i as int, esc) == n as int);
                }
            }
        } else if c == '"' {
            return i + 1;
        } else {
            i = i + 1;
        }
    }
    n
}

impl<'a> Token<'a> {
    /// The token's text.
    pub fn inner(&self) -> (r: &'a str)
        ensures
            r@ == token_text(*self),
    {
        match self {
            Token::Symbol(x) => x,
            Token::String(x) => x,
            Token::Integer(x) => x,
            Token::Float(x) => x,
            Token::OpenParen(x) => x,
            Token::CloseParen(x) => x,
            Token::Quote(x) => x,
            Token::QuasiQuote(x) => x,
            Token::MacroEval(x) => x,
            Token::MacroSplice(x) => x,
        }
    }

    /// The token's length in bytes of its UTF-8 text.
    pub fn len(&self) -> (r: usize)
        ensures
            r == vstd::utf8::encode_utf8(token_text(*self)).len() as usize,
    {
        let t = self.inner();
        proof {
            assert(t.spec_bytes() == vstd::utf8::encode_utf8(token_text(*self)));
        }
        t.len()
    }

    /// Classify an identifier as a symbol, an integer or a float,
    /// following the Emacs-Lisp symbol syntax.
    pub fn classify(token: &'a str) -> (r: Token<'a>)
        ensures
            classify_code(token@) == 1 ==> r == Token::Integer(token),
            classify_code(token@) == 2 ==> r == Token::Float(token),
            !(classify_code(token@) == 1 || classify_code(token@) == 2) ==> r == Token::Symbol(
                token,
            ),
            token_text(r) == token@,
    {
        let n = token.unicode_len();
        if n == 0 {
            return Token::Symbol(token);
        }
        let c0 = token.get_char(0);
        let mut point = false;
        if c0 == '.' {
            point = true;
        } else if ('0' <= c0 && c0 <= '9') || c0 == '+' || c0 == '-' {
        } else {
            return Token::Symbol(token);
        }
        let mut i: usize = 1;
        while i < n
            invariant
                1 <= i <= n,
                n == token@.len(),
                n > 0,
                classify_code(token@) == class_walk(token@, i as int, point),
            decreases n - i,
        {
            let c = token.get_char(i);
            if c == '.' {
                if point {
                    return Token::Symbol(token);
                }
                point = true;
                i = i + 1;
            } else if '0' <= c && c <= '9' {
                i = i + 1;
            } else {
                return Token::Symbol(token);
            }
        }
        if point {
            Token::Float(token)
        } else {
            Token::Integer(token)
        }
    }
}

/// The lexer: the not-yet-consumed tail of the source text.
pub struct Lexer<'a> {
    pub slice: &'a str,
}

impl<'a> Lexer<'a> {
    pub fn new(slice: &'a str) -> (r: Lexer<'a>)
        ensures
            r.slice@ == slice@,
    {
        Lexer { slice }
    }

    /// Can [`Lexer::next`] take a step: the input is exhausted, or its
    /// next token starts with an accepted character. The reader has no
    /// token for a stray `[`, `]`, `#` or `,`; a caller that cannot rule
    /// those out of its input checks here first.
    pub fn lexable(&self) -> (r: bool)
        ensures
            r == lex_ok(self.slice@),
    {
        let s = self.slice;
        let n = s.unicode_len();
        let st = scan_from(s);
        if st == n {
            return true;
        }
        let c = s.get_char(st);
        if symbol_char(c) {
            proof {
                lemma_sym_end_bounds(s@, st as int + 1, false);
            }
            true
        } else if c == '"' {
            proof {
                lemma_str_end_bounds(s@, st as int + 1, false);
            }
            true
        } else if c == '(' || c == ')' || c == '`' || c == '\'' {
            true
        } else {
            proof {
                assert(token_end(s@, st as int) == -1);
            }
            false
        }
    }

    /// The next token, or `None` once only whitespace and comments are
    /// left. The consumed input runs through the end of the returned
    /// token.
    pub fn next(&mut self) -> (r: Option<Token<'a>>)
        requires
            lex_ok(old(self).slice@),
        ensures
            ({
                let s = old(self).slice@;
                let st = scan_start(s, 0, false);
                if st == s.len() {
                    r is None && final(self).slice@ == s
                } else {
                    let en = token_end(s, st);
                    &&& r matches Some(tok) && token_matches(tok, s, st, en)
                    &&& final(self).slice@ == s.subrange(en, s.len() as int)
                }
            }),
    {
        let s = self.slice;
        let n = s.unicode_len();
        let st = scan_from(s);
        if st == n {
            return None;
        }
        let c = s.get_char(st);
        if symbol_char(c) {
            let en = sym_end_from(s, st + 1);
            proof {
                lemma_sym_end_bounds(s@, st as int + 1, false);
            }
            let text = s.substring_char(st, en);
            let tok = Token::classify(text);
            self.slice = s.substring_char(en, n);
            Some(tok)
        } else if c == '"' {
            let en = str_end_from(s, st + 1);
            let text = s.substring_char(st, en);
            self.slice = s.substring_char(en, n);
            Some(Token::String(text))
        } else if c == '(' {
            let text = s.substring_char(st, st + 1);
            self.slice = s.substring_char(st + 1, n);
            Some(Token::OpenParen(text))
        } else if c == ')' {
            let text = s.substring_char(st, st + 1);
            self.slice = s.substring_char(st + 1, n);
            Some(Token::CloseParen(text))
        } else if c == '`' {
            let text = s.substring_char(st, st + 1);
            self.slice = s.substring_char(st + 1, n);
            Some(Token::QuasiQuote(text))
        } else if c == '\'' {
            let text = s.substring_char(st, st + 1);
            self.slice = s.substring_char(st + 1, n);
            Some(Token::Quote(text))
        } else {
            proof {
                assert(token_end(s@, st as int) == -1);
            }
            unreached()
        }
    }
}

} // verus!
