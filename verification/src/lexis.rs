//! The characters of a source text and the lexical rules of the language:
//! blanks, words, numbers, strings and operator symbols.
use vstd::prelude::*;
use vstd::string::*;
use crate::parser::{digits_end, is_digit};
use crate::text::same_text;
use crate::tree::Rule;

verus! {

/// A space or a tab.
pub open spec fn is_space(c: char) -> bool {
    c == ' ' || c == '\t'
}

/// A space, a tab or the end of a line.
pub open spec fn is_blank(c: char) -> bool {
    c == ' ' || c == '\t' || c == '\n' || c == '\r'
}

/// A letter or an underscore.
pub open spec fn is_word_start(c: char) -> bool {
    ('a' <= c && c <= 'z') || ('A' <= c && c <= 'Z') || c == '_'
}

/// A letter, an underscore or a digit.
pub open spec fn is_word_char(c: char) -> bool {
    is_word_start(c) || is_digit(c)
}

/// The first position from `i` on that holds no space or tab.
pub open spec fn skip_spaces(s: Seq<char>, i: int) -> int
    decreases s.len() - i,
{
    if 0 <= i < s.len() && is_space(s[i]) {
        skip_spaces(s, i + 1)
    } else {
        i
    }
}

/// The first position from `i` on that holds no blank.
pub open spec fn skip_blank(s: Seq<char>, i: int) -> int
    decreases s.len() - i,
{
    if 0 <= i < s.len() && is_blank(s[i]) {
        skip_blank(s, i + 1)
    } else {
        i
    }
}

/// The end of the run of word characters that starts at `i`.
pub open spec fn word_end(s: Seq<char>, i: int) -> int
    decreases s.len() - i,
{
    if 0 <= i < s.len() && is_word_char(s[i]) {
        word_end(s, i + 1)
    } else {
        i
    }
}

/// The position of the first double quote from `i` on, or the length.
pub open spec fn quote_at(s: Seq<char>, i: int) -> int
    decreases s.len() - i,
{
    if 0 <= i < s.len() && s[i] != '"' {
        quote_at(s, i + 1)
    } else {
        i
    }
}

/// The end of the numeric literal that starts at `p`: an optional minus
/// sign, digits, and a point where a digit follows it; `p` itself where no
/// literal starts there.
pub open spec fn number_end(s: Seq<char>, p: int) -> int {
    let start = if 0 <= p < s.len() && s[p] == '-' {
        p + 1
    } else {
        p
    };
    let whole = digits_end(s, start);
    if whole == start {
        p
    } else if 0 <= whole && whole + 1 < s.len() && s[whole] == '.' && is_digit(s[whole + 1]) {
        digits_end(s, whole + 1)
    } else {
        whole
    }
}

/// Whether `w` stands at `p`.
pub open spec fn symbol_at(s: Seq<char>, p: int, w: Seq<char>) -> bool {
    0 <= p && p + w.len() <= s.len() && s.subrange(p, p + w.len()) == w
}

/// Whether the word `w` stands at `p` and ends there.
pub open spec fn word_at(s: Seq<char>, p: int, w: Seq<char>) -> bool {
    symbol_at(s, p, w) && !(p + w.len() < s.len() && is_word_char(s[p + w.len()]))
}

/// The words that are no identifiers.
pub open spec fn is_keyword(w: Seq<char>) -> bool {
    w == "and"@ || w == "break"@ || w == "catch"@ || w == "continue"@ || w == "do"@ || w
        == "else"@ || w == "elseif"@ || w == "end"@ || w == "false"@ || w == "for"@ || w
        == "function"@ || w == "if"@ || w == "import"@ || w == "local"@ || w == "nil"@ || w
        == "not"@ || w == "or"@ || w == "return"@ || w == "then"@ || w == "throw"@ || w
        == "true"@ || w == "try"@ || w == "while"@
}

/// The binary operator that stands at `p`: its rule and its length.
pub open spec fn operator_at(s: Seq<char>, p: int) -> Option<(Rule, int)> {
    if symbol_at(s, p, "=="@) {
        Some((Rule::OpEq, 2))
    } else if symbol_at(s, p, "~="@) {
        Some((Rule::OpNe, 2))
    } else if symbol_at(s, p, "<="@) {
        Some((Rule::OpLe, 2))
    } else if symbol_at(s, p, ">="@) {
        Some((Rule::OpGe, 2))
    } else if symbol_at(s, p, ".."@) {
        Some((Rule::OpConcat, 2))
    } else if symbol_at(s, p, "+"@) {
        Some((Rule::OpAdd, 1))
    } else if symbol_at(s, p, "-"@) {
        Some((Rule::OpSub, 1))
    } else if symbol_at(s, p, "*"@) {
        Some((Rule::OpMul, 1))
    } else if symbol_at(s, p, "/"@) {
        Some((Rule::OpDiv, 1))
    } else if symbol_at(s, p, "%"@) {
        Some((Rule::OpMod, 1))
    } else if symbol_at(s, p, "<"@) {
        Some((Rule::OpLt, 1))
    } else if symbol_at(s, p, ">"@) {
        Some((Rule::OpGt, 1))
    } else if word_at(s, p, "and"@) {
        Some((Rule::OpAnd, 3))
    } else if word_at(s, p, "or"@) {
        Some((Rule::OpOr, 2))
    } else {
        None
    }
}

// ---------------------------------------------------------------------------
// A source text with its characters at hand
// ---------------------------------------------------------------------------

/// A source text together with its characters, for access by position.
pub struct Source<'a> {
    text: &'a str,
    chars: Vec<char>,
    ascii: bool,
}

impl<'a> Source<'a> {
    /// The characters of the text.
    pub closed spec fn view(&self) -> Seq<char> {
        self.chars@
    }

    /// The characters held are those of the text.
    pub closed spec fn wf(&self) -> bool {
        &&& self.chars@ == self.text@
        &&& self.ascii == is_ascii(self.text)
    }

    /// Takes the characters of a text.
    pub fn new(text: &'a str) -> (r: Source<'a>)
        ensures
            r.wf(),
            r.view() == text@,
    {
        let ascii = text.is_ascii();
        let n = text.unicode_len();
        let mut chars: Vec<char> = Vec::new();
        let mut i: usize = 0;
        if ascii {
            while i < n
                invariant
                    is_ascii(text),
                    n == text@.len(),
                    i <= n,
                    chars@ == text@.subrange(0, i as int),
                decreases n - i,
            {
                let b = text.get_ascii(i);
                assert(text@[i as int] <= '\u{7f}');
                let c = b as char;
                assert(c == text@[i as int]);
                chars.push(c);
                assert(chars@ =~= text@.subrange(0, i + 1));
                i += 1;
            }
        } else {
            while i < n
                invariant
                    n == text@.len(),
                    i <= n,
                    chars@ == text@.subrange(0, i as int),
                decreases n - i,
            {
                let c = text.get_char(i);
                chars.push(c);
                assert(chars@ =~= text@.subrange(0, i + 1));
                i += 1;
            }
        }
        assert(chars@ =~= text@);
        Source { text, chars, ascii }
    }

    /// The length of a text fits the machine.
    pub proof fn lemma_fits(&self)
        ensures
            self.view().len() <= usize::MAX,
    {
        assert(self.chars.len() == self.chars@.len());
    }

    /// The number of characters.
    pub fn len(&self) -> (r: usize)
        ensures
            r == self.view().len(),
    {
        self.chars.len()
    }

    /// The character at a position.
    pub fn at(&self, i: usize) -> (r: char)
        requires
            i < self.view().len(),
        ensures
            r == self.view()[i as int],
    {
        self.chars[i]
    }

    /// The text from `from` up to `to`.
    pub fn slice(&self, from: usize, to: usize) -> (r: String)
        requires
            self.wf(),
            from <= to <= self.view().len(),
        ensures
            r@ == self.view().subrange(from as int, to as int),
    {
        if self.ascii {
            String::from_str(self.text.substring_ascii(from, to))
        } else {
            String::from_str(self.text.substring_char(from, to))
        }
    }

    /// The first position from `start` on that holds no space or tab.
    pub fn skip_spaces(&self, start: usize) -> (r: usize)
        requires
            start <= self.view().len(),
        ensures
            r == skip_spaces(self.view(), start as int),
            start <= r <= self.view().len(),
    {
        let mut i: usize = start;
        while i < self.chars.len() && (self.chars[i] == ' ' || self.chars[i] == '\t')
            invariant
                start <= i <= self.chars.len(),
                skip_spaces(self.view(), start as int) == skip_spaces(self.view(), i as int),
            decreases self.chars.len() - i,
        {
            i += 1;
        }
        i
    }

    /// The first position from `start` on that holds no blank.
    pub fn skip_blank(&self, start: usize) -> (r: usize)
        requires
            start <= self.view().len(),
        ensures
            r == skip_blank(self.view(), start as int),
            start <= r <= self.view().len(),
    {
        let mut i: usize = start;
        while i < self.chars.len() && (self.chars[i] == ' ' || self.chars[i] == '\t'
            || self.chars[i] == '\n' || self.chars[i] == '\r')
            invariant
                start <= i <= self.chars.len(),
                skip_blank(self.view(), start as int) == skip_blank(self.view(), i as int),
            decreases self.chars.len() - i,
        {
            i += 1;
        }
        i
    }

    /// The end of the run of word characters that starts at `start`.
    pub fn word_end(&self, start: usize) -> (r: usize)
        requires
            start <= self.view().len(),
        ensures
            r == word_end(self.view(), start as int),
            start <= r <= self.view().len(),
            start < self.view().len() && is_word_char(self.view()[start as int]) ==> r > start,
    {
        let mut i: usize = start;
        while i < self.chars.len() && word_char(self.chars[i])
            invariant
                start <= i <= self.chars.len(),
                word_end(self.view(), start as int) == word_end(self.view(), i as int),
                start < self.view().len() && is_word_char(self.view()[start as int]) && i
                    == start ==> i < self.chars.len() && is_word_char(self.chars[i as int]),
            decreases self.chars.len() - i,
        {
            i += 1;
        }
        i
    }

    /// The end of the run of digits that starts at `start`.
    pub fn digits_end(&self, start: usize) -> (r: usize)
        requires
            start <= self.view().len(),
        ensures
            r == digits_end(self.view(), start as int),
            start <= r <= self.view().len(),
    {
        let mut i: usize = start;
        while i < self.chars.len() && digit(self.chars[i])
            invariant
                start <= i <= self.chars.len(),
                digits_end(self.view(), start as int) == digits_end(self.view(), i as int),
            decreases self.chars.len() - i,
        {
            i += 1;
        }
        i
    }

    /// The position of the first double quote from `start` on, or the length.
    pub fn quote_at(&self, start: usize) -> (r: usize)
        requires
            start <= self.view().len(),
        ensures
            r == quote_at(self.view(), start as int),
            start <= r <= self.view().len(),
    {
        let mut i: usize = start;
        while i < self.chars.len() && self.chars[i] != '"'
            invariant
                start <= i <= self.chars.len(),
                quote_at(self.view(), start as int) == quote_at(self.view(), i as int),
            decreases self.chars.len() - i,
        {
            i += 1;
        }
        i
    }

    /// The end of the numeric literal that starts at `p`, or `p` where none starts.
    pub fn number_end(&self, p: usize) -> (r: usize)
        requires
            p <= self.view().len(),
        ensures
            r == number_end(self.view(), p as int),
            p <= r <= self.view().len(),
    {
        let start = if p < self.chars.len() && self.chars[p] == '-' {
            p + 1
        } else {
            p
        };
        let whole = self.digits_end(start);
        if whole == start {
            p
        } else if whole < self.chars.len() && self.chars[whole] == '.' && whole + 1
            < self.chars.len() && digit(self.chars[whole + 1]) {
            self.digits_end(whole + 1)
        } else {
            whole
        }
    }

    /// Whether the text `w` stands at `p`.
    pub fn symbol_at(&self, p: usize, w: &str) -> (r: bool)
        requires
            self.wf(),
            p <= self.view().len(),
        ensures
            r == symbol_at(self.view(), p as int, w@),
    {
        let n = w.unicode_len();
        if n > self.chars.len() - p {
            return false;
        }
        let part = self.slice(p, p + n);
        same_text(part.as_str(), w)
    }

    /// Whether the word `w` stands at `p` and ends there.
    pub fn word_at(&self, p: usize, w: &str) -> (r: bool)
        requires
            self.wf(),
            p <= self.view().len(),
        ensures
            r == word_at(self.view(), p as int, w@),
    {
        if !self.symbol_at(p, w) {
            return false;
        }
        let n = w.unicode_len();
        assert(symbol_at(self.view(), p as int, w@));
        assert(p + n <= self.chars.len());
        !(p + n < self.chars.len() && word_char(self.chars[p + n]))
    }

    /// The binary operator that stands at `p`.
    pub fn operator_at(&self, p: usize) -> (r: Option<(Rule, usize)>)
        requires
            self.wf(),
            p <= self.view().len(),
        ensures
            match r {
                Some((rule, n)) => operator_at(self.view(), p as int) == Some((rule, n as int))
                    && p + n <= self.view().len() && n >= 1 && self.view().subrange(
                    p as int,
                    p + n,
                ).len() == n,
                None => operator_at(self.view(), p as int) is None,
            },
    {
        proof {
            reveal_strlit("==");
            reveal_strlit("~=");
            reveal_strlit("<=");
            reveal_strlit(">=");
            reveal_strlit("..");
            reveal_strlit("+");
            reveal_strlit("-");
            reveal_strlit("*");
            reveal_strlit("/");
            reveal_strlit("%");
            reveal_strlit("<");
            reveal_strlit(">");
            reveal_strlit("and");
            reveal_strlit("or");
        }
        if self.symbol_at(p, "==") {
            Some((Rule::OpEq, 2))
        } else if self.symbol_at(p, "~=") {
            Some((Rule::OpNe, 2))
        } else if self.symbol_at(p, "<=") {
            Some((Rule::OpLe, 2))
        } else if self.symbol_at(p, ">=") {
            Some((Rule::OpGe, 2))
        } else if self.symbol_at(p, "..") {
            Some((Rule::OpConcat, 2))
        } else if self.symbol_at(p, "+") {
            Some((Rule::OpAdd, 1))
        } else if self.symbol_at(p, "-") {
            Some((Rule::OpSub, 1))
        } else if self.symbol_at(p, "*") {
            Some((Rule::OpMul, 1))
        } else if self.symbol_at(p, "/") {
            Some((Rule::OpDiv, 1))
        } else if self.symbol_at(p, "%") {
            Some((Rule::OpMod, 1))
        } else if self.symbol_at(p, "<") {
            Some((Rule::OpLt, 1))
        } else if self.symbol_at(p, ">") {
            Some((Rule::OpGt, 1))
        } else if self.word_at(p, "and") {
            Some((Rule::OpAnd, 3))
        } else if self.word_at(p, "or") {
            Some((Rule::OpOr, 2))
        } else {
            None
        }
    }
}

/// Whether a character is a digit.
pub fn digit(c: char) -> (r: bool)
    ensures
        r == is_digit(c),
{
    '0' <= c && c <= '9'
}

/// Whether a character can start a word.
pub fn word_start(c: char) -> (r: bool)
    ensures
        r == is_word_start(c),
{
    ('a' <= c && c <= 'z') || ('A' <= c && c <= 'Z') || c == '_'
}

/// Whether a character can stand in a word.
pub fn word_char(c: char) -> (r: bool)
    ensures
        r == is_word_char(c),
{
    word_start(c) || digit(c)
}

/// Whether a word is a keyword.
pub fn keyword(w: &str) -> (r: bool)
    ensures
        r == is_keyword(w@),
{
    same_text(w, "and") || same_text(w, "break") || same_text(w, "catch") || same_text(
        w,
        "continue",
    ) || same_text(w, "do") || same_text(w, "else") || same_text(w, "elseif") || same_text(
        w,
        "end",
    ) || same_text(w, "false") || same_text(w, "for") || same_text(w, "function") || same_text(
        w,
        "if",
    ) || same_text(w, "import") || same_text(w, "local") || same_text(w, "nil") || same_text(
        w,
        "not",
    ) || same_text(w, "or") || same_text(w, "return") || same_text(w, "then") || same_text(
        w,
        "throw",
    ) || same_text(w, "true") || same_text(w, "try") || same_text(w, "while")
}

} // verus!
