//! The decisions of the interactive shell: which lines are commands, when
//! an input is complete, and what to run. Reading lines and printing are the
//! host's work.
use vstd::prelude::*;
use vstd::string::*;
use crate::lexis::Source;
use crate::text::same_text;

verus! {

/// The characters that separate words.
pub open spec fn is_whitespace(c: char) -> bool {
    c == ' ' || ('\t' <= c && c <= '\r') || c == '\u{85}' || c == '\u{a0}' || c == '\u{1680}' || (
    '\u{2000}' <= c && c <= '\u{200a}') || c == '\u{2028}' || c == '\u{2029}' || c == '\u{202f}'
        || c == '\u{205f}' || c == '\u{3000}'
}

/// The end of the run of characters, none of them whitespace, from `i` on.
pub open spec fn solid_end(s: Seq<char>, i: int) -> int
    decreases s.len() - i,
{
    if 0 <= i < s.len() && !is_whitespace(s[i]) {
        solid_end(s, i + 1)
    } else {
        i
    }
}

/// What a word counts: a word that opens a construct 1, `end` -1.
pub open spec fn word_weight(w: Seq<char>) -> int {
    if w == "if"@ || w == "while"@ || w == "for"@ || w == "function"@ || w == "try"@ {
        1
    } else if w == "end"@ {
        -1
    } else {
        0
    }
}

/// The sum of the weights of the words from `i` on, a word being a run of
/// characters between whitespace.
pub open spec fn words_weight(s: Seq<char>, i: int) -> int
    decreases s.len() - i,
{
    if !(0 <= i < s.len()) {
        0
    } else if is_whitespace(s[i]) {
        words_weight(s, i + 1)
    } else if i < solid_end(s, i) <= s.len() {
        word_weight(s.subrange(i, solid_end(s, i))) + words_weight(s, solid_end(s, i))
    } else {
        0
    }
}

/// What a character counts: an opening bracket 1, a closing one -1.
pub open spec fn bracket_weight(c: char) -> int {
    if c == '[' || c == '{' || c == '(' {
        1
    } else if c == ']' || c == '}' || c == ')' {
        -1
    } else {
        0
    }
}

/// The sum of the weights of the characters from `i` on.
pub open spec fn brackets_weight(s: Seq<char>, i: int) -> int
    decreases s.len() - i,
{
    if 0 <= i < s.len() {
        bracket_weight(s[i]) + brackets_weight(s, i + 1)
    } else {
        0
    }
}

/// How many constructs an input leaves open: opening words and brackets
/// less closing ones, never below 0 and never above what fits the result.
pub open spec fn open_constructs(s: Seq<char>) -> int {
    let total = words_weight(s, 0) + brackets_weight(s, 0);
    if total <= 0 {
        0
    } else if total > i32::MAX {
        i32::MAX as int
    } else {
        total
    }
}

fn whitespace(c: char) -> (r: bool)
    ensures
        r == is_whitespace(c),
{
    c == ' ' || ('\t' <= c && c <= '\r') || c == '\u{85}' || c == '\u{a0}' || c == '\u{1680}' || (
    '\u{2000}' <= c && c <= '\u{200a}') || c == '\u{2028}' || c == '\u{2029}' || c == '\u{202f}'
        || c == '\u{205f}' || c == '\u{3000}'
}

fn weigh_word(w: &str) -> (r: i8)
    ensures
        r == word_weight(w@),
{
    if same_text(w, "if") || same_text(w, "while") || same_text(w, "for") || same_text(
        w,
        "function",
    ) || same_text(w, "try") {
        1
    } else if same_text(w, "end") {
        -1
    } else {
        0
    }
}

fn weigh_bracket(c: char) -> (r: i8)
    ensures
        r == bracket_weight(c),
{
    if c == '[' || c == '{' || c == '(' {
        1
    } else if c == ']' || c == '}' || c == ')' {
        -1
    } else {
        0
    }
}

fn find_solid_end(src: &Source, start: usize) -> (r: usize)
    requires
        start <= src.view().len(),
    ensures
        r == solid_end(src.view(), start as int),
        start <= r <= src.view().len(),
        start < src.view().len() && !is_whitespace(src.view()[start as int]) ==> r > start,
{
    let mut i: usize = start;
    while i < src.len() && !whitespace(src.at(i))
        invariant
            start <= i <= src.view().len(),
            solid_end(src.view(), start as int) == solid_end(src.view(), i as int),
            start < src.view().len() && !is_whitespace(src.view()[start as int]) && i == start
                ==> i < src.view().len() && !is_whitespace(src.view()[i as int]),
        decreases src.view().len() - i,
    {
        i += 1;
    }
    i
}

/// How many constructs an input leaves open.
pub fn count_open_constructs(input: &str) -> (r: i32)
    ensures
        r == open_constructs(input@),
{
    let src = Source::new(input);
    let ghost s = src.view();
    proof {
        src.lemma_fits();
    }
    let n = src.len();
    let mut words: i128 = 0;
    let mut i: usize = 0;
    while i < n
        invariant
            src.wf(),
            s == src.view(),
            n == s.len(),
            i <= n,
            -(i as int) <= words <= i as int,
            words_weight(s, 0) == words + words_weight(s, i as int),
        decreases n - i,
    {
        if whitespace(src.at(i)) {
            i += 1;
        } else {
            let e = find_solid_end(&src, i);
            let word = src.slice(i, e);
            words = words + weigh_word(word.as_str()) as i128;
            i = e;
        }
    }
    let mut brackets: i128 = 0;
    let mut j: usize = 0;
    while j < n
        invariant
            s == src.view(),
            n == s.len(),
            j <= n,
            -(j as int) <= brackets <= j as int,
            brackets_weight(s, 0) == brackets + brackets_weight(s, j as int),
        decreases n - j,
    {
        brackets = brackets + weigh_bracket(src.at(j)) as i128;
        j += 1;
    }
    let total = words + brackets;
    if total <= 0 {
        0
    } else if total > 2147483647 {
        2147483647
    } else {
        total as i32
    }
}

// ---------------------------------------------------------------------------
// Lines
// ---------------------------------------------------------------------------

/// The first position from `i` on that holds no whitespace.
pub open spec fn trim_start(s: Seq<char>, i: int) -> int
    decreases s.len() - i,
{
    if 0 <= i < s.len() && is_whitespace(s[i]) {
        trim_start(s, i + 1)
    } else {
        i
    }
}

/// The end of the text before position `j` without its trailing whitespace.
pub open spec fn trim_end(s: Seq<char>, j: int) -> int
    decreases j,
{
    if 0 < j <= s.len() && is_whitespace(s[j - 1]) {
        trim_end(s, j - 1)
    } else {
        j
    }
}

/// A text without the whitespace at its start and at its end.
pub open spec fn trimmed(s: Seq<char>) -> Seq<char> {
    let from = trim_start(s, 0);
    let to = trim_end(s, s.len() as int);
    if from < to {
        s.subrange(from, to)
    } else {
        Seq::empty()
    }
}

/// A text without the whitespace at its start and at its end.
pub fn trim_text(text: &str) -> (r: String)
    ensures
        r@ == trimmed(text@),
{
    let src = Source::new(text);
    let n = src.len();
    let mut from: usize = 0;
    while from < n && whitespace(src.at(from))
        invariant
            n == src.view().len(),
            from <= n,
            trim_start(src.view(), 0) == trim_start(src.view(), from as int),
        decreases n - from,
    {
        from += 1;
    }
    let mut to: usize = n;
    while to > 0 && whitespace(src.at(to - 1))
        invariant
            n == src.view().len(),
            to <= n,
            trim_end(src.view(), n as int) == trim_end(src.view(), to as int),
        decreases to,
    {
        to -= 1;
    }
    if from < to {
        src.slice(from, to)
    } else {
        String::new()
    }
}

/// The state of the shell between two lines: the input gathered so far and
/// whether it goes on.
pub struct Repl {
    buffer: String,
    in_multiline: bool,
}

/// What the shell does with a line.
#[derive(Debug, PartialEq)]
pub enum ReplAction {
    /// Leave the shell.
    Exit,
    /// Show the help text.
    Help,
    /// Forget every variable.
    Clear,
    /// Show the variables.
    Vars,
    /// The input goes on: read another line.
    More,
    /// The input is blank: nothing to run.
    Skip,
    /// Run this input.
    Execute(String),
}

/// The mathematical value of a [`ReplAction`].
pub enum ReplStep {
    Exit,
    Help,
    Clear,
    Vars,
    More,
    Skip,
    Execute(Seq<char>),
}

impl View for ReplAction {
    type V = ReplStep;

    open spec fn view(&self) -> ReplStep {
        match self {
            ReplAction::Exit => ReplStep::Exit,
            ReplAction::Help => ReplStep::Help,
            ReplAction::Clear => ReplStep::Clear,
            ReplAction::Vars => ReplStep::Vars,
            ReplAction::More => ReplStep::More,
            ReplAction::Skip => ReplStep::Skip,
            ReplAction::Execute(input) => ReplStep::Execute(input@),
        }
    }
}

/// What the shell holds between two lines.
pub struct ReplState {
    pub buffer: Seq<char>,
    pub in_multiline: bool,
}

/// What the shell does with a line and what it holds afterwards. Outside a
/// multi-line input the words `exit`, `help`, `clear` and `vars` are
/// commands. A line that ends in a backslash goes on with the next line, and
/// so does an input that leaves a construct open. A complete input is run
/// unless it is blank.
pub open spec fn feed_spec(state: ReplState, line: Seq<char>) -> (ReplState, ReplStep) {
    let word = trimmed(line);
    if !state.in_multiline && word == "exit"@ {
        (state, ReplStep::Exit)
    } else if !state.in_multiline && word == "help"@ {
        (state, ReplStep::Help)
    } else if !state.in_multiline && word == "clear"@ {
        (state, ReplStep::Clear)
    } else if !state.in_multiline && word == "vars"@ {
        (state, ReplStep::Vars)
    } else if line.len() > 0 && line.last() == '\\' {
        (
            ReplState {
                buffer: state.buffer + line.drop_last() + seq!['\n'],
                in_multiline: true,
            },
            ReplStep::More,
        )
    } else {
        let input = state.buffer + line;
        if open_constructs(input) > 0 {
            (ReplState { buffer: input + seq!['\n'], in_multiline: true }, ReplStep::More)
        } else if trimmed(input).len() == 0 {
            (ReplState { buffer: Seq::empty(), in_multiline: false }, ReplStep::Skip)
        } else {
            (ReplState { buffer: Seq::empty(), in_multiline: false }, ReplStep::Execute(input))
        }
    }
}

impl View for Repl {
    type V = ReplState;

    closed spec fn view(&self) -> ReplState {
        ReplState { buffer: self.buffer@, in_multiline: self.in_multiline }
    }
}

impl Repl {
    /// A shell that has read nothing.
    pub fn new() -> (r: Repl)
        ensures
            r@ == (ReplState { buffer: Seq::empty(), in_multiline: false }),
    {
        Repl { buffer: String::new(), in_multiline: false }
    }

    /// The prompt for the next line.
    pub fn prompt(&self) -> (r: &'static str)
        ensures
            r@ == if self@.in_multiline {
                "... "@
            } else {
                ">>> "@
            },
    {
        if self.in_multiline {
            "... "
        } else {
            ">>> "
        }
    }

    /// Takes a line and says what to do with it.
    pub fn feed(&mut self, line: &str) -> (r: ReplAction)
        ensures
            (final(self)@, r@) == feed_spec(old(self)@, line@),
    {
        if !self.in_multiline {
            let word = trim_text(line);
            if same_text(word.as_str(), "exit") {
                return ReplAction::Exit;
            }
            if same_text(word.as_str(), "help") {
                return ReplAction::Help;
            }
            if same_text(word.as_str(), "clear") {
                return ReplAction::Clear;
            }
            if same_text(word.as_str(), "vars") {
                return ReplAction::Vars;
            }
        }
        let n = line.unicode_len();
        if n > 0 && line.get_char(n - 1) == '\\' {
            let ghost before = self.buffer@;
            self.buffer.append(line.substring_char(0, n - 1));
            self.buffer.append("\n");
            self.in_multiline = true;
            proof {
                reveal_strlit("\n");
                assert("\n"@ =~= seq!['\n']);
                assert(line@.subrange(0, n - 1) =~= line@.drop_last());
            }
            return ReplAction::More;
        }
        self.buffer.append(line);
        if count_open_constructs(self.buffer.as_str()) > 0 {
            self.buffer.append("\n");
            self.in_multiline = true;
            proof {
                reveal_strlit("\n");
                assert("\n"@ =~= seq!['\n']);
            }
            return ReplAction::More;
        }
        self.in_multiline = false;
        let mut input = String::new();
        core::mem::swap(&mut self.buffer, &mut input);
        let blank = trim_text(input.as_str());
        if blank.as_str().unicode_len() == 0 {
            ReplAction::Skip
        } else {
            ReplAction::Execute(input)
        }
    }
}

} // verus!
