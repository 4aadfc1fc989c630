//! Command lines: splitting a line of input into words.
//!
//! Words are separated by spaces. A word that begins with a double quote runs
//! to the next double quote and may hold spaces. A backslash inside a word
//! takes the character after it as it stands.
use vstd::prelude::*;

verus! {

/// Whether a character has the Unicode property White_Space.
pub uninterp spec fn char_is_whitespace(c: char) -> bool;

/// `char::is_whitespace`: whether the character has the Unicode property
/// White_Space.
#[verifier::external_body]
fn is_whitespace(c: char) -> (space: bool)
    ensures
        space == char_is_whitespace(c),
{
    c.is_whitespace()
}

/// Where the splitter stands in a line.
#[derive(Debug, Clone, Copy, PartialEq, Eq, Structural)]
pub enum Mode {
    /// Between words.
    Between,
    /// In a word without quotes.
    Plain,
    /// In a word in quotes.
    Quoted,
    /// After a backslash, in a word that is in quotes or not.
    Escaped { quoted: bool },
}

/// The splitter after a part of a line: where it stands, the word that it is
/// in, and the words before it.
pub struct Lexer {
    pub mode: Mode,
    pub word: Seq<char>,
    pub words: Seq<Seq<char>>,
}

/// The splitter before the first character.
pub open spec fn lexer_at_start() -> Lexer {
    Lexer { mode: Mode::Between, word: Seq::empty(), words: Seq::empty() }
}

/// The splitter after one more character.
pub open spec fn lexer_after(lexer: Lexer, c: char) -> Lexer {
    match lexer.mode {
        Mode::Between => if c == ' ' {
            lexer
        } else if c == '"' {
            Lexer { mode: Mode::Quoted, word: Seq::empty(), words: lexer.words }
        } else {
            Lexer { mode: Mode::Plain, word: seq![c], words: lexer.words }
        },
        Mode::Plain => if c == ' ' {
            Lexer { mode: Mode::Between, word: Seq::empty(), words: lexer.words.push(lexer.word) }
        } else if c == '\\' {
            Lexer { mode: Mode::Escaped { quoted: false }, word: lexer.word, words: lexer.words }
        } else {
            Lexer { mode: Mode::Plain, word: lexer.word.push(c), words: lexer.words }
        },
        Mode::Quoted => if c == '"' {
            Lexer { mode: Mode::Between, word: Seq::empty(), words: lexer.words.push(lexer.word) }
        } else if c == '\\' {
            Lexer { mode: Mode::Escaped { quoted: true }, word: lexer.word, words: lexer.words }
        } else {
            Lexer { mode: Mode::Quoted, word: lexer.word.push(c), words: lexer.words }
        },
        Mode::Escaped { quoted } => Lexer {
            mode: if quoted {
                Mode::Quoted
            } else {
                Mode::Plain
            },
            word: lexer.word.push(c),
            words: lexer.words,
        },
    }
}

/// The splitter after the characters of `line`, first to last.
pub open spec fn lexed(line: Seq<char>) -> Lexer
    decreases line.len(),
{
    if line.len() == 0 {
        lexer_at_start()
    } else {
        lexer_after(lexed(line.drop_last()), line.last())
    }
}

/// The words of a line at its end: a word that the line ends in counts, a
/// quote left open too; a word that ends in a lone backslash is dropped.
pub open spec fn words_at_end(lexer: Lexer) -> Seq<Seq<char>> {
    match lexer.mode {
        Mode::Plain | Mode::Quoted => lexer.words.push(lexer.word),
        _ => lexer.words,
    }
}

/// `line` without the whitespace that it begins with.
pub open spec fn trimmed_start(line: Seq<char>) -> Seq<char>
    decreases line.len(),
{
    if line.len() > 0 && char_is_whitespace(line[0]) {
        trimmed_start(line.skip(1))
    } else {
        line
    }
}

/// `line` without the whitespace that it ends in.
pub open spec fn trimmed_end(line: Seq<char>) -> Seq<char>
    decreases line.len(),
{
    if line.len() > 0 && char_is_whitespace(line.last()) {
        trimmed_end(line.drop_last())
    } else {
        line
    }
}

/// `line` without the whitespace around it.
pub open spec fn trimmed(line: Seq<char>) -> Seq<char> {
    trimmed_end(trimmed_start(line))
}

/// The word `help`.
pub open spec fn help_word() -> Seq<char> {
    seq!['h', 'e', 'l', 'p']
}

/// The option `--help`.
pub open spec fn help_option() -> Seq<char> {
    seq!['-', '-', 'h', 'e', 'l', 'p']
}

/// The words of a command line: of the line `help` the option `--help`, of
/// any other what the splitter finds between the whitespace around it.
pub open spec fn command_words(line: Seq<char>) -> Seq<Seq<char>> {
    if trimmed(line) == help_word() {
        seq![help_option()]
    } else {
        words_at_end(lexed(trimmed(line)))
    }
}

/// The line ends inside a quote.
pub open spec fn quote_left_open(line: Seq<char>) -> bool {
    trimmed(line) != help_word() && lexed(trimmed(line)).mode == Mode::Quoted
}

/// The words of a vector of words, as sequences.
pub open spec fn word_views(words: Seq<Vec<char>>) -> Seq<Seq<char>> {
    Seq::new(words.len(), |i: int| words[i]@)
}

/// The words of a command line, and whether it ends inside a quote.
pub struct CommandLine {
    pub words: Vec<Vec<char>>,
    pub quote_left_open: bool,
}

/// Where the text of `line` begins and ends, between the whitespace around it.
fn trim_bounds(line: &[char]) -> (bounds: (usize, usize))
    ensures
        bounds.0 <= bounds.1 <= line@.len(),
        line@.subrange(bounds.0 as int, bounds.1 as int) == trimmed(line@),
{
    let mut start: usize = 0;
    assert(line@.skip(0) =~= line@);
    while start < line.len() && is_whitespace(line[start])
        invariant
            start <= line.len(),
            trimmed_start(line@) == trimmed_start(line@.skip(start as int)),
        decreases line.len() - start,
    {
        assert(line@.skip(start as int).skip(1) =~= line@.skip(start + 1));
        start += 1;
    }
    let ghost rest = line@.skip(start as int);
    assert(trimmed_start(line@) == rest);
    let mut end: usize = line.len();
    assert(rest.take(rest.len() as int) =~= rest);
    while end > start && is_whitespace(line[end - 1])
        invariant
            start <= end <= line.len(),
            rest == line@.skip(start as int),
            trimmed_end(rest) == trimmed_end(rest.take(end - start)),
        decreases end,
    {
        assert(rest.take(end - start).drop_last() =~= rest.take(end - start - 1));
        end -= 1;
    }
    assert(rest.take(end - start) =~= line@.subrange(start as int, end as int));
    (start, end)
}

/// Whether the four characters from `start` on are `help`.
fn is_help(line: &[char], start: usize, end: usize) -> (help: bool)
    requires
        start <= end <= line@.len(),
    ensures
        help == (line@.subrange(start as int, end as int) == help_word()),
{
    let ghost text = line@.subrange(start as int, end as int);
    assert(help_word().len() == 4);
    if end - start != 4 {
        return false;
    }
    let help = line[start] == 'h' && line[start + 1] == 'e' && line[start + 2] == 'l' && line[start
        + 3] == 'p';
    proof {
        assert(text[0] == line@[start as int]);
        assert(text[1] == line@[start + 1]);
        assert(text[2] == line@[start + 2]);
        assert(text[3] == line@[start + 3]);
        if help {
            assert(text =~= help_word());
        }
    }
    help
}

/// Splits a command line into its words, and says whether it ends inside a
/// quote.
pub fn split_command(line: &[char]) -> (command: CommandLine)
    ensures
        word_views(command.words@) == command_words(line@),
        command.quote_left_open == quote_left_open(line@),
{
    let (start, end) = trim_bounds(line);
    let ghost text = line@.subrange(start as int, end as int);
    let mut words: Vec<Vec<char>> = Vec::new();
    if is_help(line, start, end) {
        let mut option: Vec<char> = Vec::new();
        option.push('-');
        option.push('-');
        option.push('h');
        option.push('e');
        option.push('l');
        option.push('p');
        assert(option@ =~= help_option());
        words.push(option);
        assert(word_views(words@) =~= seq![help_option()]);
        return CommandLine { words, quote_left_open: false };
    }
    let mut mode = Mode::Between;
    let mut word: Vec<char> = Vec::new();
    let mut i: usize = start;
    proof {
        assert(text.take(0) =~= Seq::<char>::empty());
        assert(word_views(words@) =~= Seq::<Seq<char>>::empty());
    }
    while i < end
        invariant
            start <= i <= end <= line@.len(),
            text == line@.subrange(start as int, end as int),
            mode == Mode::Between ==> word@.len() == 0,
            lexed(text.take(i - start)) == (Lexer {
                mode,
                word: word@,
                words: word_views(words@),
            }),
        decreases end - i,
    {
        let c = line[i];
        proof {
            assert(text.take(i + 1 - start).drop_last() =~= text.take(i - start));
            assert(text.take(i + 1 - start).last() == c);
        }
        let ghost before = word_views(words@);
        match mode {
            Mode::Between => {
                assert(word@ =~= Seq::<char>::empty());
                if c == ' ' {
                } else if c == '"' {
                    mode = Mode::Quoted;
                } else {
                    word.push(c);
                    mode = Mode::Plain;
                    assert(word@ =~= seq![c]);
                }
            },
            Mode::Plain => {
                if c == ' ' {
                    let mut finished: Vec<char> = Vec::new();
                    std::mem::swap(&mut finished, &mut word);
                    words.push(finished);
                    mode = Mode::Between;
                    assert(word_views(words@) =~= before.push(finished@));
                } else if c == '\\' {
                    mode = Mode::Escaped { quoted: false };
                } else {
                    word.push(c);
                }
            },
            Mode::Quoted => {
                if c == '"' {
                    let mut finished: Vec<char> = Vec::new();
                    std::mem::swap(&mut finished, &mut word);
                    words.push(finished);
                    mode = Mode::Between;
                    assert(word_views(words@) =~= before.push(finished@));
                } else if c == '\\' {
                    mode = Mode::Escaped { quoted: true };
                } else {
                    word.push(c);
                }
            },
            Mode::Escaped { quoted } => {
                word.push(c);
                mode = if quoted {
                    Mode::Quoted
                } else {
                    Mode::Plain
                };
            },
        }
        i += 1;
    }
    assert(text.take(end - start) =~= text);
    let ghost before = word_views(words@);
    let quote_left_open = mode == Mode::Quoted;
    if mode == Mode::Plain || mode == Mode::Quoted {
        words.push(word);
        assert(word_views(words@) =~= before.push(word@));
    }
    CommandLine { words, quote_left_open }
}

/// The words of a command line.
pub fn space_seperation(input: &[char]) -> (words: Vec<Vec<char>>)
    ensures
        word_views(words@) == command_words(input@),
{
    split_command(input).words
}

} // verus!
