//! Reading a line of text as a command.

use crate::game::Command;
use vstd::prelude::*;

verus! {

/// The words of a line: the stretches of characters between its spaces.
/// Reading from the left, a space ends a word and begins the next, and any
/// other character goes to the end of the word that is being read. So a line
/// has one word more than it has spaces, and a word may be empty.
pub open spec fn words(line: Seq<char>) -> Seq<Seq<char>>
    decreases line.len(),
{
    if line.len() == 0 {
        seq![Seq::empty()]
    } else {
        let before = words(line.drop_last());
        if line.last() == ' ' {
            before.push(Seq::empty())
        } else {
            before.update(before.len() - 1, before.last().push(line.last()))
        }
    }
}

/// The number that a decimal digit stands for.
pub open spec fn digit_value(c: char) -> Option<nat> {
    if '0' <= c <= '9' {
        Some((c as nat - '0' as nat) as nat)
    } else {
        None
    }
}

/// The number that a run of decimal digits stands for; none where the run is
/// empty or holds anything but digits.
pub open spec fn decimal(digits: Seq<char>) -> Option<nat>
    decreases digits.len(),
{
    if digits.len() == 0 {
        None
    } else {
        match digit_value(digits.last()) {
            None => None,
            Some(d) => if digits.len() == 1 {
                Some(d)
            } else {
                match decimal(digits.drop_last()) {
                    None => None,
                    Some(v) => Some(10 * v + d),
                }
            },
        }
    }
}

/// A word without the `+` that may begin it.
pub open spec fn unsigned(word: Seq<char>) -> Seq<char> {
    if word.len() > 0 && word[0] == '+' {
        word.skip(1)
    } else {
        word
    }
}

/// The index that a word stands for: decimal digits, which a single `+` may
/// precede, whose number fits a `usize`.
pub open spec fn number(word: Seq<char>) -> Option<usize> {
    match decimal(unsigned(word)) {
        None => None,
        Some(v) => if v <= usize::MAX {
            Some(v as usize)
        } else {
            None
        },
    }
}

/// The command that the words of a line stand for. The first word names it:
/// `d` draws, `g` asks for the state, `p` places on the stack that the second
/// word numbers, `m` moves, from the stack that the second word numbers to
/// the one that the third numbers, as many cards as the fourth says. Words
/// beyond those are ignored.
pub open spec fn command_of_words(words: Seq<Seq<char>>) -> Option<Command> {
    if words.len() == 0 {
        None
    } else if words[0] == seq!['d'] {
        Some(Command::Draw)
    } else if words[0] == seq!['g'] {
        Some(Command::GetState)
    } else if words[0] == seq!['p'] {
        if words.len() < 2 {
            None
        } else {
            match number(words[1]) {
                Some(stack) => Some(Command::Place { stack }),
                None => None,
            }
        }
    } else if words[0] == seq!['m'] {
        if words.len() < 4 {
            None
        } else {
            match (number(words[1]), number(words[2]), number(words[3])) {
                (Some(from), Some(to), Some(amount)) => Some(Command::Move { from, to, amount }),
                _ => None,
            }
        }
    } else {
        None
    }
}

/// The command that a line in lower case stands for.
pub open spec fn command_of(line: Seq<char>) -> Option<Command> {
    command_of_words(words(line))
}

/// A run of digits that stands for a number begins with runs that stand for
/// numbers too, none of them greater; and every character of it is a digit.
proof fn lemma_decimal_prefix(digits: Seq<char>, k: int)
    requires
        0 < k <= digits.len(),
        decimal(digits) is Some,
    ensures
        digit_value(digits[k - 1]) is Some,
        decimal(digits.take(k)) is Some,
        decimal(digits.take(k))->0 <= decimal(digits)->0,
    decreases digits.len(),
{
    if k < digits.len() {
        lemma_decimal_prefix(digits.drop_last(), k);
        assert(digits.drop_last().take(k) =~= digits.take(k));
    } else {
        assert(digits.take(k) =~= digits);
    }
}

/// Reads a word as an index.
pub fn parse_number(word: &Vec<char>) -> (n: Option<usize>)
    ensures
        n == number(word@),
{
    let start: usize = if word.len() > 0 && word[0] == '+' {
        1
    } else {
        0
    };
    let ghost digits = unsigned(word@);
    assert(digits =~= word@.skip(start as int));
    let mut value: usize = 0;
    let mut i: usize = start;
    while i < word.len()
        invariant
            start <= i <= word.len(),
            digits == unsigned(word@),
            digits == word@.skip(start as int),
            i == start ==> value == 0,
            i > start ==> decimal(digits.take(i - start)) == Some(value as nat),
        decreases word.len() - i,
    {
        let c: char = word[i];
        if !(c >= '0' && c <= '9') {
            proof {
                if decimal(digits) is Some {
                    lemma_decimal_prefix(digits, i - start + 1);
                }
            }
            return None;
        }
        let d: usize = (c as u32 - '0' as u32) as usize;
        proof {
            assert(digits.take(i - start + 1).drop_last() =~= digits.take(i - start));
        }
        if value > (usize::MAX - d) / 10 {
            proof {
                if decimal(digits) is Some {
                    lemma_decimal_prefix(digits, i - start + 1);
                }
            }
            return None;
        }
        value = value * 10 + d;
        i += 1;
    }
    proof {
        assert(digits.take(i - start) =~= digits);
    }
    if i == start {
        None
    } else {
        Some(value)
    }
}

/// Whether a word is the one letter `letter`.
fn is_letter(word: &Vec<char>, letter: char) -> (is: bool)
    ensures
        is == (word@ == seq![letter]),
{
    let is = word.len() == 1 && word[0] == letter;
    assert(is ==> word@ =~= seq![letter]);
    is
}

/// Splits a line into its words.
pub fn split_words(line: &Vec<char>) -> (found: Vec<Vec<char>>)
    ensures
        found.deep_view() == words(line@),
{
    let mut found: Vec<Vec<char>> = Vec::new();
    let mut word: Vec<char> = Vec::new();
    let mut i: usize = 0;
    assert(line@.take(0) =~= Seq::empty());
    assert(found.deep_view().push(word@) =~~= words(line@.take(0)));
    while i < line.len()
        invariant
            i <= line.len(),
            found.deep_view().push(word@) == words(line@.take(i as int)),
        decreases line.len() - i,
    {
        let c: char = line[i];
        let ghost read = line@.take(i as int);
        let ghost before = found.deep_view();
        let ghost current = word@;
        assert(line@.take(i + 1).drop_last() =~= read);
        if c == ' ' {
            found.push(word);
            word = Vec::new();
            assert(found.deep_view() =~~= before.push(current));
            assert(found.deep_view().push(word@) =~~= words(read).push(Seq::empty()));
        } else {
            word.push(c);
            assert(found.deep_view().push(word@) =~~= words(read).update(
                words(read).len() - 1,
                words(read).last().push(c),
            ));
        }
        i += 1;
    }
    assert(line@.take(i as int) =~= line@);
    let ghost before = found.deep_view();
    found.push(word);
    assert(found.deep_view() =~~= before.push(word@));
    found
}

/// Reads the words of a line as a command.
pub fn decode_words(words: &Vec<Vec<char>>) -> (command: Option<Command>)
    ensures
        command == command_of_words(words.deep_view()),
{
    let ghost model = words.deep_view();
    assert(forall|i: int| 0 <= i < words.len() ==> #[trigger] model[i] == words@[i]@);
    if words.len() == 0 {
        None
    } else if is_letter(&words[0], 'd') {
        Some(Command::Draw)
    } else if is_letter(&words[0], 'g') {
        Some(Command::GetState)
    } else if is_letter(&words[0], 'p') {
        if words.len() < 2 {
            None
        } else {
            match parse_number(&words[1]) {
                Some(stack) => Some(Command::Place { stack }),
                None => None,
            }
        }
    } else if is_letter(&words[0], 'm') {
        if words.len() < 4 {
            None
        } else {
            match (parse_number(&words[1]), parse_number(&words[2]), parse_number(&words[3])) {
                (Some(from), Some(to), Some(amount)) => Some(Command::Move { from, to, amount }),
                _ => None,
            }
        }
    } else {
        None
    }
}

/// Reads a line in lower case as a command.
pub fn decode_lowered(line: &str) -> (command: Option<Command>)
    ensures
        command == command_of(line@),
{
    let mut chars: Vec<char> = Vec::new();
    for c in it: line.chars()
        invariant
            it.seq() == line@,
            chars@ == it.seq().take(it.index() as int),
    {
        chars.push(c);
    }
    assert(chars@ =~= line@);
    let found = split_words(&chars);
    decode_words(&found)
}

/// What `str::to_lowercase` makes of a string: the same for the same
/// characters, wherever and whenever it is asked.
pub uninterp spec fn lowercase(s: Seq<char>) -> Seq<char>;

/// `str::to_lowercase`: the string in lower case, as Unicode defines it. The
/// result depends on the characters of `s` alone.
#[verifier::external_body]
fn to_lowercase(s: &str) -> (lower: String)
    ensures
        lower@ == lowercase(s@),
{
    s.to_lowercase()
}

/// Reads a line as a command, whatever the case of its letters.
pub fn decode(string: String) -> (command: Option<Command>)
    ensures
        command == command_of(lowercase(string@)),
{
    let lower = to_lowercase(string.as_str());
    decode_lowered(lower.as_str())
}

} // verus!
