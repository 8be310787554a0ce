//! The commands of the interactive prompt.
use vstd::prelude::*;
use vstd::utf8::encode_utf8;

use crate::parser::lexer::tokens_of;
use crate::parser::parser::{program_result, spec_parse_program, ParseError, Parser};
use crate::parser::text::{
    chars_of, lemma_subrange_bytes, lemma_trimmed_bytes, string_of_chars, trim_str, trimmed,
};
use crate::syntax::surface::Decl;

verus! {

/// What the prompt does with a command line.
pub enum ReplAction {
    /// Leave the prompt.
    Quit,
    /// Show the result of parsing the expression given.
    Parsed(Result<Vec<Decl>, ParseError>),
    /// Report a command that does not exist.
    Unknown(String),
}

/// The index of the first space in `s` at or after `i`.
pub open spec fn space_from(s: Seq<char>, i: int) -> Option<int>
    decreases s.len() - i,
{
    if i < 0 || i >= s.len() {
        None
    } else if s[i] == ' ' {
        Some(i)
    } else {
        space_from(s, i + 1)
    }
}

/// What the prompt does with the line `line`, which begins with `:`: nothing when it
/// holds no space; else the word before the first space is the command, and the rest,
/// trimmed, its argument.
pub open spec fn spec_repl_action(line: Seq<char>, a: ReplAction) -> bool {
    match space_from(line, 0) {
        None => false,
        Some(i) => {
            let command = line.take(i);
            if command == ":quit"@ || command == ":q"@ {
                a is Quit
            } else if command == ":parse"@ {
                a matches ReplAction::Parsed(res) && program_result(res) == spec_parse_program(
                    tokens_of(trimmed(line.skip(i))),
                    0,
                    Seq::empty(),
                ).0
            } else {
                a matches ReplAction::Unknown(c) && c@ == command
            }
        },
    }
}

/// Whether `line` is a command for the prompt: whether it begins with `:`.
pub fn is_repl_command(line: &str) -> (r: bool)
    ensures
        r == (line@.len() > 0 && line@[0] == ':'),
{
    let chars = chars_of(line);
    chars.len() > 0 && chars[0] == ':'
}

/// Carries out the command line `line`.
pub fn run_repl_command(line: &str) -> (r: Option<ReplAction>)
    requires
        encode_utf8(line@).len() <= usize::MAX,
    ensures
        space_from(line@, 0) is None ==> r is None,
        space_from(line@, 0) is Some ==> (r matches Some(a) && spec_repl_action(line@, a)),
{
    let chars = chars_of(line);
    let mut space: usize = 0;
    while space < chars.len() && chars[space] != ' '
        invariant
            space <= chars.len(),
            chars@ == line@,
            space_from(line@, 0) == space_from(line@, space as int),
        decreases chars.len() - space,
    {
        space = space + 1;
    }
    if space == chars.len() {
        return None;
    }
    let command = string_of_chars(&chars, 0, space);
    let expression = string_of_chars(&chars, space, chars.len());
    proof {
        assert(command@ =~= line@.take(space as int));
        assert(expression@ =~= line@.skip(space as int));
    }
    if command == ":quit".to_owned() || command == ":q".to_owned() {
        Some(ReplAction::Quit)
    } else if command == ":parse".to_owned() {
        let trimmed_expression = trim_str(expression.as_str());
        proof {
            assert(expression@ =~= line@.subrange(space as int, line@.len() as int));
            lemma_subrange_bytes(line@, space as int, line@.len() as int);
            lemma_trimmed_bytes(expression@);
        }
        let mut parser = Parser::new(trimmed_expression);
        Some(ReplAction::Parsed(parser.parse_program()))
    } else {
        Some(ReplAction::Unknown(command))
    }
}

} // verus!
