//! The operator's command surface: what one line of input asks for.
//!
//! A line is cut into words at whitespace. The first word decides: `quit`,
//! `devices`, or `restart` followed by a device identifier. Anything else is
//! ignored.
use vstd::prelude::*;
use vstd::string::StrSliceExecFns;
use crate::command::Command;
use crate::text::{chars_of, first_index, matches_at};

verus! {

/// Whether a character is white space, as Unicode defines it.
pub open spec fn is_space(c: char) -> bool {
    ||| c == '\u{9}'
    ||| c == '\u{a}'
    ||| c == '\u{b}'
    ||| c == '\u{c}'
    ||| c == '\u{d}'
    ||| c == ' '
    ||| c == '\u{85}'
    ||| c == '\u{a0}'
    ||| c == '\u{1680}'
    ||| c == '\u{2000}'
    ||| c == '\u{2001}'
    ||| c == '\u{2002}'
    ||| c == '\u{2003}'
    ||| c == '\u{2004}'
    ||| c == '\u{2005}'
    ||| c == '\u{2006}'
    ||| c == '\u{2007}'
    ||| c == '\u{2008}'
    ||| c == '\u{2009}'
    ||| c == '\u{200a}'
    ||| c == '\u{2028}'
    ||| c == '\u{2029}'
    ||| c == '\u{202f}'
    ||| c == '\u{205f}'
    ||| c == '\u{3000}'
}

/// For each character of a line, whether it is white space.
pub open spec fn spaces(line: Seq<char>) -> Seq<bool> {
    line.map_values(|c: char| is_space(c))
}

/// Where the first word at or after `from` starts; the length when there is
/// none.
pub open spec fn word_start(line: Seq<char>, from: int) -> int {
    first_index(spaces(line), false, from)
}

/// Where the first word at or after `from` ends.
pub open spec fn word_end(line: Seq<char>, from: int) -> int {
    first_index(spaces(line), true, word_start(line, from))
}

/// The first word at or after `from`; empty when there is none.
pub open spec fn word(line: Seq<char>, from: int) -> Seq<char> {
    line.subrange(word_start(line, from), word_end(line, from))
}

/// What the command surface does to the channels it writes to.
pub enum ShellEffectModel {
    /// Put this identifier on the restart queue.
    PushTarget(Seq<char>),
    /// Write this command to the command register.
    Write(Command),
}

/// What the command surface does to the channels it writes to.
#[derive(Debug, PartialEq, Eq)]
pub enum ShellEffect {
    /// Put this identifier on the restart queue.
    PushTarget(String),
    /// Write this command to the command register.
    Write(Command),
}

impl ShellEffect {
    pub open spec fn view(self) -> ShellEffectModel {
        match self {
            ShellEffect::PushTarget(id) => ShellEffectModel::PushTarget(id@),
            ShellEffect::Write(command) => ShellEffectModel::Write(command),
        }
    }
}

/// The effects as sequences of characters have them.
pub open spec fn shell_views(effects: Seq<ShellEffect>) -> Seq<ShellEffectModel> {
    effects.map_values(|effect: ShellEffect| effect@)
}

/// The answer to one line: effects to perform in order, and whether to stop
/// reading.
#[derive(Debug)]
pub struct ShellReaction {
    pub effects: Vec<ShellEffect>,
    pub stop: bool,
}

/// The effects of one line of input, in the order in which they are to be
/// performed, and whether the command surface stops after them.
///
/// For a restart the identifier is queued before the command is written, so
/// that whoever reads the command finds the identifier waiting.
pub open spec fn react(line: Seq<char>) -> (Seq<ShellEffectModel>, bool) {
    let first = word(line, 0);
    let second = word(line, word_end(line, 0));
    if first == "quit"@ {
        (seq![ShellEffectModel::Write(Command::Quit)], true)
    } else if first == "devices"@ {
        (seq![ShellEffectModel::Write(Command::ListDevices)], false)
    } else if first == "restart"@ && second.len() > 0 {
        (
            seq![
                ShellEffectModel::PushTarget(second),
                ShellEffectModel::Write(Command::RestartDevice),
            ],
            false,
        )
    } else {
        (Seq::empty(), false)
    }
}

/// Whether `c` is white space.
pub fn is_space_char(c: char) -> (space: bool)
    ensures
        space == is_space(c),
{
    c == '\u{9}' || c == '\u{a}' || c == '\u{b}' || c == '\u{c}' || c == '\u{d}' || c == ' '
        || c == '\u{85}' || c == '\u{a0}' || c == '\u{1680}' || c == '\u{2000}' || c == '\u{2001}'
        || c == '\u{2002}' || c == '\u{2003}' || c == '\u{2004}' || c == '\u{2005}' || c
        == '\u{2006}' || c == '\u{2007}' || c == '\u{2008}' || c == '\u{2009}' || c == '\u{200a}'
        || c == '\u{2028}' || c == '\u{2029}' || c == '\u{202f}' || c == '\u{205f}' || c
        == '\u{3000}'
}

/// The index of the first character at or after `from` that is white space
/// (`space`) or is not (`!space`); the length when there is none.
fn next_flag(line: &Vec<char>, space: bool, from: usize) -> (at: usize)
    requires
        from <= line@.len(),
    ensures
        at == first_index(spaces(line@), space, from as int),
        from <= at <= line@.len(),
{
    let mut i: usize = from;
    while i < line.len() && is_space_char(line[i]) != space
        invariant
            from <= i <= line.len(),
            first_index(spaces(line@), space, from as int) == first_index(
                spaces(line@),
                space,
                i as int,
            ),
        decreases line.len() - i,
    {
        i = i + 1;
    }
    i
}

/// Whether the characters of `line` from `from` up to `to` read `text`.
fn reads(line: &Vec<char>, from: usize, to: usize, text: &str) -> (same: bool)
    requires
        from <= to <= line@.len(),
    ensures
        same == (line@.subrange(from as int, to as int) == text@),
{
    let pattern = chars_of(text);
    to - from == pattern.len() && matches_at(line, &pattern, from)
}

/// Decides on one line of operator input: the effects to perform, in order,
/// and whether to stop reading.
pub fn on_line(line: &String) -> (reaction: ShellReaction)
    ensures
        shell_views(reaction.effects@) == react(line@).0,
        reaction.stop == react(line@).1,
{
    let chars = chars_of(line.as_str());
    let start = next_flag(&chars, false, 0);
    let end = next_flag(&chars, true, start);
    let mut effects: Vec<ShellEffect> = Vec::new();
    let mut stop = false;
    if reads(&chars, start, end, "quit") {
        effects.push(ShellEffect::Write(Command::Quit));
        stop = true;
    } else if reads(&chars, start, end, "devices") {
        effects.push(ShellEffect::Write(Command::ListDevices));
    } else if reads(&chars, start, end, "restart") {
        let from = next_flag(&chars, false, end);
        let to = next_flag(&chars, true, from);
        if to > from {
            let id = line.as_str().substring_char(from, to).to_owned();
            effects.push(ShellEffect::PushTarget(id));
            effects.push(ShellEffect::Write(Command::RestartDevice));
        }
    }
    assert(shell_views(effects@) =~= react(line@).0);
    ShellReaction { effects, stop }
}

} // verus!
