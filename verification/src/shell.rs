//! The commands of an interactive session: what a line that the user typed
//! asks for.

use vstd::prelude::*;
use vstd::string::StringSliceAdditionalSpecFns;
use crate::names::NameTable;
use crate::record::strings_view;

verus! {

/// Whether `line` begins with `word`, byte for byte.
pub fn begins_with(line: &str, word: &str) -> (begins: bool)
    ensures
        begins == word.spec_bytes().is_prefix_of(line.spec_bytes()),
{
    let text = line.as_bytes();
    let start = word.as_bytes();
    if start.len() > text.len() {
        return false;
    }
    let mut i: usize = 0;
    while i < start.len()
        invariant
            text@ == line.spec_bytes(),
            start@ == word.spec_bytes(),
            i <= start.len() <= text.len(),
            forall|k: int| 0 <= k < i ==> start@[k] == text@[k],
        decreases start.len() - i,
    {
        if start[i] != text[i] {
            assert(text@.subrange(0, start@.len() as int)[i as int] != start@[i as int]);
            return false;
        }
        i += 1;
    }
    assert(text@.subrange(0, start@.len() as int) =~= start@);
    true
}

/// Whether `line` is `word`, byte for byte.
pub fn is_word(line: &str, word: &str) -> (same: bool)
    ensures
        same == (line.spec_bytes() == word.spec_bytes()),
{
    let same = line.as_bytes().len() == word.as_bytes().len() && begins_with(line, word);
    proof {
        let text = line.spec_bytes();
        let start = word.spec_bytes();
        if same {
            assert(text.subrange(0, start.len() as int) =~= text);
        }
        if text == start {
            assert(text.subrange(0, start.len() as int) =~= text);
        }
    }
    same
}

/// What a line asks for.
#[derive(Debug, Clone, Copy, PartialEq, Eq, Structural)]
pub enum CommandKind {
    /// `quit` or `q`: end the session.
    Quit,
    /// `help`: show the commands.
    Help,
    /// `cmp <output path>`: compare the actions of one artifact.
    Compare,
    /// `transitive-cmp <output path>` or `tcmp <output path>`: compare the
    /// artifact and everything its mismatched inputs lead to.
    TransitiveCompare,
    /// `edges <output path>`: the ends of that walk.
    Edges,
    /// `view <output path>`: show the actions of the artifact.
    View,
    /// `diff <output path>`: show how the actions of the artifact differ.
    Diff,
    /// Anything else.
    Unrecognized,
}

/// A line, read: what it asks for, and the byte of the line at which the
/// output path begins that it asks it for. A line that names no path has
/// that place at its end.
#[derive(Debug, Clone, Copy, PartialEq, Eq, Structural)]
pub struct Command {
    pub kind: CommandKind,
    pub argument_at: usize,
}

/// What a line of the given bytes asks for, and where its argument begins.
pub open spec fn command_of(line: Seq<u8>) -> (CommandKind, nat) {
    if line == "quit".spec_bytes() || line == "q".spec_bytes() {
        (CommandKind::Quit, line.len())
    } else if line == "help".spec_bytes() {
        (CommandKind::Help, line.len())
    } else if "cmp ".spec_bytes().is_prefix_of(line) {
        (CommandKind::Compare, "cmp ".spec_bytes().len())
    } else if "transitive-cmp ".spec_bytes().is_prefix_of(line) {
        (CommandKind::TransitiveCompare, "transitive-cmp ".spec_bytes().len())
    } else if "tcmp ".spec_bytes().is_prefix_of(line) {
        (CommandKind::TransitiveCompare, "tcmp ".spec_bytes().len())
    } else if "edges ".spec_bytes().is_prefix_of(line) {
        (CommandKind::Edges, "edges ".spec_bytes().len())
    } else if "view ".spec_bytes().is_prefix_of(line) {
        (CommandKind::View, "view ".spec_bytes().len())
    } else if "diff ".spec_bytes().is_prefix_of(line) {
        (CommandKind::Diff, "diff ".spec_bytes().len())
    } else {
        (CommandKind::Unrecognized, line.len())
    }
}

/// Reads a line.
pub fn parse_command(line: &str) -> (command: Command)
    ensures
        command.kind == command_of(line.spec_bytes()).0,
        command.argument_at == command_of(line.spec_bytes()).1,
        command.argument_at <= line.spec_bytes().len(),
{
    if is_word(line, "quit") || is_word(line, "q") {
        Command { kind: CommandKind::Quit, argument_at: line.as_bytes().len() }
    } else if is_word(line, "help") {
        Command { kind: CommandKind::Help, argument_at: line.as_bytes().len() }
    } else if begins_with(line, "cmp ") {
        Command { kind: CommandKind::Compare, argument_at: "cmp ".as_bytes().len() }
    } else if begins_with(line, "transitive-cmp ") {
        Command {
            kind: CommandKind::TransitiveCompare,
            argument_at: "transitive-cmp ".as_bytes().len(),
        }
    } else if begins_with(line, "tcmp ") {
        Command { kind: CommandKind::TransitiveCompare, argument_at: "tcmp ".as_bytes().len() }
    } else if begins_with(line, "edges ") {
        Command { kind: CommandKind::Edges, argument_at: "edges ".as_bytes().len() }
    } else if begins_with(line, "view ") {
        Command { kind: CommandKind::View, argument_at: "view ".as_bytes().len() }
    } else if begins_with(line, "diff ") {
        Command { kind: CommandKind::Diff, argument_at: "diff ".as_bytes().len() }
    } else {
        Command { kind: CommandKind::Unrecognized, argument_at: line.as_bytes().len() }
    }
}

/// The names of the commands, in the order in which they are offered.
pub open spec fn command_names() -> Seq<&'static str> {
    seq!["quit", "help", "cmp", "transitive-cmp", "tcmp", "edges", "view", "diff"]
}

/// The test of a command name that begins with the given bytes.
pub open spec fn begins_like(start: Seq<u8>) -> spec_fn(&'static str) -> bool {
    |name: &'static str| start.is_prefix_of(name.spec_bytes())
}

/// The `i`-th command name.
pub fn command_name(i: usize) -> (name: &'static str)
    requires
        i < 8,
    ensures
        name == command_names()[i as int],
{
    if i == 0 {
        "quit"
    } else if i == 1 {
        "help"
    } else if i == 2 {
        "cmp"
    } else if i == 3 {
        "transitive-cmp"
    } else if i == 4 {
        "tcmp"
    } else if i == 5 {
        "edges"
    } else if i == 6 {
        "view"
    } else {
        "diff"
    }
}

/// The command names that begin with what has been typed of a line, for
/// completing it.
pub fn commands_beginning_with(typed: &str) -> (names: Vec<&'static str>)
    ensures
        names@ == command_names().filter(begins_like(typed.spec_bytes())),
{
    let ghost all = command_names();
    let ghost fits = begins_like(typed.spec_bytes());
    let mut names: Vec<&'static str> = Vec::new();
    let mut i: usize = 0;
    proof {
        reveal(Seq::filter);
        assert(all.take(0) =~= Seq::<&'static str>::empty());
    }
    while i < 8
        invariant
            i <= 8,
            all == command_names(),
            fits == begins_like(typed.spec_bytes()),
            names@ == all.take(i as int).filter(fits),
        decreases 8 - i,
    {
        let name = command_name(i);
        proof {
            reveal(Seq::filter);
            let upto = all.take(i + 1);
            assert(upto.drop_last() =~= all.take(i as int));
            assert(upto.last() == name);
        }
        if begins_with(name, typed) {
            names.push(name);
        }
        i += 1;
    }
    assert(all.take(8) =~= all);
    names
}

/// Whether one of the paths is longer than the twenty bytes that a log's
/// name is shown in.
pub open spec fn some_path_is_long(paths: Seq<String>) -> bool {
    exists|i: int| 0 <= i < paths.len() && vstd::utf8::encode_utf8((#[trigger] paths[i])@).len() > 20
}

/// Whether the logs are better shown by their file names than by their
/// paths: a path is too long to show, and the file names alone tell the logs
/// apart.
pub fn file_names_serve(paths: &Vec<String>, file_names: &Vec<String>) -> (serve: bool)
    ensures
        serve == (some_path_is_long(paths@) && strings_view(file_names@).no_duplicates()),
{
    let mut long = false;
    let mut i: usize = 0;
    while i < paths.len() && !long
        invariant
            i <= paths.len(),
            long ==> some_path_is_long(paths@),
            !long ==> forall|k: int|
                0 <= k < i ==> vstd::utf8::encode_utf8((#[trigger] paths@[k])@).len() <= 20,
        decreases paths.len() - i,
    {
        if paths[i].as_str().as_bytes().len() > 20 {
            long = true;
        }
        i += 1;
    }
    if !long {
        return false;
    }
    let ghost names = strings_view(file_names@);
    let mut seen = NameTable::new();
    let mut j: usize = 0;
    while j < file_names.len()
        invariant
            j <= file_names.len(),
            names == strings_view(file_names@),
            seen.wf(),
            seen@ == names.take(j as int),
            long,
            some_path_is_long(paths@),
        decreases file_names.len() - j,
    {
        if seen.find(&file_names[j]).is_some() {
            proof {
                let before = choose|k: int| 0 <= k < j && seen@[k] == names[j as int];
                assert(names[before] == names[j as int]);
            }
            return false;
        }
        seen.push(file_names[j].clone());
        assert(seen@ =~= names.take(j + 1));
        j += 1;
    }
    proof {
        seen.lemma_distinct();
        assert(names.take(j as int) =~= names);
    }
    true
}

} // verus!
