//! The commands of the directory and how a line of text is read as one.
//!
//! A line is read in a fixed order of cases, the first that fits deciding:
//! `quit` in any mix of upper and lower case; `Add <name> to <department>`;
//! `List all`; `List <department>`; anything else is invalid.

use crate::text::{
    eq_ignore_ascii_case, equals_ignoring_ascii_case, find_from, find_in, lemma_find_from,
    occurs_at, starts_with, to_chars, trim, trim_range,
};
use vstd::prelude::*;
use vstd::string::*;

verus! {

/// One command to the directory.
#[derive(Debug, Clone, PartialEq, Eq)]
pub enum Command {
    /// Put `name` on the list of `department`.
    AddEmployee { name: String, department: String },
    /// Show the names of `department`.
    ListDepartment { department: String },
    /// Show every department with its names.
    ListAll,
    /// End the session.
    Quit,
    /// A line that is no command.
    Invalid,
}

/// A command with its texts as sequences of characters.
pub enum CommandText {
    AddEmployee { name: Seq<char>, department: Seq<char> },
    ListDepartment { department: Seq<char> },
    ListAll,
    Quit,
    Invalid,
}

impl View for Command {
    type V = CommandText;

    open spec fn view(&self) -> CommandText {
        match self {
            Command::AddEmployee { name, department } => CommandText::AddEmployee {
                name: name@,
                department: department@,
            },
            Command::ListDepartment { department } => CommandText::ListDepartment {
                department: department@,
            },
            Command::ListAll => CommandText::ListAll,
            Command::Quit => CommandText::Quit,
            Command::Invalid => CommandText::Invalid,
        }
    }
}

/// Whether `line` asks to end the session.
pub open spec fn is_quit(line: Seq<char>) -> bool {
    eq_ignore_ascii_case(line, "quit"@)
}

/// Whether `line` begins as an `Add` command does.
pub open spec fn is_add(line: Seq<char>) -> bool {
    "Add "@.is_prefix_of(line)
}

/// Whether `line` begins as a `List` command does.
pub open spec fn is_list(line: Seq<char>) -> bool {
    "List "@.is_prefix_of(line)
}

/// Whether `line` begins with `List all`.
pub open spec fn is_list_all(line: Seq<char>) -> bool {
    "List all"@.is_prefix_of(line)
}

/// The name and the department of an `Add` line: what stands between the
/// prefix and the first ` to ` behind it, and what stands after that ` to `,
/// both trimmed. A line without ` to ` behind the prefix names neither.
pub open spec fn add_fields(line: Seq<char>) -> Option<(Seq<char>, Seq<char>)> {
    match find_from(line, " to "@, "Add "@.len() as int) {
        Some(at) => Some(
            (
                trim(line.subrange("Add "@.len() as int, at)),
                trim(line.subrange(at + " to "@.len(), line.len() as int)),
            ),
        ),
        None => None,
    }
}

/// The department of a `List` line: what stands behind the prefix, trimmed.
/// A line without the prefix names none.
pub open spec fn list_field(line: Seq<char>) -> Option<Seq<char>> {
    if is_list(line) {
        Some(trim(line.subrange("List "@.len() as int, line.len() as int)))
    } else {
        None
    }
}

/// The command that `line` is read as.
pub open spec fn command_of(line: Seq<char>) -> CommandText {
    if is_quit(line) {
        CommandText::Quit
    } else if is_add(line) {
        match add_fields(line) {
            Some((name, department)) => CommandText::AddEmployee { name, department },
            None => CommandText::Invalid,
        }
    } else if is_list_all(line) {
        CommandText::ListAll
    } else if is_list(line) {
        CommandText::ListDepartment { department: list_field(line).unwrap() }
    } else {
        CommandText::Invalid
    }
}

/// Every line is read as exactly one command, and which one is decided by
/// the first case that fits.
pub proof fn lemma_every_line_is_one_command(line: Seq<char>)
    ensures
        command_of(line) is Quit <==> is_quit(line),
        command_of(line) is AddEmployee <==> !is_quit(line) && is_add(line) && add_fields(
            line,
        ) is Some,
        command_of(line) is ListAll <==> !is_quit(line) && !is_add(line) && is_list_all(line),
        command_of(line) is ListDepartment <==> !is_quit(line) && !is_add(line) && !is_list_all(
            line,
        ) && is_list(line),
        command_of(line) is Invalid <==> !is_quit(line) && (if is_add(line) {
            add_fields(line) is None
        } else {
            !is_list(line)
        }),
{
    if is_list_all(line) {
        reveal_strlit("List all");
        reveal_strlit("List ");
        assert("List "@ =~= line.subrange(0, 5));
    }
}

/// The line `Add <name> to <department>` is read as the command to add that
/// name to that department, where neither has white space at its ends and
/// no ` to ` begins in the line before the one that follows the name.
pub proof fn lemma_add_line_is_read(name: Seq<char>, department: Seq<char>)
    requires
        trim(name) == name,
        trim(department) == department,
        forall|at: int| 0 <= at < name.len() ==> !occurs_at(name + " to "@ + department, " to "@, at),
    ensures
        command_of("Add "@ + name + " to "@ + department) == (CommandText::AddEmployee {
            name,
            department,
        }),
{
    reveal_strlit("Add ");
    reveal_strlit(" to ");
    reveal_strlit("quit");
    let rest = name + " to "@ + department;
    let line = "Add "@ + name + " to "@ + department;
    let end = 4 + name.len() as int;
    assert(line =~= "Add "@ + rest);
    assert("Add "@ =~= line.subrange(0, 4));
    assert(line.subrange(end, end + 4) =~= " to "@);
    assert forall|at: int| 4 <= at < end implies !occurs_at(line, " to "@, at) by {
        assert(!occurs_at(rest, " to "@, at - 4));
        if at + 4 <= line.len() {
            assert(line.subrange(at, at + 4) =~= rest.subrange(at - 4, at));
        }
    }
    assert(occurs_at(line, " to "@, end));
    lemma_find_from(line, " to "@, 4);
    assert(find_from(line, " to "@, 4) == Some(end));
    assert(line.subrange(4, end) =~= name);
    assert(line.subrange(end + 4, line.len() as int) =~= department);
}

/// The line `List <department>` is read as the command to list that
/// department, where the department has no white space at its ends and does
/// not begin with `all`.
pub proof fn lemma_list_line_is_read(department: Seq<char>)
    requires
        trim(department) == department,
        !"all"@.is_prefix_of(department),
    ensures
        command_of("List "@ + department) == (CommandText::ListDepartment { department }),
{
    reveal_strlit("Add ");
    reveal_strlit("List ");
    reveal_strlit("List all");
    reveal_strlit("all");
    reveal_strlit("quit");
    let line = "List "@ + department;
    assert("List "@ =~= line.subrange(0, 5));
    assert(line.subrange(5, line.len() as int) =~= department);
    assert(!is_add(line)) by {
        if is_add(line) {
            assert(line.subrange(0, 4)[0] == 'A');
        }
    }
    assert(!is_quit(line)) by {
        if is_quit(line) {
            assert(line[0] == 'L');
        }
    }
    assert(!is_list_all(line)) by {
        if is_list_all(line) {
            assert("all"@ =~= department.subrange(0, 3)) by {
                assert forall|i: int| 0 <= i < 3 implies "all"@[i] == department[i] by {
                    assert(line.subrange(0, 8)[5 + i] == "List all"@[5 + i]);
                }
            }
        }
    }
}

/// The positions of the name and of the department in the characters of an
/// `Add` line.
fn add_field_ranges(chars: &Vec<char>) -> (r: Option<((usize, usize), (usize, usize))>)
    requires
        is_add(chars@),
    ensures
        (match r {
            Some((name, department)) => {
                &&& name.0 <= name.1 <= department.0 <= department.1 <= chars.len()
                &&& add_fields(chars@) == Some(
                    (
                        chars@.subrange(name.0 as int, name.1 as int),
                        chars@.subrange(department.0 as int, department.1 as int),
                    ),
                )
            },
            None => add_fields(chars@) is None,
        }),
{
    proof {
        reveal_strlit("Add ");
        reveal_strlit(" to ");
    }
    let separator = to_chars(" to ");
    match find_in(chars, &separator, 4) {
        Some(at) => {
            let name = trim_range(chars, 4, at);
            let department = trim_range(chars, at + 4, chars.len());
            Some((name, department))
        },
        None => None,
    }
}

/// Reads the name and the department out of an `Add` line. Returns nothing
/// where no ` to ` follows the prefix.
pub fn parse_add_command(command: &str) -> (r: Option<(&str, &str)>)
    requires
        is_add(command@),
    ensures
        (match r {
            Some((name, department)) => add_fields(command@) == Some((name@, department@)),
            None => add_fields(command@) is None,
        }),
{
    let chars = to_chars(command);
    match add_field_ranges(&chars) {
        Some((name, department)) => Some(
            (
                command.substring_char(name.0, name.1),
                command.substring_char(department.0, department.1),
            ),
        ),
        None => None,
    }
}

/// Reads the department out of a `List` line. Returns nothing where the
/// line does not begin with `List `.
pub fn parse_list_command(command: &str) -> (r: Option<&str>)
    ensures
        (match r {
            Some(department) => list_field(command@) == Some(department@),
            None => list_field(command@) is None,
        }),
{
    let chars = to_chars(command);
    let prefix = to_chars("List ");
    if starts_with(&chars, &prefix) {
        proof {
            reveal_strlit("List ");
        }
        let department = trim_range(&chars, 5, chars.len());
        Some(command.substring_char(department.0, department.1))
    } else {
        None
    }
}

/// Reads `line` as a command.
pub fn parse_command(line: &str) -> (command: Command)
    ensures
        command@ == command_of(line@),
{
    let chars = to_chars(line);
    if equals_ignoring_ascii_case(&chars, &to_chars("quit")) {
        Command::Quit
    } else if starts_with(&chars, &to_chars("Add ")) {
        match add_field_ranges(&chars) {
            Some((name, department)) => Command::AddEmployee {
                name: line.substring_char(name.0, name.1).to_owned(),
                department: line.substring_char(department.0, department.1).to_owned(),
            },
            None => Command::Invalid,
        }
    } else if starts_with(&chars, &to_chars("List all")) {
        Command::ListAll
    } else {
        match parse_list_command(line) {
            Some(department) => Command::ListDepartment { department: department.to_owned() },
            None => Command::Invalid,
        }
    }
}

} // verus!
