//! A session with the directory: what each line of input does to the
//! directory, what is answered, and how the answer reads.
//!
//! The session itself does no input or output. Its caller reads a line,
//! hands it to [`respond`] together with the directory, prints the lines of
//! the reply, and stops after the reply that ends the session. Input that
//! has come to its end is handed over as `None` and ends the session as
//! `quit` does.

use crate::command::{command_of, is_add, parse_command, Command, CommandText};
use crate::directory::{
    departments_of, is_full_listing, is_staff, lemma_full_listing_is_in_order, listing_texts,
    members_of, with_employee, Directory, Listing, ListingText, Staff,
};
use crate::order::{is_sorted, lemma_sorted_names, sorted_names};
use vstd::seq_lib::to_multiset_build;
use crate::text::{starts_with, to_chars, trim, trim_range};
use vstd::prelude::*;
use vstd::string::*;

verus! {

/// The answer to one line of input.
#[derive(Debug, Clone, PartialEq, Eq)]
pub enum Reply {
    /// `name` was added to `department`.
    Added { name: String, department: String },
    /// The names of `department`, in alphabetical order.
    Department { department: String, names: Vec<String> },
    /// The directory has no department of this name.
    NotFound { department: String },
    /// Every department with its names, all in alphabetical order.
    Everyone { listings: Vec<Listing> },
    /// The session is over.
    Exiting,
    /// The line began as an `Add` command and could not be read as one.
    MalformedAdd,
    /// The line is no command.
    Invalid,
}

/// A reply with its texts as sequences of characters.
pub enum ReplyText {
    Added { name: Seq<char>, department: Seq<char> },
    Department { department: Seq<char>, names: Seq<Seq<char>> },
    NotFound { department: Seq<char> },
    Everyone { listings: Seq<ListingText> },
    Exiting,
    MalformedAdd,
    Invalid,
}

impl View for Reply {
    type V = ReplyText;

    open spec fn view(&self) -> ReplyText {
        match self {
            Reply::Added { name, department } => ReplyText::Added {
                name: name@,
                department: department@,
            },
            Reply::Department { department, names } => ReplyText::Department {
                department: department@,
                names: names.deep_view(),
            },
            Reply::NotFound { department } => ReplyText::NotFound { department: department@ },
            Reply::Everyone { listings } => ReplyText::Everyone {
                listings: listing_texts(listings@),
            },
            Reply::Exiting => ReplyText::Exiting,
            Reply::MalformedAdd => ReplyText::MalformedAdd,
            Reply::Invalid => ReplyText::Invalid,
        }
    }
}

/// What the directory holds after `command`: only adding changes it.
pub open spec fn staff_after(staff: Staff, command: CommandText) -> Staff {
    match command {
        CommandText::AddEmployee { name, department } => with_employee(staff, name, department),
        _ => staff,
    }
}

/// Whether `reply` is the answer to `command` on a directory that holds
/// `staff`.
pub open spec fn answers(staff: Staff, command: CommandText, reply: ReplyText) -> bool {
    match command {
        CommandText::AddEmployee { name, department } => reply == (ReplyText::Added {
            name,
            department,
        }),
        CommandText::ListDepartment { department } => if staff.contains_key(department) {
            reply == (ReplyText::Department { department, names: sorted_names(staff[department]) })
        } else {
            reply == (ReplyText::NotFound { department })
        },
        CommandText::ListAll => reply matches ReplyText::Everyone { listings } && is_full_listing(
            staff,
            listings,
        ),
        CommandText::Quit => reply == ReplyText::Exiting,
        CommandText::Invalid => reply == ReplyText::Invalid,
    }
}

/// Whether `reply` is the answer to the input `line` on a directory that
/// holds `staff`. The line is trimmed and read as a command. One that begins
/// as an `Add` command and cannot be read as one has an answer of its own;
/// every other line is answered as its command is.
pub open spec fn answers_line(staff: Staff, line: Seq<char>, reply: ReplyText) -> bool {
    let command = command_of(trim(line));
    if command is Invalid && is_add(trim(line)) {
        reply == ReplyText::MalformedAdd
    } else {
        answers(staff, command, reply)
    }
}

/// The lines that show one department: a heading, then one name a line.
pub open spec fn department_lines(department: Seq<char>, names: Seq<Seq<char>>) -> Seq<Seq<char>> {
    seq!["People in "@ + department + ":"@] + names
}

/// The lines that show the departments of `listings`, one after the other.
pub open spec fn listing_lines(listings: Seq<ListingText>) -> Seq<Seq<char>>
    decreases listings.len(),
{
    if listings.len() == 0 {
        Seq::empty()
    } else {
        listing_lines(listings.drop_last()) + department_lines(
            listings.last().department,
            listings.last().names,
        )
    }
}

/// The lines in which `reply` is shown.
pub open spec fn lines_of(reply: ReplyText) -> Seq<Seq<char>> {
    match reply {
        ReplyText::Added { name, department } => seq!["Added "@ + name + " to "@ + department],
        ReplyText::Department { department, names } => department_lines(department, names),
        ReplyText::NotFound { department } => seq![
            "Department: "@ + department + " not found"@,
        ],
        ReplyText::Everyone { listings } => seq!["Listing by departments: "@] + listing_lines(
            listings,
        ),
        ReplyText::Exiting => seq!["Exiting"@],
        ReplyText::MalformedAdd => seq!["could not parse Add command."@],
        ReplyText::Invalid => seq!["Invalid command."@],
    }
}

/// Every command keeps the contents of a directory well formed.
pub proof fn lemma_staff_stays_staff(staff: Staff, command: CommandText)
    requires
        is_staff(staff),
    ensures
        is_staff(staff_after(staff, command)),
{
}

/// No command takes anything out of a directory: every department stays,
/// and its list after the command begins with its list before.
pub proof fn lemma_staff_only_grows(staff: Staff, command: CommandText, department: Seq<char>)
    requires
        staff.contains_key(department),
    ensures
        staff_after(staff, command).contains_key(department),
        staff[department].is_prefix_of(staff_after(staff, command)[department]),
{
    let after = staff_after(staff, command)[department];
    assert(staff[department] =~= after.subrange(0, staff[department].len() as int));
}

/// After a name was added to a department, the list of that department
/// shows the name once more than it was there before, and every other name
/// as often as before; and the list is in alphabetical order, in whatever
/// order the names were added.
pub proof fn lemma_added_name_is_listed(
    staff: Staff,
    name: Seq<char>,
    department: Seq<char>,
    reply: ReplyText,
)
    requires
        answers(
            staff_after(staff, (CommandText::AddEmployee { name, department })),
            (CommandText::ListDepartment { department }),
            reply,
        ),
    ensures
        (reply matches ReplyText::Department { department: listed, names } && {
            &&& listed == department
            &&& is_sorted(names)
            &&& names.to_multiset() == members_of(staff, department).to_multiset().insert(name)
            &&& names.to_multiset().count(name) == members_of(staff, department).to_multiset().count(
                name,
            ) + 1
        }),
{
    let members = members_of(staff, department);
    lemma_sorted_names(members.push(name));
    to_multiset_build(members, name);
}

/// The answer to `List all` shows each department of the directory once,
/// the departments in ascending alphabetical order, and with each the names
/// that were added to it, in ascending alphabetical order.
pub proof fn lemma_list_all_is_in_order(staff: Staff, reply: ReplyText)
    requires
        answers(staff, CommandText::ListAll, reply),
    ensures
        (reply matches ReplyText::Everyone { listings } && {
            &&& is_sorted(departments_of(listings))
            &&& departments_of(listings).no_duplicates()
            &&& departments_of(listings).to_set() == staff.dom()
            &&& forall|i: int|
                0 <= i < listings.len() ==> {
                    &&& is_sorted((#[trigger] listings[i]).names)
                    &&& listings[i].names.to_multiset() == staff[listings[i].department].to_multiset()
                }
        }),
{
    match reply {
        ReplyText::Everyone { listings } => {
            lemma_full_listing_is_in_order(staff, listings);
        },
        _ => {},
    }
}

/// Listing a department that the directory does not have changes nothing
/// and is answered by saying so, and by nothing else.
pub proof fn lemma_unknown_department(staff: Staff, department: Seq<char>, reply: ReplyText)
    requires
        !staff.contains_key(department),
    ensures
        staff_after(staff, (CommandText::ListDepartment { department })) == staff,
        answers(staff, (CommandText::ListDepartment { department }), reply) <==> reply
            == (ReplyText::NotFound { department }),
{
}

/// Appends the lines that show one department to `lines`.
fn push_department_lines(lines: &mut Vec<String>, department: &String, names: &Vec<String>)
    ensures
        final(lines).deep_view() == old(lines).deep_view() + department_lines(
            department@,
            names.deep_view(),
        ),
{
    let ghost before = lines.deep_view();
    let mut heading = String::from_str("People in ");
    heading.append(department.as_str());
    heading.append(":");
    lines.push(heading);
    let mut i: usize = 0;
    while i < names.len()
        invariant
            i <= names.len(),
            lines.deep_view() == before + seq!["People in "@ + department@ + ":"@]
                + names.deep_view().take(i as int),
        decreases names.len() - i,
    {
        let ghost shown = lines.deep_view();
        lines.push(names[i].clone());
        assert(lines.deep_view() =~= shown.push(names@[i as int]@));
        assert(names.deep_view().take(i + 1) =~= names.deep_view().take(i as int).push(
            names@[i as int]@,
        ));
        i += 1;
    }
    assert(names.deep_view().take(i as int) == names.deep_view());
}

impl Reply {
    /// Tells whether the session is over with this reply.
    pub fn ends_session(&self) -> (over: bool)
        ensures
            over == (self@ is Exiting),
    {
        match self {
            Reply::Exiting => true,
            _ => false,
        }
    }

    /// The lines in which the reply is shown, in the order in which they
    /// are to be printed.
    pub fn lines(&self) -> (lines: Vec<String>)
        ensures
            lines.deep_view() == lines_of(self@),
    {
        let mut lines: Vec<String> = Vec::new();
        match self {
            Reply::Added { name, department } => {
                let mut line = String::from_str("Added ");
                line.append(name.as_str());
                line.append(" to ");
                line.append(department.as_str());
                lines.push(line);
            },
            Reply::Department { department, names } => {
                push_department_lines(&mut lines, department, names);
            },
            Reply::NotFound { department } => {
                let mut line = String::from_str("Department: ");
                line.append(department.as_str());
                line.append(" not found");
                lines.push(line);
            },
            Reply::Everyone { listings } => {
                lines.push(String::from_str("Listing by departments: "));
                let mut i: usize = 0;
                while i < listings.len()
                    invariant
                        i <= listings.len(),
                        lines.deep_view() == seq!["Listing by departments: "@] + listing_lines(
                            listing_texts(listings@).take(i as int),
                        ),
                    decreases listings.len() - i,
                {
                    push_department_lines(&mut lines, &listings[i].department, &listings[i].names);
                    proof {
                        let texts = listing_texts(listings@);
                        assert(texts.take(i + 1).drop_last() == texts.take(i as int));
                    }
                    i += 1;
                }
                assert(listing_texts(listings@).take(i as int) == listing_texts(listings@));
            },
            Reply::Exiting => {
                lines.push(String::from_str("Exiting"));
            },
            Reply::MalformedAdd => {
                lines.push(String::from_str("could not parse Add command."));
            },
            Reply::Invalid => {
                lines.push(String::from_str("Invalid command."));
            },
        }
        lines
    }
}

/// Carries out `command` on `directory` and returns the answer.
pub fn execute(directory: &mut Directory, command: Command) -> (reply: Reply)
    ensures
        final(directory)@ == staff_after(old(directory)@, command@),
        answers(old(directory)@, command@, reply@),
{
    match command {
        Command::AddEmployee { name, department } => {
            directory.add(name.as_str(), department.as_str());
            Reply::Added { name, department }
        },
        Command::ListDepartment { department } => {
            match directory.list_department(department.as_str()) {
                Some(names) => Reply::Department { department, names },
                None => Reply::NotFound { department },
            }
        },
        Command::ListAll => Reply::Everyone { listings: directory.list_all() },
        Command::Quit => Reply::Exiting,
        Command::Invalid => Reply::Invalid,
    }
}

/// Answers one step of input: a line as it was read, or `None` where the
/// input has come to its end, which ends the session.
pub fn respond(directory: &mut Directory, input: Option<&str>) -> (reply: Reply)
    ensures
        (match input {
            Some(line) => {
                &&& final(directory)@ == staff_after(old(directory)@, command_of(trim(line@)))
                &&& answers_line(old(directory)@, line@, reply@)
            },
            None => final(directory)@ == old(directory)@ && reply@ == ReplyText::Exiting,
        }),
{
    match input {
        None => Reply::Exiting,
        Some(line) => {
            let chars = to_chars(line);
            let (from, to) = trim_range(&chars, 0, chars.len());
            assert(chars@.subrange(0, chars@.len() as int) == chars@);
            let trimmed = line.substring_char(from, to);
            let command = parse_command(trimmed);
            match command {
                Command::Invalid => {
                    if starts_with(&to_chars(trimmed), &to_chars("Add ")) {
                        Reply::MalformedAdd
                    } else {
                        Reply::Invalid
                    }
                },
                _ => execute(directory, command),
            }
        },
    }
}

} // verus!
