use roster::command::Command;
use roster::directory::{Directory, Listing};
use roster::session::{execute, respond, Reply};

fn names(list: &[&str]) -> Vec<String> {
    list.iter().map(|s| s.to_string()).collect()
}

fn said(directory: &mut Directory, line: &str) -> Vec<String> {
    respond(directory, Some(line)).lines()
}

#[test]
fn a_session_from_the_first_line_to_quit() {
    let mut directory = Directory::new();
    let input = [
        "Add Sally to Engineering",
        "Add Amir to Sales",
        "Add Omar to Engineering",
        "List Engineering",
        "List all",
        "List Marketing",
        "quit",
    ];
    let mut output: Vec<Vec<String>> = Vec::new();
    let mut over = Vec::new();
    for line in input {
        let reply = respond(&mut directory, Some(line));
        over.push(reply.ends_session());
        output.push(reply.lines());
    }
    assert_eq!(output[0], names(&["Added Sally to Engineering"]));
    assert_eq!(output[1], names(&["Added Amir to Sales"]));
    assert_eq!(output[2], names(&["Added Omar to Engineering"]));
    assert_eq!(output[3], names(&["People in Engineering:", "Omar", "Sally"]));
    assert_eq!(
        output[4],
        names(&["Listing by departments: ", "People in Engineering:", "Omar", "Sally", "People in Sales:", "Amir"])
    );
    assert_eq!(output[5], names(&["Department: Marketing not found"]));
    assert_eq!(output[6], names(&["Exiting"]));
    assert_eq!(over, vec![false, false, false, false, false, false, true]);
}

#[test]
fn lines_are_trimmed_before_they_are_read() {
    let mut directory = Directory::new();
    assert_eq!(said(&mut directory, "  Add Sally to Engineering \n"), names(&["Added Sally to Engineering"]));
    assert_eq!(said(&mut directory, "\tList Engineering\r\n"), names(&["People in Engineering:", "Sally"]));
    assert_eq!(said(&mut directory, " QUIT \n"), names(&["Exiting"]));
}

#[test]
fn the_end_of_input_ends_the_session() {
    let mut directory = Directory::new();
    directory.add("Sally", "Sales");
    let reply = respond(&mut directory, None);
    assert_eq!(reply, Reply::Exiting);
    assert!(reply.ends_session());
    assert_eq!(reply.lines(), names(&["Exiting"]));
    assert_eq!(directory.list_department("Sales"), Some(names(&["Sally"])));
}

#[test]
fn an_empty_line_does_not_end_the_session() {
    let mut directory = Directory::new();
    let reply = respond(&mut directory, Some(""));
    assert_eq!(reply, Reply::Invalid);
    assert!(!reply.ends_session());
    let reply = respond(&mut directory, Some("\n"));
    assert_eq!(reply, Reply::Invalid);
}

#[test]
fn invalid_lines_change_nothing() {
    let mut directory = Directory::new();
    directory.add("Sally", "Sales");
    let before = directory.list_all();
    assert_eq!(said(&mut directory, "Remove Sally from Sales"), names(&["Invalid command."]));
    assert_eq!(said(&mut directory, "List"), names(&["Invalid command."]));
    assert_eq!(said(&mut directory, "add Amir to Sales"), names(&["Invalid command."]));
    assert_eq!(directory.list_all(), before);
}

#[test]
fn an_add_that_cannot_be_read_says_so_and_changes_nothing() {
    let mut directory = Directory::new();
    directory.add("Sally", "Sales");
    let before = directory.list_all();
    let reply = respond(&mut directory, Some("Add Amir"));
    assert_eq!(reply, Reply::MalformedAdd);
    assert!(!reply.ends_session());
    assert_eq!(reply.lines(), names(&["could not parse Add command."]));
    assert_eq!(said(&mut directory, "Add Amir into Sales"), names(&["could not parse Add command."]));
    assert_eq!(directory.list_all(), before);
}

#[test]
fn listing_an_unknown_department_changes_nothing() {
    let mut directory = Directory::new();
    directory.add("Sally", "Sales");
    let before = directory.list_all();
    let reply = respond(&mut directory, Some("List Marketing"));
    assert_eq!(reply, Reply::NotFound { department: "Marketing".to_string() });
    assert_eq!(reply.lines(), names(&["Department: Marketing not found"]));
    assert_eq!(directory.list_all(), before);
    assert_eq!(said(&mut directory, "List sales"), names(&["Department: sales not found"]));
}

#[test]
fn listing_all_of_an_empty_directory_shows_the_heading() {
    let mut directory = Directory::new();
    let reply = respond(&mut directory, Some("List all"));
    assert_eq!(reply, Reply::Everyone { listings: Vec::new() });
    assert_eq!(reply.lines(), names(&["Listing by departments: "]));
}

#[test]
fn execute_carries_out_each_command() {
    let mut directory = Directory::new();
    let add = Command::AddEmployee { name: "Sally".to_string(), department: "Sales".to_string() };
    assert_eq!(execute(&mut directory, add), Reply::Added { name: "Sally".to_string(), department: "Sales".to_string() });
    let list = Command::ListDepartment { department: "Sales".to_string() };
    assert_eq!(execute(&mut directory, list), Reply::Department { department: "Sales".to_string(), names: names(&["Sally"]) });
    let unknown = Command::ListDepartment { department: "Board".to_string() };
    assert_eq!(execute(&mut directory, unknown), Reply::NotFound { department: "Board".to_string() });
    let all = vec![Listing { department: "Sales".to_string(), names: names(&["Sally"]) }];
    assert_eq!(execute(&mut directory, Command::ListAll), Reply::Everyone { listings: all });
    assert_eq!(execute(&mut directory, Command::Invalid), Reply::Invalid);
    assert_eq!(execute(&mut directory, Command::Quit), Reply::Exiting);
}

#[test]
fn every_reply_has_its_lines() {
    let added = Reply::Added { name: "Zo\u{eb}".to_string(), department: "Caf\u{e9}".to_string() };
    assert_eq!(added.lines(), names(&["Added Zo\u{eb} to Caf\u{e9}"]));
    let department = Reply::Department { department: "Sales".to_string(), names: names(&["Amir", "Sally"]) };
    assert_eq!(department.lines(), names(&["People in Sales:", "Amir", "Sally"]));
    let everyone = Reply::Everyone {
        listings: vec![
            Listing { department: "A".to_string(), names: names(&["x", "y"]) },
            Listing { department: "B".to_string(), names: names(&["z"]) },
        ],
    };
    assert_eq!(everyone.lines(), names(&["Listing by departments: ", "People in A:", "x", "y", "People in B:", "z"]));
    assert_eq!(Reply::Invalid.lines(), names(&["Invalid command."]));
    assert_eq!(Reply::Exiting.lines(), names(&["Exiting"]));
}

#[test]
fn only_exiting_ends_the_session() {
    assert!(Reply::Exiting.ends_session());
    assert!(!Reply::Invalid.ends_session());
    assert!(!Reply::MalformedAdd.ends_session());
    assert!(!Reply::NotFound { department: String::new() }.ends_session());
    assert!(!Reply::Everyone { listings: Vec::new() }.ends_session());
}

#[test]
fn a_department_named_all_can_be_added_to_and_is_listed_with_the_rest() {
    let mut directory = Directory::new();
    assert_eq!(said(&mut directory, "Add Sally to all"), names(&["Added Sally to all"]));
    assert_eq!(said(&mut directory, "List all"), names(&["Listing by departments: ", "People in all:", "Sally"]));
    assert_eq!(said(&mut directory, "List  all"), names(&["People in all:", "Sally"]));
}
