use lcmds::front::add_command;
use lcmds::front::remove_command;
use lcmds::Command;
use lcmds::CommandList;

fn entry(cmd: &str, desc: &str) -> Command {
    Command::new(String::from(cmd), String::from(desc))
}

#[test]
fn new_collection_is_empty() {
    let list = CommandList::new();
    assert!(list.is_empty());
    assert_eq!(list.iter().len(), 0);
}

#[test]
fn distinct_adds_all_stored_and_found() {
    let mut list = CommandList::new();
    assert!(add_command(&mut list, entry("ls", "list files")));
    assert!(add_command(&mut list, entry("pwd", "print working directory")));
    assert!(add_command(&mut list, entry("cd", "change directory")));
    assert_eq!(list.iter().len(), 3);
    for name in ["ls", "pwd", "cd"] {
        assert!(list.find(name).is_some());
    }
}

#[test]
fn insertion_order_is_preserved() {
    let mut list = CommandList::new();
    assert!(add_command(&mut list, entry("b", "second letter")));
    assert!(add_command(&mut list, entry("a", "first letter")));
    assert!(add_command(&mut list, entry("c", "third letter")));
    let names: Vec<&str> = list.iter().iter().map(|c| c.cmd.as_str()).collect();
    assert_eq!(names, vec!["b", "a", "c"]);
}

#[test]
fn duplicate_add_is_rejected_and_changes_nothing() {
    let mut list = CommandList::new();
    assert!(add_command(&mut list, entry("ls", "list files")));
    assert!(!add_command(&mut list, entry("ls", "a different desc")));
    assert_eq!(list.iter().len(), 1);
    let found = list.find("ls").unwrap();
    assert_eq!(found.cmd, "ls");
    assert_eq!(found.desc, "list files");
}

#[test]
fn remove_missing_reports_failure_and_changes_nothing() {
    let mut list = CommandList::new();
    assert!(!remove_command(&mut list, "ls"));
    assert!(add_command(&mut list, entry("ls", "list files")));
    assert!(!remove_command(&mut list, "pwd"));
    assert_eq!(list.iter().len(), 1);
    assert_eq!(list.find("ls").unwrap().desc, "list files");
}

#[test]
fn remove_existing_shrinks_by_one_and_find_fails_afterwards() {
    let mut list = CommandList::new();
    assert!(add_command(&mut list, entry("ls", "list files")));
    assert!(add_command(&mut list, entry("pwd", "print working directory")));
    assert!(remove_command(&mut list, "ls"));
    assert_eq!(list.iter().len(), 1);
    assert!(list.find("ls").is_none());
    assert!(list.find("pwd").is_some());
}

#[test]
fn contains_matches_on_name_only() {
    let mut list = CommandList::new();
    assert!(add_command(&mut list, entry("ls", "list files")));
    assert!(list.contains(&entry("ls", "something else entirely")));
    assert!(!list.contains(&entry("cat", "list files")));
}

#[test]
fn equality_of_entries_ignores_description() {
    assert_eq!(entry("ls", "one"), entry("ls", "two"));
    assert_ne!(entry("ls", "one"), entry("cat", "one"));
}

#[test]
fn find_returns_first_match() {
    let mut list = CommandList::new();
    // `push` itself performs no duplicate check; duplicates are possible when
    // the front end's `contains` check is bypassed.
    list.push(entry("ls", "first"));
    list.push(entry("ls", "second"));
    assert_eq!(list.find("ls").unwrap().desc, "first");
}

#[test]
fn remove_removes_first_match_only() {
    let mut list = CommandList::new();
    list.push(entry("ls", "first"));
    list.push(entry("ls", "second"));
    assert!(list.remove("ls"));
    assert_eq!(list.iter().len(), 1);
    assert_eq!(list.find("ls").unwrap().desc, "second");
}

#[test]
fn render_shows_both_fields() {
    let block = entry("ls", "list files").render();
    assert_eq!(block, "\n        command: ls\n        desc: list files\n        ");
}

#[test]
fn empty_name_is_a_valid_distinct_key() {
    let mut list = CommandList::new();
    assert!(add_command(&mut list, entry("", "nameless")));
    assert!(add_command(&mut list, entry("ls", "list files")));
    assert!(!add_command(&mut list, entry("", "still nameless")));
    assert_eq!(list.find("").unwrap().desc, "nameless");
    assert!(remove_command(&mut list, ""));
    assert!(list.find("").is_none());
}
