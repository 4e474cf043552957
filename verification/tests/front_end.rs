use lcmds::front::add_command;
use lcmds::front::remove_command;
use lcmds::front::render_listing;
use lcmds::store::encode;
use lcmds::store::parse;
use lcmds::Command;
use lcmds::CommandList;

fn entry(cmd: &str, desc: &str) -> Command {
    Command::new(String::from(cmd), String::from(desc))
}

#[test]
fn listing_an_empty_collection_yields_no_text() {
    // The front end reports that nothing is stored instead of printing a bare
    // header.
    assert!(render_listing(&CommandList::new()).is_none());
}

#[test]
fn listing_shows_header_and_every_entry_in_order() {
    let mut list = CommandList::new();
    assert!(add_command(&mut list, entry("ls", "list files")));
    assert!(add_command(&mut list, entry("pwd", "print working directory")));
    let text = render_listing(&list).unwrap();
    assert_eq!(
        text,
        "Commands:\n        command: ls\n        desc: list files\n        \
         \n        command: pwd\n        desc: print working directory\n        "
    );
}

#[test]
fn one_session_over_the_store_text() {
    // The whole life of one entry, with the persisted text standing in for
    // the store file.
    let file = String::new();

    // add -c "ls" -d "list files"
    let mut list = parse(&file).unwrap();
    assert!(add_command(&mut list, entry("ls", "list files")));
    let file = encode(&list);
    assert_eq!(file, "[[commands]]\ncmd = \"ls\"\ndesc = \"list files\"\n\n");

    // add -c "ls" -d "different desc" is rejected; the file does not change
    let mut list = parse(&file).unwrap();
    assert!(!add_command(&mut list, entry("ls", "different desc")));
    assert_eq!(encode(&list), file);

    // get ls
    let list = parse(&file).unwrap();
    let found = list.find("ls").unwrap();
    assert_eq!(found.cmd, "ls");
    assert_eq!(found.desc, "list files");

    // remove ls
    let mut list = parse(&file).unwrap();
    assert!(remove_command(&mut list, "ls"));
    let file = encode(&list);
    assert_eq!(file, "");

    // get ls now finds nothing
    let list = parse(&file).unwrap();
    assert!(list.find("ls").is_none());
}
