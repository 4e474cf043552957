use lcmds::front::add_command;
use lcmds::front::remove_command;
use lcmds::store::encode;
use lcmds::store::parse;
use lcmds::Command;
use lcmds::CommandList;

fn entry(cmd: &str, desc: &str) -> Command {
    Command::new(String::from(cmd), String::from(desc))
}

fn assert_same_entries(a: &CommandList, b: &CommandList) {
    let av = a.iter();
    let bv = b.iter();
    assert_eq!(av.len(), bv.len());
    for i in 0..av.len() {
        assert_eq!(av[i].cmd, bv[i].cmd);
        assert_eq!(av[i].desc, bv[i].desc);
    }
}

#[test]
fn empty_text_loads_as_empty_collection() {
    let loaded = parse("").expect("an empty file holds no entries and must load");
    assert!(loaded.is_empty());
}

#[test]
fn empty_collection_saves_as_empty_text() {
    assert_eq!(encode(&CommandList::new()), "");
}

#[test]
fn one_entry_saves_to_the_exact_expected_text() {
    let mut list = CommandList::new();
    assert!(add_command(&mut list, entry("ls", "list files")));
    assert_eq!(
        encode(&list),
        "[[commands]]\ncmd = \"ls\"\ndesc = \"list files\"\n\n"
    );
}

#[test]
fn quotes_and_backslashes_are_escaped() {
    let mut list = CommandList::new();
    assert!(add_command(&mut list, entry("echo \"hi\"", "prints \\ and \"")));
    assert_eq!(
        encode(&list),
        "[[commands]]\ncmd = \"echo \\\"hi\\\"\"\ndesc = \"prints \\\\ and \\\"\"\n\n"
    );
}

#[test]
fn save_then_load_reproduces_the_collection() {
    let mut list = CommandList::new();
    assert!(add_command(&mut list, entry("ls", "list files")));
    assert!(add_command(&mut list, entry("pwd", "print working directory")));
    assert!(add_command(&mut list, entry("du", "disk usage")));
    assert!(remove_command(&mut list, "pwd"));
    let loaded = parse(&encode(&list)).expect("a saved collection must load");
    assert_same_entries(&list, &loaded);
}

#[test]
fn save_then_load_survives_special_characters() {
    let mut list = CommandList::new();
    assert!(add_command(
        &mut list,
        entry("grep -r \"x\"", "multi\nline\tdesc with \\ and \r"),
    ));
    assert!(add_command(&mut list, entry("df [[commands]]", "desc = \"tricky\"")));
    let loaded = parse(&encode(&list)).expect("a saved collection must load");
    assert_same_entries(&list, &loaded);
}

#[test]
fn saved_text_is_readable_as_toml() {
    let mut list = CommandList::new();
    assert!(add_command(&mut list, entry("ls", "list files")));
    assert!(add_command(&mut list, entry("echo \"hi\"", "prints\n\thi and \\")));
    let text = encode(&list);
    let value: toml::Value =
        toml::from_str(&text).expect("the saved text must be a toml document");
    let commands = value.get("commands").unwrap().as_array().unwrap();
    assert_eq!(commands.len(), 2);
    assert_eq!(commands[0].get("cmd").unwrap().as_str().unwrap(), "ls");
    assert_eq!(commands[0].get("desc").unwrap().as_str().unwrap(), "list files");
    assert_eq!(commands[1].get("cmd").unwrap().as_str().unwrap(), "echo \"hi\"");
    assert_eq!(
        commands[1].get("desc").unwrap().as_str().unwrap(),
        "prints\n\thi and \\"
    );
}

#[test]
fn parse_rejects_text_of_another_shape() {
    assert!(parse("not a command store").is_none());
    assert!(parse("[[commands]]").is_none());
    assert!(parse("[[commands]]\ncmd = \"ls\"").is_none());
    assert!(parse("[[commands]]\ncmd = \"ls\"\ndesc = \"list files\"").is_none());
    assert!(parse("[[commands]]\ncmd = \"ls\\x\"\ndesc = \"d\"\n\n").is_none());
}

#[test]
fn parse_rejects_trailing_text() {
    assert!(parse("[[commands]]\ncmd = \"ls\"\ndesc = \"list files\"\n\nx").is_none());
}
