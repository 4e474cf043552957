//! The entry record and the entry collection.
//!
//! A [`Command`] pairs a command name with a description; its identity is the
//! name alone. A [`CommandList`] is an ordered sequence of commands, listed in
//! insertion order; uniqueness of names is the caller's responsibility (see
//! the front-end helpers in [`crate::front`]), not the collection's.

use vstd::prelude::*;

verus! {

/// The mathematical value of a [`Command`]: the two fields as char sequences.
pub struct CommandView {
    pub cmd: Seq<char>,
    pub desc: Seq<char>,
}

/// One stored entry: a command name and a free-text description.
#[derive(Debug)]
pub struct Command {
    /// The command to be stored.
    pub cmd: String,
    /// A description of the command.
    pub desc: String,
}

impl View for Command {
    type V = CommandView;

    open spec fn view(&self) -> CommandView {
        CommandView { cmd: self.cmd@, desc: self.desc@ }
    }
}

/// The two-line display block of one entry: the labelled name and the
/// labelled description, indented for the terminal.
pub open spec fn spec_render(e: CommandView) -> Seq<char> {
    "\n        command: "@ + e.cmd + "\n        desc: "@ + e.desc + "\n        "@
}

impl Command {
    /// Builds an entry from its two fields.
    pub fn new(cmd: String, desc: String) -> (r: Command)
        ensures
            r@ == (CommandView { cmd: cmd@, desc: desc@ }),
    {
        Command { cmd, desc }
    }

    /// The human-readable block shown for this entry; the surrounding program
    /// may color the labels, which changes nothing of the text itself.
    pub fn render(&self) -> (r: String)
        ensures
            r@ == spec_render(self@),
    {
        let mut out = String::from_str("\n        command: ");
        out.append(self.cmd.as_str());
        out.append("\n        desc: ");
        out.append(self.desc.as_str());
        out.append("\n        ");
        out
    }
}

impl Clone for Command {
    fn clone(&self) -> (r: Command)
        ensures
            r@ == self@,
    {
        Command { cmd: self.cmd.clone(), desc: self.desc.clone() }
    }
}

/// Two entries are equal exactly when their names are: the description is
/// ignored, so an entry with the same name and another description counts as
/// a duplicate.
impl PartialEq for Command {
    fn eq(&self, other: &Command) -> (r: bool) {
        self.cmd == other.cmd
    }
}

impl vstd::std_specs::cmp::PartialEqSpecImpl for Command {
    open spec fn obeys_eq_spec() -> bool {
        true
    }

    open spec fn eq_spec(&self, other: &Command) -> bool {
        self.cmd@ == other.cmd@
    }
}

impl Eq for Command {}

/// Whether some entry of `s` carries the name `name`.
pub open spec fn has_name(s: Seq<CommandView>, name: Seq<char>) -> bool {
    exists|i: int| 0 <= i < s.len() && s[i].cmd == name
}

/// The index of the first entry of `s` named `name`, or `-1` if there is none.
pub open spec fn first_index(s: Seq<CommandView>, name: Seq<char>) -> int
    decreases s.len(),
{
    if s.len() == 0 {
        -1
    } else if s[0].cmd == name {
        0
    } else {
        let r = first_index(s.drop_first(), name);
        if r < 0 {
            -1
        } else {
            r + 1
        }
    }
}

/// No two entries of `s` share a name.
pub open spec fn unique_names(s: Seq<CommandView>) -> bool {
    forall|i: int, j: int| 0 <= i < j < s.len() ==> s[i].cmd != s[j].cmd
}

/// `first_index` finds a match exactly when one exists, points at an entry
/// with the looked-up name, and nothing before it matches.
pub proof fn lemma_first_index(s: Seq<CommandView>, name: Seq<char>)
    ensures
        has_name(s, name) <==> 0 <= first_index(s, name) < s.len(),
        !has_name(s, name) ==> first_index(s, name) == -1,
        has_name(s, name) ==> s[first_index(s, name)].cmd == name,
        forall|j: int| 0 <= j < first_index(s, name) ==> s[j].cmd != name,
    decreases s.len(),
{
    if s.len() == 0 {
    } else if s[0].cmd == name {
    } else {
        lemma_first_index(s.drop_first(), name);
        if has_name(s, name) {
            let i = choose|i: int| 0 <= i < s.len() && s[i].cmd == name;
            assert(s.drop_first()[i - 1].cmd == name);
            assert(has_name(s.drop_first(), name));
        }
        if has_name(s.drop_first(), name) {
            let i = choose|i: int| 0 <= i < s.drop_first().len() && s.drop_first()[i].cmd == name;
            assert(s[i + 1].cmd == name);
            assert(has_name(s, name));
        }
        let fi = first_index(s, name);
        assert(forall|j: int| 0 < j < fi ==> s.drop_first()[j - 1].cmd != name && s[j]
            == s.drop_first()[j - 1]);
    }
}

/// Compares two string slices character by character.
fn str_eq(a: &str, b: &str) -> (r: bool)
    ensures
        r == (a@ == b@),
{
    let n = a.unicode_len();
    if n != b.unicode_len() {
        return false;
    }
    let mut i: usize = 0;
    while i < n
        invariant
            i <= n,
            n == a@.len(),
            n == b@.len(),
            forall|j: int| 0 <= j < i ==> a@[j] == b@[j],
        decreases n - i,
    {
        if a.get_char(i) != b.get_char(i) {
            return false;
        }
        i += 1;
    }
    proof {
        assert(a@ =~= b@);
    }
    true
}

/// An ordered collection of entries. Insertion order is preserved and is the
/// order in which entries are listed; lookups are linear scans.
#[derive(Debug)]
pub struct CommandList {
    commands: Vec<Command>,
}

impl View for CommandList {
    type V = Seq<CommandView>;

    closed spec fn view(&self) -> Seq<CommandView> {
        Seq::new(self.commands@.len(), |i: int| self.commands@[i]@)
    }
}

impl CommandList {
    /// The empty collection.
    pub fn new() -> (r: Self)
        ensures
            r@ == Seq::<CommandView>::empty(),
    {
        let r = CommandList { commands: Vec::new() };
        proof {
            assert(r@ =~= Seq::<CommandView>::empty());
        }
        r
    }

    /// The stored entries, in insertion order.
    pub fn iter(&self) -> (r: &Vec<Command>)
        ensures
            r@.len() == self@.len(),
            forall|i: int| 0 <= i < self@.len() ==> r@[i]@ == self@[i],
    {
        &self.commands
    }

    /// Appends an entry at the end. The caller is responsible for having
    /// checked that no entry with the same name is present.
    pub fn push(&mut self, cmd: Command)
        ensures
            final(self)@ == old(self)@.push(cmd@),
    {
        self.commands.push(cmd);
        proof {
            assert(self@ =~= old(self)@.push(cmd@));
        }
    }

    /// Whether the collection holds no entries.
    pub fn is_empty(&self) -> (r: bool)
        ensures
            r == (self@.len() == 0),
    {
        self.commands.len() == 0
    }

    /// Whether an entry with `cmd`'s name is present (the description is
    /// ignored).
    pub fn contains(&self, cmd: &Command) -> (r: bool)
        ensures
            r == has_name(self@, cmd@.cmd),
    {
        let n = self.commands.len();
        let mut i: usize = 0;
        while i < n
            invariant
                i <= n,
                n == self@.len(),
                n == self.commands@.len(),
                forall|j: int| 0 <= j < i ==> self@[j].cmd != cmd@.cmd,
            decreases n - i,
        {
            let c = &self.commands[i];
            if str_eq(c.cmd.as_str(), cmd.cmd.as_str()) {
                assert(self@[i as int].cmd == cmd@.cmd);
                return true;
            }
            i += 1;
        }
        false
    }

    /// Removes the first entry named `cmd`, keeping the relative order of the
    /// rest, and reports whether a removal occurred.
    pub fn remove(&mut self, cmd: &str) -> (r: bool)
        ensures
            r == has_name(old(self)@, cmd@),
            r ==> final(self)@ == old(self)@.remove(first_index(old(self)@, cmd@)),
            !r ==> final(self)@ == old(self)@,
    {
        let n = self.commands.len();
        let mut i: usize = 0;
        while i < n
            invariant
                i <= n,
                self == old(self),
                n == self.commands@.len(),
                forall|j: int| 0 <= j < i ==> self@[j].cmd != cmd@,
            decreases n - i,
        {
            let found = {
                let c = &self.commands[i];
                str_eq(c.cmd.as_str(), cmd)
            };
            if found {
                proof {
                    assert(self@[i as int].cmd == cmd@);
                    assert(has_name(self@, cmd@));
                    lemma_first_index(self@, cmd@);
                    assert(first_index(self@, cmd@) == i as int);
                }
                self.commands.remove(i);
                proof {
                    assert(self@ =~= old(self)@.remove(i as int));
                }
                return true;
            }
            i += 1;
        }
        proof {
            lemma_first_index(self@, cmd@);
        }
        false
    }

    /// Looks up the first entry named `cmd`, or `None` when there is none.
    /// Names are unique in any collection built through the front end, so
    /// "first" and "only" coincide there.
    pub fn find(&self, cmd: &str) -> (r: Option<&Command>)
        ensures
            r is Some <==> has_name(self@, cmd@),
            r matches Some(c) ==> c@ == self@[first_index(self@, cmd@)] && c@.cmd == cmd@,
    {
        let n = self.commands.len();
        let mut i: usize = 0;
        while i < n
            invariant
                i <= n,
                n == self@.len(),
                n == self.commands@.len(),
                forall|j: int| 0 <= j < i ==> self@[j].cmd != cmd@,
            decreases n - i,
        {
            let c = &self.commands[i];
            if str_eq(c.cmd.as_str(), cmd) {
                proof {
                    assert(self@[i as int].cmd == cmd@);
                    assert(has_name(self@, cmd@));
                    lemma_first_index(self@, cmd@);
                    assert(first_index(self@, cmd@) == i as int);
                }
                return Some(c);
            }
            i += 1;
        }
        proof {
            lemma_first_index(self@, cmd@);
        }
        None
    }
}

} // verus!
