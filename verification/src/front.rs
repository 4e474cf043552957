//! The decisions of the command-line front end, as verified functions.
//!
//! Each subcommand is a one-shot transition: load the collection, act on it,
//! save it when it changed. The acting part stands here; reading arguments,
//! styling text and touching the file belong to the surrounding program.

use vstd::prelude::*;

use crate::commands::Command;
use crate::commands::CommandList;
use crate::commands::CommandView;
use crate::commands::first_index;
use crate::commands::has_name;
use crate::commands::lemma_first_index;
use crate::commands::spec_render;
use crate::commands::unique_names;

verus! {

/// The collection after an attempted add: unchanged when an entry with the
/// name is already present, extended at the end otherwise.
pub open spec fn spec_add(s: Seq<CommandView>, e: CommandView) -> Seq<CommandView> {
    if has_name(s, e.cmd) {
        s
    } else {
        s.push(e)
    }
}

/// The `add` subcommand's action: appends `cmd` unless an entry with its name
/// is already stored, and reports whether it was added. When it reports
/// `false` the collection is left exactly as it was, and the caller reports
/// the duplicate instead of saving.
pub fn add_command(list: &mut CommandList, cmd: Command) -> (r: bool)
    ensures
        r == !has_name(old(list)@, cmd@.cmd),
        final(list)@ == spec_add(old(list)@, cmd@),
        has_name(old(list)@, cmd@.cmd) ==> final(list)@ == old(list)@,
{
    if list.contains(&cmd) {
        false
    } else {
        list.push(cmd);
        true
    }
}

/// The `remove` subcommand's action: removes the entry named `cmd` if one is
/// stored, and reports whether a removal occurred. When it reports `false`
/// the collection is left exactly as it was, and the caller reports the
/// missing name instead of saving.
pub fn remove_command(list: &mut CommandList, cmd: &str) -> (r: bool)
    ensures
        r == has_name(old(list)@, cmd@),
        r ==> final(list)@ == old(list)@.remove(first_index(old(list)@, cmd@)),
        !r ==> final(list)@ == old(list)@,
{
    if list.is_empty() {
        return false;
    }
    list.remove(cmd)
}

/// The text printed for a stored collection, entry blocks in stored order.
pub open spec fn spec_listing(s: Seq<CommandView>) -> Seq<char>
    decreases s.len(),
{
    if s.len() == 0 {
        Seq::empty()
    } else {
        spec_render(s[0]) + spec_listing(s.drop_first())
    }
}

/// Rendering distributes over concatenation of collections.
proof fn lemma_listing_concat(a: Seq<CommandView>, b: Seq<CommandView>)
    ensures
        spec_listing(a + b) == spec_listing(a) + spec_listing(b),
    decreases a.len(),
{
    if a.len() == 0 {
        assert(a + b =~= b);
        assert(spec_listing(a) + spec_listing(b) =~= spec_listing(b));
    } else {
        assert((a + b).drop_first() =~= a.drop_first() + b);
        lemma_listing_concat(a.drop_first(), b);
        assert(spec_listing(a + b) =~= spec_listing(a) + spec_listing(b));
    }
}

/// Rendering one more entry appends its block.
proof fn lemma_listing_snoc(s: Seq<CommandView>, i: int)
    requires
        0 <= i < s.len(),
    ensures
        spec_listing(s.take(i + 1)) == spec_listing(s.take(i)) + spec_render(s[i]),
{
    let one = seq![s[i]];
    assert(s.take(i + 1) =~= s.take(i) + one);
    lemma_listing_concat(s.take(i), one);
    assert(one.drop_first() =~= Seq::<CommandView>::empty());
    assert(spec_listing(Seq::<CommandView>::empty()) == Seq::<char>::empty());
    assert(spec_listing(one) == spec_render(s[i]) + Seq::<char>::empty());
    assert(spec_render(s[i]) + Seq::<char>::empty() =~= spec_render(s[i]));
}

/// The `list` subcommand's output: `None` for an empty collection — the
/// caller reports that nothing is stored instead of printing a bare header —
/// and otherwise the header followed by every entry, in stored order.
pub fn render_listing(list: &CommandList) -> (r: Option<String>)
    ensures
        r is None <==> list@.len() == 0,
        r matches Some(t) ==> t@ == "Commands:"@ + spec_listing(list@),
{
    if list.is_empty() {
        return None;
    }
    let mut out = String::from_str("Commands:");
    let v = list.iter();
    let n = v.len();
    let mut i: usize = 0;
    proof {
        assert(list@.take(0) =~= Seq::<CommandView>::empty());
        assert(out@ + Seq::<char>::empty() =~= out@);
    }
    while i < n
        invariant
            i <= n,
            n == v.len(),
            n == list@.len(),
            forall|k: int| 0 <= k < n ==> v@[k]@ == list@[k],
            out@ == "Commands:"@ + spec_listing(list@.take(i as int)),
        decreases n - i,
    {
        let block = v[i].render();
        out.append(block.as_str());
        proof {
            lemma_listing_snoc(list@, i as int);
            assert(out@ =~= "Commands:"@ + spec_listing(list@.take(i + 1)));
        }
        i += 1;
    }
    proof {
        assert(list@.take(n as int) =~= list@);
    }
    Some(out)
}

/// Appending an entry adds exactly its name to the names present.
proof fn lemma_has_name_push(s: Seq<CommandView>, e: CommandView, name: Seq<char>)
    ensures
        has_name(s.push(e), name) <==> (has_name(s, name) || e.cmd == name),
{
    if has_name(s, name) {
        let i = choose|i: int| 0 <= i < s.len() && s[i].cmd == name;
        assert(s.push(e)[i].cmd == name);
    }
    if e.cmd == name {
        assert(s.push(e)[s.len() as int].cmd == name);
    }
    if has_name(s.push(e), name) {
        let i = choose|i: int| 0 <= i < s.push(e).len() && s.push(e)[i].cmd == name;
        if i < s.len() {
            assert(s[i].cmd == name);
        }
    }
}

/// An attempted add never makes a duplicate: names stay unique.
pub proof fn lemma_add_preserves_unique(s: Seq<CommandView>, e: CommandView)
    requires
        unique_names(s),
    ensures
        unique_names(spec_add(s, e)),
{
    if !has_name(s, e.cmd) {
        let t = s.push(e);
        assert forall|i: int, j: int| 0 <= i < j < t.len() implies t[i].cmd != t[j].cmd by {
            if j < s.len() {
            } else {
                assert(t[j] == e);
                assert(t[i] == s[i]);
                assert(!(s[i].cmd == e.cmd));
            }
        }
    }
}

/// Removing an entry never makes a duplicate: names stay unique.
pub proof fn lemma_remove_preserves_unique(s: Seq<CommandView>, name: Seq<char>)
    requires
        unique_names(s),
        has_name(s, name),
    ensures
        unique_names(s.remove(first_index(s, name))),
{
    lemma_first_index(s, name);
    let fi = first_index(s, name);
    let t = s.remove(fi);
    assert forall|i: int, j: int| 0 <= i < j < t.len() implies t[i].cmd != t[j].cmd by {
        let i0: int = if i < fi { i } else { i + 1 };
        let j0: int = if j < fi { j } else { j + 1 };
        assert(t[i] == s[i0]);
        assert(t[j] == s[j0]);
    }
}

/// Removing an existing name shrinks the collection by exactly one entry,
/// and — names being unique — a later lookup of that name finds nothing.
pub proof fn lemma_remove_existing(s: Seq<CommandView>, name: Seq<char>)
    requires
        unique_names(s),
        has_name(s, name),
    ensures
        s.remove(first_index(s, name)).len() == s.len() - 1,
        !has_name(s.remove(first_index(s, name)), name),
{
    lemma_first_index(s, name);
    let fi = first_index(s, name);
    let t = s.remove(fi);
    assert forall|j: int| 0 <= j < t.len() implies t[j].cmd != name by {
        if j < fi {
            assert(t[j] == s[j]);
        } else {
            assert(t[j] == s[j + 1]);
            assert(s[fi].cmd == name);
        }
    }
}

/// The collection after a whole sequence of attempted adds, oldest first.
pub open spec fn add_all(s: Seq<CommandView>, adds: Seq<CommandView>) -> Seq<CommandView>
    decreases adds.len(),
{
    if adds.len() == 0 {
        s
    } else {
        add_all(spec_add(s, adds[0]), adds.drop_first())
    }
}

/// Helper for the law below, generalized over the starting collection: adds
/// whose names are distinct and all fresh each grow the collection by one,
/// and every name involved is found afterwards.
proof fn lemma_add_all_fresh(s: Seq<CommandView>, adds: Seq<CommandView>)
    requires
        unique_names(adds),
        forall|k: int| 0 <= k < adds.len() ==> !has_name(s, adds[k].cmd),
    ensures
        add_all(s, adds).len() == s.len() + adds.len(),
        forall|k: int| 0 <= k < adds.len() ==> has_name(add_all(s, adds), adds[k].cmd),
        forall|name: Seq<char>| has_name(s, name) ==> has_name(add_all(s, adds), name),
    decreases adds.len(),
{
    if adds.len() == 0 {
    } else {
        let e = adds[0];
        assert(!has_name(s, e.cmd));
        let s1 = s.push(e);
        assert(spec_add(s, e) == s1);
        let rest = adds.drop_first();
        assert forall|name: Seq<char>| has_name(s, name) implies has_name(s1, name) by {
            lemma_has_name_push(s, e, name);
        }
        assert forall|k: int| 0 <= k < rest.len() implies !has_name(s1, rest[k].cmd) by {
            assert(rest[k] == adds[k + 1]);
            assert(adds[k + 1].cmd != e.cmd);
            lemma_has_name_push(s, e, rest[k].cmd);
        }
        lemma_add_all_fresh(s1, rest);
        lemma_has_name_push(s, e, e.cmd);
        assert(has_name(s1, e.cmd));
        assert forall|k: int| 0 <= k < adds.len() implies has_name(
            add_all(s, adds),
            adds[k].cmd,
        ) by {
            if k >= 1 {
                assert(adds[k] == rest[k - 1]);
            }
        }
    }
}

/// Adding any number of entries with pairwise distinct names to the empty
/// collection stores exactly that many entries, and each added name is found
/// afterwards.
pub proof fn lemma_distinct_adds(adds: Seq<CommandView>)
    requires
        unique_names(adds),
    ensures
        add_all(Seq::empty(), adds).len() == adds.len(),
        forall|k: int| 0 <= k < adds.len() ==> has_name(add_all(Seq::empty(), adds), adds[k].cmd),
{
    lemma_add_all_fresh(Seq::empty(), adds);
}

} // verus!
