//! The persisted text format of a collection.
//!
//! A collection is saved as one block per entry, in order:
//!
//! ```text
//! [[commands]]
//! cmd = "<name>"
//! desc = "<description>"
//! ```
//!
//! with a blank line after each block. Inside the quotes, backslash, double
//! quote, newline, carriage return and tab are written as the two-character
//! escapes `\\`, `\"`, `\n`, `\r` and `\t`; every other character stands for
//! itself. The empty collection is saved as the empty text, and the empty
//! text loads as the empty collection.
//!
//! [`encode`] produces this text and [`parse`] reads it back;
//! [`lemma_encode_parse_round_trip`] proves that a saved collection always
//! loads back equal, entry for entry and in the same order.

use vstd::prelude::*;

use crate::commands::Command;
use crate::commands::CommandList;
use crate::commands::CommandView;

verus! {

/// The text that opens an entry block, up to and including the quote that
/// opens the name.
pub open spec fn header() -> Seq<char> {
    "[[commands]]\ncmd = \""@
}

/// The text between the name's closing quote and the quote that opens the
/// description.
pub open spec fn sep() -> Seq<char> {
    "\ndesc = \""@
}

/// The closing quote of a quoted field.
pub open spec fn quote() -> Seq<char> {
    "\""@
}

/// The text that closes an entry block after the description's closing quote.
pub open spec fn endm() -> Seq<char> {
    "\n\n"@
}

/// How one character is written inside quotes.
pub open spec fn esc_char(c: char) -> Seq<char> {
    if c == '\\' {
        seq!['\\', '\\']
    } else if c == '"' {
        seq!['\\', '"']
    } else if c == '\n' {
        seq!['\\', 'n']
    } else if c == '\r' {
        seq!['\\', 'r']
    } else if c == '\t' {
        seq!['\\', 't']
    } else {
        seq![c]
    }
}

/// How a whole field is written inside quotes.
pub open spec fn esc(s: Seq<char>) -> Seq<char>
    decreases s.len(),
{
    if s.len() == 0 {
        Seq::empty()
    } else {
        esc_char(s[0]) + esc(s.drop_first())
    }
}

/// The character an escape code stands for, or `None` for an unknown code.
pub open spec fn unesc_char(c: char) -> Option<char> {
    if c == '\\' {
        Some('\\')
    } else if c == '"' {
        Some('"')
    } else if c == 'n' {
        Some('\n')
    } else if c == 'r' {
        Some('\r')
    } else if c == 't' {
        Some('\t')
    } else {
        None
    }
}

/// Reads a quoted field up to and including its closing quote: the decoded
/// field and the text after the quote, or `None` when the text ends before a
/// closing quote or holds an unknown escape.
pub open spec fn parse_str(s: Seq<char>) -> Option<(Seq<char>, Seq<char>)>
    decreases s.len(),
{
    if s.len() == 0 {
        None
    } else if s[0] == '"' {
        Some((Seq::empty(), s.drop_first()))
    } else if s[0] == '\\' {
        if s.len() < 2 {
            None
        } else {
            match unesc_char(s[1]) {
                None => None,
                Some(c) => match parse_str(s.skip(2)) {
                    None => None,
                    Some(p) => Some((seq![c] + p.0, p.1)),
                },
            }
        }
    } else {
        match parse_str(s.drop_first()) {
            None => None,
            Some(p) => Some((seq![s[0]] + p.0, p.1)),
        }
    }
}

/// The text of one entry block.
pub open spec fn encode_entry(e: CommandView) -> Seq<char> {
    header() + esc(e.cmd) + quote() + sep() + esc(e.desc) + quote() + endm()
}

/// The text of a whole collection: its entry blocks, in order.
pub open spec fn spec_encode(s: Seq<CommandView>) -> Seq<char>
    decreases s.len(),
{
    if s.len() == 0 {
        Seq::empty()
    } else {
        encode_entry(s[0]) + spec_encode(s.drop_first())
    }
}

/// Whether `p` is a prefix of `s`.
pub open spec fn starts_with(s: Seq<char>, p: Seq<char>) -> bool {
    s.len() >= p.len() && s.subrange(0, p.len() as int) == p
}

/// Reads a whole saved text: the entries it holds, in order, or `None` when
/// the text is not of the saved shape.
pub open spec fn parse_entries(s: Seq<char>) -> Option<Seq<CommandView>>
    decreases s.len(),
    via parse_entries_decreases
{
    if s.len() == 0 {
        Some(Seq::empty())
    } else if !starts_with(s, header()) {
        None
    } else {
        match parse_str(s.skip(header().len() as int)) {
            None => None,
            Some(pc) => if !starts_with(pc.1, sep()) {
                None
            } else {
                match parse_str(pc.1.skip(sep().len() as int)) {
                    None => None,
                    Some(pd) => if !starts_with(pd.1, endm()) {
                        None
                    } else {
                        match parse_entries(pd.1.skip(endm().len() as int)) {
                            None => None,
                            Some(rest) => Some(
                                seq![CommandView { cmd: pc.0, desc: pd.0 }] + rest,
                            ),
                        }
                    },
                }
            },
        }
    }
}

/// A successful `parse_str` consumes at least the closing quote, so the
/// leftover text is strictly shorter than the input.
proof fn lemma_parse_str_shrinks(s: Seq<char>)
    ensures
        parse_str(s) matches Some(p) ==> p.1.len() < s.len(),
    decreases s.len(),
{
    if s.len() == 0 {
    } else if s[0] == '"' {
    } else if s[0] == '\\' {
        if s.len() >= 2 {
            lemma_parse_str_shrinks(s.skip(2));
        }
    } else {
        lemma_parse_str_shrinks(s.drop_first());
    }
}

/// Escaping distributes over concatenation.
proof fn lemma_esc_concat(a: Seq<char>, b: Seq<char>)
    ensures
        esc(a + b) == esc(a) + esc(b),
    decreases a.len(),
{
    if a.len() == 0 {
        assert(a + b =~= b);
        assert(esc(a) + esc(b) =~= esc(b));
    } else {
        assert((a + b).drop_first() =~= a.drop_first() + b);
        lemma_esc_concat(a.drop_first(), b);
        assert(esc(a + b) =~= esc(a) + esc(b));
    }
}

/// Escaping one more character appends its escape.
proof fn lemma_esc_snoc(s: Seq<char>, i: int)
    requires
        0 <= i < s.len(),
    ensures
        esc(s.take(i + 1)) == esc(s.take(i)) + esc_char(s[i]),
{
    let one = seq![s[i]];
    assert(s.take(i + 1) =~= s.take(i) + one);
    lemma_esc_concat(s.take(i), one);
    assert(one.drop_first() =~= Seq::<char>::empty());
    assert(esc(Seq::<char>::empty()) == Seq::<char>::empty());
    assert(esc(one) == esc_char(s[i]) + Seq::<char>::empty());
    assert(esc_char(s[i]) + Seq::<char>::empty() =~= esc_char(s[i]));
}

/// Encoding distributes over concatenation of collections.
proof fn lemma_encode_concat(a: Seq<CommandView>, b: Seq<CommandView>)
    ensures
        spec_encode(a + b) == spec_encode(a) + spec_encode(b),
    decreases a.len(),
{
    if a.len() == 0 {
        assert(a + b =~= b);
        assert(spec_encode(a) + spec_encode(b) =~= spec_encode(b));
    } else {
        assert((a + b).drop_first() =~= a.drop_first() + b);
        lemma_encode_concat(a.drop_first(), b);
        assert(spec_encode(a + b) =~= spec_encode(a) + spec_encode(b));
    }
}

/// Encoding one more entry appends its block.
proof fn lemma_encode_snoc(s: Seq<CommandView>, i: int)
    requires
        0 <= i < s.len(),
    ensures
        spec_encode(s.take(i + 1)) == spec_encode(s.take(i)) + encode_entry(s[i]),
{
    let one = seq![s[i]];
    assert(s.take(i + 1) =~= s.take(i) + one);
    lemma_encode_concat(s.take(i), one);
    assert(one.drop_first() =~= Seq::<CommandView>::empty());
    assert(spec_encode(Seq::<CommandView>::empty()) == Seq::<char>::empty());
    assert(spec_encode(one) == encode_entry(s[i]) + Seq::<char>::empty());
    assert(encode_entry(s[i]) + Seq::<char>::empty() =~= encode_entry(s[i]));
}

/// Appends the escaped form of `s` to `out`.
fn append_escaped(out: &mut String, s: &str)
    ensures
        final(out)@ == old(out)@ + esc(s@),
{
    let n = s.unicode_len();
    let mut i: usize = 0;
    while i < n
        invariant
            i <= n,
            n == s@.len(),
            out@ == old(out)@ + esc(s@.take(i as int)),
        decreases n - i,
    {
        let c = s.get_char(i);
        if c == '\\' {
            out.append("\\\\");
            proof {
                reveal_strlit("\\\\");
                assert("\\\\"@ =~= esc_char(c));
            }
        } else if c == '"' {
            out.append("\\\"");
            proof {
                reveal_strlit("\\\"");
                assert("\\\""@ =~= esc_char(c));
            }
        } else if c == '\n' {
            out.append("\\n");
            proof {
                reveal_strlit("\\n");
                assert("\\n"@ =~= esc_char(c));
            }
        } else if c == '\r' {
            out.append("\\r");
            proof {
                reveal_strlit("\\r");
                assert("\\r"@ =~= esc_char(c));
            }
        } else if c == '\t' {
            out.append("\\t");
            proof {
                reveal_strlit("\\t");
                assert("\\t"@ =~= esc_char(c));
            }
        } else {
            let piece = s.substring_char(i, i + 1);
            out.append(piece);
            proof {
                assert(piece@ =~= esc_char(c));
            }
        }
        proof {
            lemma_esc_snoc(s@, i as int);
            assert(out@ =~= old(out)@ + esc(s@.take(i + 1)));
        }
        i += 1;
    }
    proof {
        assert(s@.take(n as int) =~= s@);
    }
}

/// Serializes a collection to the saved text format.
pub fn encode(list: &CommandList) -> (r: String)
    ensures
        r@ == spec_encode(list@),
{
    let mut out = String::new();
    let v = list.iter();
    let n = v.len();
    let mut i: usize = 0;
    while i < n
        invariant
            i <= n,
            n == v.len(),
            n == list@.len(),
            forall|k: int| 0 <= k < n ==> v@[k]@ == list@[k],
            out@ == spec_encode(list@.take(i as int)),
        decreases n - i,
    {
        let c = &v[i];
        out.append("[[commands]]\ncmd = \"");
        append_escaped(&mut out, c.cmd.as_str());
        out.append("\"");
        out.append("\ndesc = \"");
        append_escaped(&mut out, c.desc.as_str());
        out.append("\"");
        out.append("\n\n");
        proof {
            lemma_encode_snoc(list@, i as int);
            assert(out@ =~= spec_encode(list@.take(i as int)) + encode_entry(list@[i as int]));
        }
        i += 1;
    }
    proof {
        assert(list@.take(n as int) =~= list@);
    }
    out
}

/// `o` with `acc` prepended to the decoded field, when it is a success.
spec fn prefixed(acc: Seq<char>, o: Option<(Seq<char>, Seq<char>)>) -> Option<
    (Seq<char>, Seq<char>),
> {
    match o {
        None => None,
        Some(p) => Some((acc + p.0, p.1)),
    }
}

/// `o` with `acc` prepended to the entries, when it is a success.
spec fn prefixed_entries(acc: Seq<CommandView>, o: Option<Seq<CommandView>>) -> Option<
    Seq<CommandView>,
> {
    match o {
        None => None,
        Some(rest) => Some(acc + rest),
    }
}

/// Whether the text of `m` stands at position `start` of `s`.
fn matches_at(s: &str, start: usize, n: usize, m: &str) -> (r: bool)
    requires
        n == s@.len(),
        start <= n,
    ensures
        r == starts_with(s@.skip(start as int), m@),
{
    let k = m.unicode_len();
    if n - start < k {
        proof {
            assert(s@.skip(start as int).len() < m@.len());
        }
        return false;
    }
    let mut j: usize = 0;
    while j < k
        invariant
            j <= k,
            k == m@.len(),
            n == s@.len(),
            start + k <= n,
            forall|t: int| 0 <= t < j ==> s@[start + t] == m@[t],
        decreases k - j,
    {
        if s.get_char(start + j) != m.get_char(j) {
            proof {
                assert(s@.skip(start as int).subrange(0, k as int)[j as int] != m@[j as int]);
            }
            return false;
        }
        j += 1;
    }
    proof {
        assert(s@.skip(start as int).subrange(0, k as int) =~= m@);
    }
    true
}

/// Reads a quoted field of `s` starting at `start`: the decoded field and the
/// position after its closing quote, or `None` exactly when [`parse_str`]
/// fails there.
fn parse_string_at(s: &str, start: usize, n: usize) -> (r: Option<(String, usize)>)
    requires
        n == s@.len(),
        start <= n,
    ensures
        r is Some <==> parse_str(s@.skip(start as int)) is Some,
        r matches Some(p) ==> ({
            &&& start < p.1 <= n
            &&& parse_str(s@.skip(start as int)) == Some((p.0@, s@.skip(p.1 as int)))
        }),
{
    let mut out = String::new();
    let mut i: usize = start;
    proof {
        let o = parse_str(s@.skip(start as int));
        if o is Some {
            let p = o->0;
            assert(Seq::<char>::empty() + p.0 =~= p.0);
        }
    }
    while i < n
        invariant
            start <= i <= n,
            n == s@.len(),
            parse_str(s@.skip(start as int)) == prefixed(out@, parse_str(s@.skip(i as int))),
        decreases n - i,
    {
        proof {
            assert(s@.skip(i as int).len() == n - i);
            assert(s@.skip(i as int)[0] == s@[i as int]);
        }
        let c = s.get_char(i);
        if c == '"' {
            proof {
                assert(s@.skip(i as int).drop_first() =~= s@.skip(i + 1));
                assert(parse_str(s@.skip(i as int)) == Some(
                    (Seq::<char>::empty(), s@.skip(i + 1)),
                ));
                assert(out@ + Seq::<char>::empty() =~= out@);
            }
            return Some((out, i + 1));
        } else if c == '\\' {
            if n - i < 2 {
                proof {
                    assert(parse_str(s@.skip(i as int)) is None);
                }
                return None;
            }
            proof {
                assert(s@.skip(i as int)[1] == s@[i + 1]);
                assert(s@.skip(i as int).skip(2) =~= s@.skip(i + 2));
            }
            let c2 = s.get_char(i + 1);
            let ghost prev = out@;
            if c2 == '\\' {
                out.append("\\");
                proof {
                    reveal_strlit("\\");
                    assert("\\"@ =~= seq!['\\']);
                }
            } else if c2 == '"' {
                out.append("\"");
                proof {
                    reveal_strlit("\"");
                    assert("\""@ =~= seq!['"']);
                }
            } else if c2 == 'n' {
                out.append("\n");
                proof {
                    reveal_strlit("\n");
                    assert("\n"@ =~= seq!['\n']);
                }
            } else if c2 == 'r' {
                out.append("\r");
                proof {
                    reveal_strlit("\r");
                    assert("\r"@ =~= seq!['\r']);
                }
            } else if c2 == 't' {
                out.append("\t");
                proof {
                    reveal_strlit("\t");
                    assert("\t"@ =~= seq!['\t']);
                }
            } else {
                proof {
                    assert(unesc_char(s@[i + 1]) is None);
                    assert(parse_str(s@.skip(i as int)) is None);
                }
                return None;
            }
            proof {
                let u = unesc_char(s@[i + 1])->0;
                let o = parse_str(s@.skip(i + 2));
                if o is Some {
                    let p = o->0;
                    assert(parse_str(s@.skip(i as int)) == Some((seq![u] + p.0, p.1)));
                    assert(prev + (seq![u] + p.0) =~= out@ + p.0);
                }
            }
            i += 2;
        } else {
            let ghost prev = out@;
            let piece = s.substring_char(i, i + 1);
            out.append(piece);
            proof {
                assert(piece@ =~= seq![s@[i as int]]);
                assert(s@.skip(i as int).drop_first() =~= s@.skip(i + 1));
                let o = parse_str(s@.skip(i + 1));
                if o is Some {
                    let p = o->0;
                    assert(parse_str(s@.skip(i as int)) == Some((seq![s@[i as int]] + p.0, p.1)));
                    assert(prev + (seq![s@[i as int]] + p.0) =~= out@ + p.0);
                }
            }
            i += 1;
        }
    }
    proof {
        assert(s@.skip(i as int).len() == 0);
        assert(parse_str(s@.skip(i as int)) is None);
    }
    None
}

/// Deserializes a saved text back into a collection: `Some` exactly on texts
/// of the saved shape, `None` otherwise. The empty text yields the empty
/// collection.
pub fn parse(s: &str) -> (r: Option<CommandList>)
    ensures
        r is Some <==> parse_entries(s@) is Some,
        r matches Some(l) ==> parse_entries(s@) == Some(l@),
        s@.len() == 0 ==> (r matches Some(l) && l@ == Seq::<CommandView>::empty()),
{
    let n = s.unicode_len();
    let mut list = CommandList::new();
    let mut pos: usize = 0;
    proof {
        assert(s@.skip(0) =~= s@);
        let o = parse_entries(s@);
        if o is Some {
            assert(Seq::<CommandView>::empty() + o->0 =~= o->0);
        }
    }
    while pos < n
        invariant
            pos <= n,
            n == s@.len(),
            parse_entries(s@) == prefixed_entries(list@, parse_entries(s@.skip(pos as int))),
        decreases n - pos,
    {
        let m_header = "[[commands]]\ncmd = \"";
        let m_sep = "\ndesc = \"";
        let m_end = "\n\n";
        proof {
            assert(s@.skip(pos as int).len() == n - pos);
        }
        if !matches_at(s, pos, n, m_header) {
            proof {
                assert(parse_entries(s@.skip(pos as int)) is None);
            }
            return None;
        }
        let hl = m_header.unicode_len();
        proof {
            assert(s@.skip(pos as int).len() >= hl);
        }
        let pos2 = pos + hl;
        proof {
            assert(s@.skip(pos as int).skip(hl as int) =~= s@.skip(pos2 as int));
        }
        let parsed_cmd = parse_string_at(s, pos2, n);
        if parsed_cmd.is_none() {
            proof {
                assert(parse_entries(s@.skip(pos as int)) is None);
            }
            return None;
        }
        let (cmd_s, p1) = parsed_cmd.unwrap();
        if !matches_at(s, p1, n, m_sep) {
            proof {
                assert(parse_entries(s@.skip(pos as int)) is None);
            }
            return None;
        }
        let sl = m_sep.unicode_len();
        proof {
            assert(s@.skip(p1 as int).len() >= sl);
            assert(s@.skip(p1 as int).skip(sl as int) =~= s@.skip(p1 + sl));
        }
        let p2 = p1 + sl;
        let parsed_desc = parse_string_at(s, p2, n);
        if parsed_desc.is_none() {
            proof {
                assert(parse_entries(s@.skip(pos as int)) is None);
            }
            return None;
        }
        let (desc_s, p3) = parsed_desc.unwrap();
        if !matches_at(s, p3, n, m_end) {
            proof {
                assert(parse_entries(s@.skip(pos as int)) is None);
            }
            return None;
        }
        let el = m_end.unicode_len();
        proof {
            assert(s@.skip(p3 as int).len() >= el);
            assert(s@.skip(p3 as int).skip(el as int) =~= s@.skip(p3 + el));
        }
        let p4 = p3 + el;
        let c = Command::new(cmd_s, desc_s);
        proof {
            let t = s@.skip(pos as int);
            let rest_o = parse_entries(s@.skip(p4 as int));
            assert(parse_entries(t) == prefixed_entries(seq![c@], rest_o));
            if rest_o is Some {
                assert(list@ + (seq![c@] + rest_o->0) =~= list@.push(c@) + rest_o->0);
            }
        }
        list.push(c);
        pos = p4;
    }
    proof {
        assert(s@.skip(pos as int) =~= Seq::<char>::empty());
        assert(parse_entries(Seq::<char>::empty()) == Some(Seq::<CommandView>::empty()));
        assert(list@ + Seq::<CommandView>::empty() =~= list@);
    }
    Some(list)
}

/// Reading a quoted field back out of its escaped form recovers the field
/// exactly and leaves exactly the text that followed the closing quote.
proof fn lemma_parse_str_esc(x: Seq<char>, rest: Seq<char>)
    ensures
        parse_str(esc(x) + quote() + rest) == Some((x, rest)),
    decreases x.len(),
{
    reveal_strlit("\"");
    let full = esc(x) + quote() + rest;
    if x.len() == 0 {
        assert(full =~= quote() + rest);
        assert(full[0] == '"');
        assert(full.drop_first() =~= rest);
        assert(x =~= Seq::<char>::empty());
    } else {
        let c = x[0];
        let tailx = x.drop_first();
        let e1 = esc_char(c);
        let sub = esc(tailx) + quote() + rest;
        lemma_parse_str_esc(tailx, rest);
        assert(full =~= e1 + sub);
        if c == '\\' || c == '"' || c == '\n' || c == '\r' || c == '\t' {
            assert(e1.len() == 2 && e1[0] == '\\');
            assert(unesc_char(e1[1]) == Some(c));
            assert(full[0] == '\\');
            assert(full[1] == e1[1]);
            assert(full.skip(2) =~= sub);
            assert(seq![c] + tailx =~= x);
        } else {
            assert(e1 =~= seq![c]);
            assert(full[0] == c);
            assert(full.drop_first() =~= sub);
            assert(seq![c] + tailx =~= x);
        }
    }
}

/// The round trip of persistence: the text a collection is saved as always
/// loads back as the same collection — same entries, same order — for every
/// collection, hence for any one reachable by adding and removing entries.
pub proof fn lemma_encode_parse_round_trip(m: Seq<CommandView>)
    ensures
        parse_entries(spec_encode(m)) == Some(m),
    decreases m.len(),
{
    reveal_strlit("[[commands]]\ncmd = \"");
    reveal_strlit("\ndesc = \"");
    reveal_strlit("\"");
    reveal_strlit("\n\n");
    if m.len() == 0 {
        assert(m =~= Seq::<CommandView>::empty());
    } else {
        let e = m[0];
        let tail = m.drop_first();
        lemma_encode_parse_round_trip(tail);
        let full = spec_encode(m);
        let rest1 = sep() + esc(e.desc) + quote() + endm() + spec_encode(tail);
        let rest2 = endm() + spec_encode(tail);
        assert(full =~= header() + (esc(e.cmd) + quote() + rest1));
        assert(full.subrange(0, header().len() as int) =~= header());
        assert(full.skip(header().len() as int) =~= esc(e.cmd) + quote() + rest1);
        lemma_parse_str_esc(e.cmd, rest1);
        assert(rest1.subrange(0, sep().len() as int) =~= sep());
        assert(rest1.skip(sep().len() as int) =~= esc(e.desc) + quote() + rest2);
        lemma_parse_str_esc(e.desc, rest2);
        assert(rest2.subrange(0, endm().len() as int) =~= endm());
        assert(rest2.skip(endm().len() as int) =~= spec_encode(tail));
        assert(seq![CommandView { cmd: e.cmd, desc: e.desc }] + tail =~= m);
    }
}

#[via_fn]
proof fn parse_entries_decreases(s: Seq<char>) {
    reveal_strlit("[[commands]]\ncmd = \"");
    reveal_strlit("\ndesc = \"");
    reveal_strlit("\n\n");
    if s.len() != 0 && starts_with(s, header()) {
        lemma_parse_str_shrinks(s.skip(header().len() as int));
        let pco = parse_str(s.skip(header().len() as int));
        if pco is Some {
            let pc = pco->0;
            if starts_with(pc.1, sep()) {
                lemma_parse_str_shrinks(pc.1.skip(sep().len() as int));
            }
        }
    }
}

} // verus!
