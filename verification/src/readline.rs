//! Completion of command names, file names and arguments for the line
//! editor.

use vstd::prelude::*;
use crate::parser::{views, Builtin, builtin_name};
use crate::builtins::Completions;
use crate::offsets::{byte_len, char_pos, lemma_char_pos, byte_offset, char_index, lemma_boundary_index, lemma_byte_len_monotone};
use crate::text::{
    chars_of, string_of_range, is_white_space, is_whitespace_char, first_where, lemma_first_where,
    lemma_first_where_unique, lex_lt, lex_less, lemma_lex_irreflexive, lemma_lex_total,
    lemma_lex_transitive,
};
use vstd::utf8::{encode_utf8, is_char_boundary};

verus! {

/// Whether `s` begins with `prefix`.
pub open spec fn starts_with(s: Seq<char>, prefix: Seq<char>) -> bool {
    prefix.len() <= s.len() && s.take(prefix.len() as int) == prefix
}

/// Whether `s` begins with `prefix`.
pub fn has_prefix(s: &str, prefix: &str) -> (r: bool)
    ensures
        r == starts_with(s@, prefix@),
{
    let n = s.unicode_len();
    let m = prefix.unicode_len();
    if m > n {
        return false;
    }
    let mut i: usize = 0;
    while i < m
        invariant
            m == prefix@.len(),
            n == s@.len(),
            m <= n,
            i <= m,
            s@.take(i as int) == prefix@.take(i as int),
        decreases m - i,
    {
        if s.get_char(i) != prefix.get_char(i) {
            assert(s@.take(m as int)[i as int] != prefix@[i as int]);
            return false;
        }
        assert(s@.take(i + 1) =~= s@.take(i as int).push(s@[i as int]));
        assert(prefix@.take(i + 1) =~= prefix@.take(i as int).push(prefix@[i as int]));
        i = i + 1;
    }
    assert(prefix@.take(m as int) =~= prefix@);
    true
}

/// Texts in strictly increasing order, hence each at most once.
pub open spec fn strictly_sorted(s: Seq<Seq<char>>) -> bool {
    forall|i: int, j: int| 0 <= i < j < s.len() ==> lex_lt(#[trigger] s[i], #[trigger] s[j])
}

/// Inserts `s` in its place in the sorted list `v`, unless it is there.
fn insert_sorted(v: &mut Vec<String>, s: String)
    requires
        strictly_sorted(views(old(v)@)),
    ensures
        strictly_sorted(views(final(v)@)),
        forall|x: Seq<char>| #[trigger] views(final(v)@).contains(x) <==> views(old(v)@).contains(x) || x == s@,
{
    let ghost vs = views(v@);
    let mut p: usize = 0;
    while p < v.len() && lex_less(v[p].as_str(), s.as_str())
        invariant
            vs == views(v@),
            v@ == old(v)@,
            p <= v@.len(),
            forall|j: int| 0 <= j < p ==> lex_lt(#[trigger] vs[j], s@),
        decreases v@.len() - p,
    {
        assert(vs[p as int] == v@[p as int]@);
        p = p + 1;
    }
    if p < v.len() && v[p].as_str().eq(s.as_str()) {
        assert(vs[p as int] == s@);
        return;
    }
    proof {
        if p < vs.len() {
            assert(vs[p as int] == v@[p as int]@);
            lemma_lex_total(vs[p as int], s@);
            assert forall|j: int| p <= j < vs.len() implies lex_lt(s@, #[trigger] vs[j]) by {
                if j > p {
                    lemma_lex_transitive(s@, vs[p as int], vs[j]);
                }
            }
        }
    }
    let ghost sv = s@;
    v.insert(p, s);
    let ghost ws = views(v@);
    assert(ws =~= vs.insert(p as int, sv));
    assert forall|i: int, j: int| 0 <= i < j < ws.len() implies lex_lt(#[trigger] ws[i], #[trigger] ws[j]) by {
        if j < p {
            assert(ws[i] == vs[i] && ws[j] == vs[j]);
        } else if j == p {
            assert(ws[i] == vs[i]);
        } else if i < p {
            assert(ws[i] == vs[i] && ws[j] == vs[j - 1]);
            lemma_lex_transitive(vs[i], sv, vs[j - 1]);
        } else if i == p {
            assert(ws[j] == vs[j - 1]);
        } else {
            assert(ws[i] == vs[i - 1] && ws[j] == vs[j - 1]);
        }
    }
    assert forall|x: Seq<char>| #[trigger] ws.contains(x) <==> vs.contains(x) || x == sv by {
        if ws.contains(x) {
            let i = choose|i: int| 0 <= i < ws.len() && ws[i] == x;
            if i < p {
                assert(vs[i] == x);
            } else if i > p {
                assert(vs[i - 1] == x);
            }
        }
        if vs.contains(x) {
            let i = choose|i: int| 0 <= i < vs.len() && vs[i] == x;
            if i < p {
                assert(ws[i] == x);
            } else {
                assert(ws[i + 1] == x);
            }
        }
        if x == sv {
            assert(ws[p as int] == x);
        }
    }
}

/// The command names the shell always offers.
pub open spec fn builtin_commands() -> Seq<Seq<char>> {
    seq!["echo"@, "exit"@, "type"@, "pwd"@, "cd"@, "complete"@]
}

/// The builtins offered as commands are the shell's builtins but `jobs`,
/// each by its name.
pub proof fn law_builtins_offered(b: Builtin)
    ensures
        b != Builtin::Jobs <==> builtin_commands().contains(builtin_name(b)),
{
    reveal_strlit("echo");
    reveal_strlit("exit");
    reveal_strlit("type");
    reveal_strlit("pwd");
    reveal_strlit("cd");
    reveal_strlit("complete");
    let cs = builtin_commands();
    assert(cs[0] =~= seq!['e', 'c', 'h', 'o']);
    assert(cs[1] =~= seq!['e', 'x', 'i', 't']);
    assert(cs[2] =~= seq!['t', 'y', 'p', 'e']);
    assert(cs[3] =~= seq!['p', 'w', 'd']);
    assert(cs[4] =~= seq!['c', 'd']);
    assert(cs[5] =~= seq!['c', 'o', 'm', 'p', 'l', 'e', 't', 'e']);
    match b {
        Builtin::Exit => assert(cs[1] == builtin_name(b)),
        Builtin::Echo => assert(cs[0] == builtin_name(b)),
        Builtin::Type => assert(cs[2] == builtin_name(b)),
        Builtin::Pwd => assert(cs[3] == builtin_name(b)),
        Builtin::Cd => assert(cs[4] == builtin_name(b)),
        Builtin::Complete => assert(cs[5] == builtin_name(b)),
        Builtin::Jobs => {
            let j = builtin_name(b);
            assert forall|k: int| 0 <= k < cs.len() implies cs[k] != j by {
                if k == 0 || k == 1 || k == 2 || k == 5 {
                    assert(cs[k][0] != j[0] || cs[k][1] != j[1]);
                } else {
                    assert(cs[k].len() != j.len());
                }
            }
        },
    }
}

/// `r` is the list of commands to offer for the executables `execs`: the
/// builtins and the executables, sorted, each once.
pub open spec fn is_command_list(r: Seq<Seq<char>>, execs: Seq<Seq<char>>) -> bool {
    &&& strictly_sorted(r)
    &&& forall|x: Seq<char>| #[trigger] r.contains(x) <==> builtin_commands().contains(x) || execs.contains(x)
}

/// The command names to offer: the builtins and the executables found on
/// the search path, sorted, without repeats.
pub fn prepare_commands(executables: Vec<String>) -> (r: Vec<String>)
    ensures
        is_command_list(views(r@), views(executables@)),
{
    let mut names: Vec<String> = Vec::new();
    names.push("echo".to_string());
    names.push("exit".to_string());
    names.push("type".to_string());
    names.push("pwd".to_string());
    names.push("cd".to_string());
    names.push("complete".to_string());
    assert(views(names@) =~= builtin_commands());
    let mut r: Vec<String> = Vec::new();
    let ghost ex = views(executables@);
    let mut i: usize = 0;
    while i < names.len()
        invariant
            views(names@) == builtin_commands(),
            i <= names@.len(),
            strictly_sorted(views(r@)),
            forall|x: Seq<char>| #[trigger] views(r@).contains(x) <==> exists|j: int| 0 <= j < i && builtin_commands()[j] == x,
        decreases names@.len() - i,
    {
        let s = names[i].clone();
        insert_sorted(&mut r, s);
        assert forall|x: Seq<char>| #[trigger] views(r@).contains(x) <==> exists|j: int| 0 <= j < i + 1 && builtin_commands()[j] == x by {
            if x == builtin_commands()[i as int] {
                assert(views(names@)[i as int] == names@[i as int]@);
            }
        }
        i = i + 1;
    }
    let mut k: usize = 0;
    while k < executables.len()
        invariant
            ex == views(executables@),
            k <= executables@.len(),
            strictly_sorted(views(r@)),
            forall|x: Seq<char>| #[trigger] views(r@).contains(x) <==> builtin_commands().contains(x) || exists|j: int| 0 <= j < k && ex[j] == x,
        decreases executables@.len() - k,
    {
        let s = executables[k].clone();
        insert_sorted(&mut r, s);
        assert forall|x: Seq<char>| #[trigger] views(r@).contains(x) <==> builtin_commands().contains(x) || exists|j: int| 0 <= j < k + 1 && ex[j] == x by {
            if x == ex[k as int] {
                assert(ex[k as int] == executables@[k as int]@);
            }
        }
        k = k + 1;
    }
    r
}

/// The completions offered for `prefix` among the commands `cs`: those
/// that begin with it, in order, each followed by a space.
pub open spec fn command_matches(cs: Seq<Seq<char>>, prefix: Seq<char>) -> Seq<Seq<char>>
    decreases cs.len(),
{
    if cs.len() == 0 {
        Seq::empty()
    } else {
        let r = command_matches(cs.drop_last(), prefix);
        if starts_with(cs.last(), prefix) {
            r.push(cs.last().push(' '))
        } else {
            r
        }
    }
}

/// What completing a command name offers: `c` followed by a space for
/// each command `c` that begins with the prefix (a command equal to the
/// prefix included), and nothing else.
pub proof fn law_command_matches(cs: Seq<Seq<char>>, prefix: Seq<char>)
    ensures
        forall|i: int|
            0 <= i < cs.len() && starts_with(cs[i], prefix) ==> #[trigger] command_matches(cs, prefix).contains(
                cs[i].push(' '),
            ),
        forall|x: Seq<char>|
            #[trigger] command_matches(cs, prefix).contains(x) ==> exists|i: int|
                0 <= i < cs.len() && starts_with(cs[i], prefix) && x == cs[i].push(' '),
    decreases cs.len(),
{
    if cs.len() > 0 {
        let init = cs.drop_last();
        law_command_matches(init, prefix);
        let r = command_matches(init, prefix);
        let full = command_matches(cs, prefix);
        assert forall|i: int|
            0 <= i < cs.len() && starts_with(cs[i], prefix) implies #[trigger] full.contains(cs[i].push(' ')) by {
            if i < init.len() {
                assert(init[i] == cs[i]);
                assert(r.contains(cs[i].push(' ')));
                let k = choose|k: int| 0 <= k < r.len() && r[k] == cs[i].push(' ');
                assert(full[k] == r[k]);
            } else {
                assert(full[full.len() - 1] == cs[i].push(' '));
            }
        }
        assert forall|x: Seq<char>| #[trigger] full.contains(x) implies exists|i: int|
            0 <= i < cs.len() && starts_with(cs[i], prefix) && x == cs[i].push(' ') by {
            let k = choose|k: int| 0 <= k < full.len() && full[k] == x;
            if k < r.len() {
                assert(full[k] == r[k]);
                assert(r.contains(x));
                let i = choose|i: int| 0 <= i < init.len() && starts_with(init[i], prefix) && x == init[i].push(' ');
                assert(init[i] == cs[i]);
            } else {
                assert(x == cs[cs.len() - 1].push(' '));
            }
        }
    }
}

/// The state of command-name completion: the commands found on the search
/// path as it was when they were last looked up.
pub struct CommandHelper {
    pub commands: Vec<String>,
    pub path: String,
}

impl CommandHelper {
    /// No commands, and a search path that was never looked up.
    pub fn new() -> (r: CommandHelper)
        ensures
            r.commands@.len() == 0,
            r.path@ == Seq::<char>::empty(),
    {
        CommandHelper { commands: Vec::new(), path: String::new() }
    }

    /// Whether the commands must be looked up again for the search path
    /// `path`: it differs from the one they were looked up for.
    pub fn needs_update(&self, path: &str) -> (r: bool)
        ensures
            r == (path@ != self.path@),
    {
        !self.path.as_str().eq(path)
    }

    /// Takes the executables found on the search path `path`; when `path`
    /// is the one the commands were last looked up for, nothing changes.
    pub fn update_commands(&mut self, path: &str, executables: Vec<String>)
        ensures
            old(self).path@ == path@ ==> views(final(self).commands@) == views(old(self).commands@),
            final(self).path@ == path@,
            old(self).path@ != path@ ==> is_command_list(views(final(self).commands@), views(executables@)),
    {
        if self.path.as_str().eq(path) {
            return;
        }
        self.path = path.to_string();
        self.commands = prepare_commands(executables);
    }

    /// The commands that begin with `prefix`, each followed by a space.
    pub fn complete_command(&self, prefix: &str) -> (r: Vec<String>)
        ensures
            views(r@) == command_matches(views(self.commands@), prefix@),
            forall|i: int|
                0 <= i < self.commands@.len() && starts_with(self.commands@[i]@, prefix@)
                    ==> #[trigger] views(r@).contains(self.commands@[i]@.push(' ')),
            forall|x: Seq<char>|
                #[trigger] views(r@).contains(x) ==> exists|i: int|
                    0 <= i < self.commands@.len() && starts_with(self.commands@[i]@, prefix@) && x
                        == self.commands@[i]@.push(' '),
    {
        let ghost cs = views(self.commands@);
        let mut r: Vec<String> = Vec::new();
        let mut i: usize = 0;
        assert(cs.take(0) =~= Seq::<Seq<char>>::empty());
        assert(views(r@) =~= Seq::<Seq<char>>::empty());
        while i < self.commands.len()
            invariant
                cs == views(self.commands@),
                i <= cs.len(),
                views(r@) == command_matches(cs.take(i as int), prefix@),
            decreases cs.len() - i,
        {
            assert(cs.take(i + 1).drop_last() =~= cs.take(i as int));
            assert(cs[i as int] == self.commands@[i as int]@);
            if has_prefix(self.commands[i].as_str(), prefix) {
                let mut m = self.commands[i].clone();
                m.push(' ');
                let ghost before = views(r@);
                r.push(m);
                assert(views(r@) =~= before.push(cs[i as int].push(' ')));
            }
            i = i + 1;
        }
        assert(cs.take(cs.len() as int) =~= cs);
        proof {
            law_command_matches(cs, prefix@);
            assert forall|i: int|
                0 <= i < self.commands@.len() && starts_with(self.commands@[i]@, prefix@) implies #[trigger] views(
                r@,
            ).contains(self.commands@[i]@.push(' ')) by {
                assert(cs[i] == self.commands@[i]@);
            }
            assert forall|x: Seq<char>| #[trigger] views(r@).contains(x) implies exists|i: int|
                0 <= i < self.commands@.len() && starts_with(self.commands@[i]@, prefix@) && x
                    == self.commands@[i]@.push(' ') by {
                let i = choose|i: int| 0 <= i < cs.len() && starts_with(cs[i], prefix@) && x == cs[i].push(' ');
                assert(cs[i] == self.commands@[i]@);
            }
        }
        r
    }
}

/// What a directory entry is.
#[derive(PartialEq, Eq, Structural, Clone, Copy, Debug)]
pub enum EntryKind {
    File,
    Dir,
    Other,
}

/// The completions offered for `prefix` among directory entries (name and
/// kind), in the entries' order: a file's name followed by a space, a
/// directory's followed by `/`; other entries are not offered.
pub open spec fn file_candidates(es: Seq<(Seq<char>, EntryKind)>, prefix: Seq<char>) -> Seq<
    Seq<char>,
>
    decreases es.len(),
{
    if es.len() == 0 {
        Seq::empty()
    } else {
        let r = file_candidates(es.drop_last(), prefix);
        let (name, kind) = es.last();
        if starts_with(name, prefix) && kind == EntryKind::File {
            r.push(name.push(' '))
        } else if starts_with(name, prefix) && kind == EntryKind::Dir {
            r.push(name.push('/'))
        } else {
            r
        }
    }
}

/// What completing a file name offers: for each entry whose name begins
/// with the prefix (a name equal to the prefix included), the name followed
/// by a space for a file and by `/` for a directory; and nothing else.
pub proof fn law_file_candidates(es: Seq<(Seq<char>, EntryKind)>, prefix: Seq<char>)
    ensures
        forall|i: int|
            0 <= i < es.len() && starts_with(es[i].0, prefix) && es[i].1 == EntryKind::File
                ==> #[trigger] file_candidates(es, prefix).contains(es[i].0.push(' ')),
        forall|i: int|
            0 <= i < es.len() && starts_with(es[i].0, prefix) && es[i].1 == EntryKind::Dir
                ==> #[trigger] file_candidates(es, prefix).contains(es[i].0.push('/')),
        forall|x: Seq<char>|
            #[trigger] file_candidates(es, prefix).contains(x) ==> exists|i: int|
                0 <= i < es.len() && starts_with(es[i].0, prefix) && ((es[i].1 == EntryKind::File && x
                    == es[i].0.push(' ')) || (es[i].1 == EntryKind::Dir && x == es[i].0.push('/'))),
    decreases es.len(),
{
    if es.len() > 0 {
        let init = es.drop_last();
        law_file_candidates(init, prefix);
        let r = file_candidates(init, prefix);
        let full = file_candidates(es, prefix);
        assert forall|k: int| 0 <= k < r.len() implies #[trigger] full.contains(r[k]) by {
            assert(full[k] == r[k]);
        }
        assert forall|i: int|
            0 <= i < es.len() && starts_with(es[i].0, prefix) && es[i].1 == EntryKind::File
                implies #[trigger] full.contains(es[i].0.push(' ')) by {
            if i < init.len() {
                assert(init[i] == es[i]);
                assert(r.contains(es[i].0.push(' ')));
                let k = choose|k: int| 0 <= k < r.len() && r[k] == es[i].0.push(' ');
                assert(full.contains(r[k]));
            } else {
                assert(full[full.len() - 1] == es[i].0.push(' '));
            }
        }
        assert forall|i: int|
            0 <= i < es.len() && starts_with(es[i].0, prefix) && es[i].1 == EntryKind::Dir
                implies #[trigger] full.contains(es[i].0.push('/')) by {
            if i < init.len() {
                assert(init[i] == es[i]);
                assert(r.contains(es[i].0.push('/')));
                let k = choose|k: int| 0 <= k < r.len() && r[k] == es[i].0.push('/');
                assert(full.contains(r[k]));
            } else {
                assert(full[full.len() - 1] == es[i].0.push('/'));
            }
        }
        assert forall|x: Seq<char>| #[trigger] full.contains(x) implies exists|i: int|
            0 <= i < es.len() && starts_with(es[i].0, prefix) && ((es[i].1 == EntryKind::File && x
                == es[i].0.push(' ')) || (es[i].1 == EntryKind::Dir && x == es[i].0.push('/'))) by {
            let k = choose|k: int| 0 <= k < full.len() && full[k] == x;
            if k < r.len() {
                assert(full[k] == r[k]);
                assert(r.contains(x));
                let i = choose|i: int|
                    0 <= i < init.len() && starts_with(init[i].0, prefix) && ((init[i].1 == EntryKind::File
                        && x == init[i].0.push(' ')) || (init[i].1 == EntryKind::Dir && x == init[i].0.push(
                        '/',
                    )));
                assert(init[i] == es[i]);
            } else {
                let j = es.len() - 1;
                assert(es.last() == es[j]);
            }
        }
    }
}

/// Texts in non-decreasing order.
pub open spec fn sorted(s: Seq<Seq<char>>) -> bool {
    forall|i: int, j: int| 0 <= i < j < s.len() ==> !lex_lt(#[trigger] s[j], #[trigger] s[i])
}

pub open spec fn entry_views(es: Seq<(String, EntryKind)>) -> Seq<(Seq<char>, EntryKind)> {
    es.map_values(|e: (String, EntryKind)| (e.0@, e.1))
}

/// Inserts `s` in its place in the sorted list `v`.
fn insert_ordered(v: &mut Vec<String>, s: String)
    requires
        sorted(views(old(v)@)),
    ensures
        sorted(views(final(v)@)),
        views(final(v)@).to_multiset() == views(old(v)@).to_multiset().insert(s@),
{
    let ghost vs = views(v@);
    let mut p: usize = 0;
    while p < v.len() && !lex_less(s.as_str(), v[p].as_str())
        invariant
            vs == views(v@),
            v@ == old(v)@,
            p <= v@.len(),
            forall|j: int| 0 <= j < p ==> !lex_lt(s@, #[trigger] vs[j]),
        decreases v@.len() - p,
    {
        assert(vs[p as int] == v@[p as int]@);
        p = p + 1;
    }
    proof {
        if p < vs.len() {
            assert(vs[p as int] == v@[p as int]@);
        }
    }
    let ghost sv = s@;
    v.insert(p, s);
    let ghost ws = views(v@);
    assert(ws =~= vs.insert(p as int, sv));
    proof {
        vstd::seq_lib::to_multiset_insert(vs, p as int, sv);
    }
    assert forall|i: int, j: int| 0 <= i < j < ws.len() implies !lex_lt(#[trigger] ws[j], #[trigger] ws[i]) by {
        if j < p {
            assert(ws[i] == vs[i] && ws[j] == vs[j]);
        } else if j == p {
            assert(ws[i] == vs[i]);
            lemma_lex_total(sv, vs[i]);
        } else if i < p {
            assert(ws[i] == vs[i] && ws[j] == vs[j - 1]);
            lemma_lex_total(sv, vs[i]);
            lemma_lex_total(vs[j - 1], vs[i]);
            if lex_lt(vs[j - 1], vs[i]) {
                assert(!lex_lt(vs[j - 1], vs[i]));
            }
        } else if i == p {
            assert(ws[j] == vs[j - 1]);
            if lex_lt(vs[j - 1], sv) {
                lemma_lex_total(vs[p as int], vs[j - 1]);
                lemma_lex_total(vs[p as int], sv);
                if lex_lt(vs[p as int], vs[j - 1]) {
                    lemma_lex_transitive(vs[p as int], vs[j - 1], sv);
                }
            }
        } else {
            assert(ws[i] == vs[i - 1] && ws[j] == vs[j - 1]);
        }
    }
}

/// The completions offered for `prefix` among directory entries (see
/// `file_candidates`), in sorted order.
pub fn file_matches(entries: &Vec<(String, EntryKind)>, prefix: &str) -> (r: Vec<String>)
    ensures
        sorted(views(r@)),
        views(r@).to_multiset() == file_candidates(entry_views(entries@), prefix@).to_multiset(),
        forall|i: int|
            0 <= i < entries@.len() && starts_with(entries@[i].0@, prefix@) && entries@[i].1 == EntryKind::File
                ==> #[trigger] views(r@).contains(entries@[i].0@.push(' ')),
        forall|i: int|
            0 <= i < entries@.len() && starts_with(entries@[i].0@, prefix@) && entries@[i].1 == EntryKind::Dir
                ==> #[trigger] views(r@).contains(entries@[i].0@.push('/')),
        forall|x: Seq<char>|
            #[trigger] views(r@).contains(x) ==> exists|i: int|
                0 <= i < entries@.len() && starts_with(entries@[i].0@, prefix@) && ((entries@[i].1
                    == EntryKind::File && x == entries@[i].0@.push(' ')) || (entries@[i].1 == EntryKind::Dir
                    && x == entries@[i].0@.push('/'))),
{
    let ghost es = entry_views(entries@);
    let mut r: Vec<String> = Vec::new();
    let mut i: usize = 0;
    assert(es.take(0) =~= Seq::<(Seq<char>, EntryKind)>::empty());
    assert(views(r@) =~= Seq::<Seq<char>>::empty());
    while i < entries.len()
        invariant
            es == entry_views(entries@),
            i <= es.len(),
            sorted(views(r@)),
            views(r@).to_multiset() == file_candidates(es.take(i as int), prefix@).to_multiset(),
        decreases es.len() - i,
    {
        assert(es.take(i + 1).drop_last() =~= es.take(i as int));
        assert(es[i as int] == (entries@[i as int].0@, entries@[i as int].1));
        let ghost prev = file_candidates(es.take(i as int), prefix@);
        if has_prefix(entries[i].0.as_str(), prefix) {
            match entries[i].1 {
                EntryKind::File => {
                    let mut m = entries[i].0.clone();
                    m.push(' ');
                    insert_ordered(&mut r, m);
                    proof {
                        vstd::seq_lib::to_multiset_build(prev, m@);
                    }
                },
                EntryKind::Dir => {
                    let mut m = entries[i].0.clone();
                    m.push('/');
                    insert_ordered(&mut r, m);
                    proof {
                        vstd::seq_lib::to_multiset_build(prev, m@);
                    }
                },
                EntryKind::Other => {},
            }
        }
        i = i + 1;
    }
    assert(es.take(es.len() as int) =~= es);
    proof {
        let fc = file_candidates(es, prefix@);
        let rv = views(r@);
        law_file_candidates(es, prefix@);
        assert forall|x: Seq<char>| #[trigger] rv.contains(x) <==> fc.contains(x) by {
            vstd::seq_lib::to_multiset_contains(rv, x);
            vstd::seq_lib::to_multiset_contains(fc, x);
        }
        assert forall|i: int| 0 <= i < entries@.len() implies #[trigger] es[i] == (entries@[i].0@, entries@[i].1) by {}
        assert forall|i: int|
            0 <= i < entries@.len() && starts_with(entries@[i].0@, prefix@) && entries@[i].1 == EntryKind::File
                implies #[trigger] rv.contains(entries@[i].0@.push(' ')) by {
            assert(es[i] == (entries@[i].0@, entries@[i].1));
            assert(fc.contains(es[i].0.push(' ')));
        }
        assert forall|i: int|
            0 <= i < entries@.len() && starts_with(entries@[i].0@, prefix@) && entries@[i].1 == EntryKind::Dir
                implies #[trigger] rv.contains(entries@[i].0@.push('/')) by {
            assert(es[i] == (entries@[i].0@, entries@[i].1));
            assert(fc.contains(es[i].0.push('/')));
        }
        assert forall|x: Seq<char>| #[trigger] rv.contains(x) implies exists|i: int|
            0 <= i < entries@.len() && starts_with(entries@[i].0@, prefix@) && ((entries@[i].1
                == EntryKind::File && x == entries@[i].0@.push(' ')) || (entries@[i].1 == EntryKind::Dir
                && x == entries@[i].0@.push('/'))) by {
            assert(fc.contains(x));
            let i = choose|i: int|
                0 <= i < es.len() && starts_with(es[i].0, prefix@) && ((es[i].1 == EntryKind::File && x
                    == es[i].0.push(' ')) || (es[i].1 == EntryKind::Dir && x == es[i].0.push('/')));
            assert(es[i] == (entries@[i].0@, entries@[i].1));
        }
    }
    r
}

/// The position of the last `c` in `s`, if any.
pub open spec fn last_index(s: Seq<char>, c: char) -> Option<int>
    decreases s.len(),
{
    if s.len() == 0 {
        None
    } else if s.last() == c {
        Some(s.len() - 1)
    } else {
        last_index(s.drop_last(), c)
    }
}

pub proof fn lemma_last_index(s: Seq<char>, c: char)
    ensures
        match last_index(s, c) {
            Some(i) => 0 <= i < s.len() && s[i] == c,
            None => true,
        },
    decreases s.len(),
{
    if s.len() > 0 && s.last() != c {
        lemma_last_index(s.drop_last(), c);
    }
}

/// The position just after the last `c` in `s`, or 0 without one.
pub open spec fn after_last(s: Seq<char>, c: char) -> int {
    match last_index(s, c) {
        Some(i) => i + 1,
        None => 0,
    }
}

pub open spec fn is_char(c: char) -> spec_fn(char) -> bool {
    |x: char| x == c
}

/// The position of the last `c` in `cs[..upto]`, if any.
fn last_index_of(cs: &Vec<char>, upto: usize, c: char) -> (r: Option<usize>)
    requires
        upto <= cs@.len(),
    ensures
        match r {
            Some(i) => i < upto && last_index(cs@.take(upto as int), c) == Some(i as int),
            None => last_index(cs@.take(upto as int), c) is None,
        },
{
    proof { lemma_last_index(cs@.take(upto as int), c); }
    let mut i: usize = upto;
    while i > 0
        invariant
            i <= upto <= cs@.len(),
            last_index(cs@.take(upto as int), c) == last_index(cs@.take(i as int), c),
        decreases i,
    {
        assert(cs@.take(i as int).last() == cs@[i - 1]);
        if cs[i - 1] == c {
            return Some(i - 1);
        }
        assert(cs@.take(i as int).drop_last() =~= cs@.take(i - 1));
        i = i - 1;
    }
    None
}

/// The position of the first `c` in `cs[from..]`, counted from `from`, if
/// any.
fn first_index_of(cs: &Vec<char>, from: usize, c: char) -> (r: Option<usize>)
    requires
        from <= cs@.len(),
    ensures
        match r {
            Some(i) => from + i < cs@.len() && first_where(cs@.skip(from as int), is_char(c)) == Some(i as int),
            None => first_where(cs@.skip(from as int), is_char(c)) is None,
        },
{
    let ghost t = cs@.skip(from as int);
    let mut i: usize = from;
    while i < cs.len()
        invariant
            from <= i <= cs@.len(),
            t == cs@.skip(from as int),
            forall|j: int| 0 <= j < i - from ==> !is_char(c)(#[trigger] t[j]),
        decreases cs@.len() - i,
    {
        if cs[i] == c {
            assert(t[i - from] == cs@[i as int]);
            proof { lemma_first_where_unique(t, is_char(c), i - from); }
            return Some(i - from);
        }
        assert(t[i - from] == cs@[i as int]);
        i = i + 1;
    }
    proof {
        lemma_first_where(t, is_char(c));
        if let Some(k) = first_where(t, is_char(c)) {
            assert(!is_char(c)(t[k]));
        }
    }
    None
}

/// What a completion program is asked, for the line `cs` whose command name
/// ends at character `cmd_end` with the cursor at character `cur`: the
/// command name, the word under the cursor and the word before it (empty
/// when that is the command name itself).
pub open spec fn completer_query(cs: Seq<char>, cmd_end: int, cur: int) -> (Seq<char>, Seq<char>, Seq<char>) {
    let curr_start = after_last(cs.take(cur), ' ');
    let curr_end = match first_where(cs.skip(cur), is_char(' ')) {
        Some(i) => i + cur,
        None => cur,
    };
    let last_end = if curr_start == 0 { 0 } else { curr_start - 1 };
    let ls = after_last(cs.take(last_end), ' ');
    let last_start = if ls <= cmd_end { last_end } else { ls };
    (cs.take(cmd_end), cs.subrange(curr_start, curr_end), cs.subrange(last_start, last_end))
}

/// The arguments a completion program gets: the command name
/// (`line[..cmd_end]`), the word under the cursor and the word before it;
/// `cmd_end` and `cursor` are byte offsets.
pub fn completer_args(line: &str, cmd_end: usize, cursor: usize) -> (r: (String, String, String))
    requires
        is_char_boundary(encode_utf8(line@), cmd_end as int),
        is_char_boundary(encode_utf8(line@), cursor as int),
    ensures
        (r.0@, r.1@, r.2@) == completer_query(
            line@,
            char_pos(line@, cmd_end as int),
            char_pos(line@, cursor as int),
        ),
{
    let cs = chars_of(line);
    proof {
        lemma_boundary_index(line@, cmd_end as int);
        lemma_boundary_index(line@, cursor as int);
    }
    let ce = char_index(&cs, cmd_end);
    let cu = char_index(&cs, cursor);
    proof {
        lemma_char_pos(line@, ce as int);
        lemma_char_pos(line@, cu as int);
    }
    let curr_start = match last_index_of(&cs, cu, ' ') {
        Some(i) => i + 1,
        None => 0,
    };
    proof { lemma_last_index(cs@.take(cu as int), ' '); }
    let curr_end = match first_index_of(&cs, cu, ' ') {
        Some(i) => i + cu,
        None => cu,
    };
    let last_end = if curr_start == 0 { 0 } else { curr_start - 1 };
    proof { lemma_last_index(cs@.take(last_end as int), ' '); }
    let ls = match last_index_of(&cs, last_end, ' ') {
        Some(i) => i + 1,
        None => 0,
    };
    let last_start = if ls <= ce { last_end } else { ls };
    let name = string_of_range(&cs, 0, ce);
    assert(cs@.subrange(0, ce as int) =~= cs@.take(ce as int));
    let curr = string_of_range(&cs, curr_start, curr_end);
    let last = string_of_range(&cs, last_start, last_end);
    (name, curr, last)
}

/// The words of `s` (its maximal runs without white space) and the run
/// still open at its end.
pub open spec fn words_open(s: Seq<char>) -> (Seq<Seq<char>>, Seq<char>)
    decreases s.len(),
{
    if s.len() == 0 {
        (Seq::empty(), Seq::empty())
    } else {
        let (ws, cur) = words_open(s.drop_last());
        if is_white_space(s.last()) {
            if cur.len() > 0 { (ws.push(cur), Seq::empty()) } else { (ws, Seq::empty()) }
        } else {
            (ws, cur.push(s.last()))
        }
    }
}

/// The words of `s`, as `str::split_whitespace` gives them.
pub open spec fn words(s: Seq<char>) -> Seq<Seq<char>> {
    let (ws, cur) = words_open(s);
    if cur.len() > 0 { ws.push(cur) } else { ws }
}

/// The completions a completion program printed: each word of its output,
/// followed by a space.
pub fn completer_candidates(output: &str) -> (r: Vec<String>)
    ensures
        views(r@) == words(output@).map_values(|w: Seq<char>| w.push(' ')),
{
    let cs = chars_of(output);
    let mut ws: Vec<String> = Vec::new();
    let mut cur: Vec<char> = Vec::new();
    let mut i: usize = 0;
    assert(cs@.take(0) =~= Seq::<char>::empty());
    assert(views(ws@) =~= Seq::<Seq<char>>::empty());
    while i < cs.len()
        invariant
            cs@ == output@,
            i <= cs@.len(),
            words_open(cs@.take(i as int)) == (views(ws@).map_values(|w: Seq<char>| w.drop_last()), cur@),
            forall|k: int| 0 <= k < ws@.len() ==> #[trigger] views(ws@)[k].len() > 0 && views(ws@)[k].last() == ' ',
        decreases cs@.len() - i,
    {
        assert(cs@.take(i + 1).drop_last() =~= cs@.take(i as int));
        assert(cs@.take(i + 1).last() == cs@[i as int]);
        let ghost before = views(ws@);
        if is_whitespace_char(cs[i]) {
            if cur.len() > 0 {
                let mut w = string_of_range(&cur, 0, cur.len());
                assert(cur@.subrange(0, cur@.len() as int) =~= cur@);
                w.push(' ');
                ws.push(w);
                assert(views(ws@) =~= before.push(cur@.push(' ')));
                assert(cur@.push(' ').drop_last() =~= cur@);
                assert(views(ws@).map_values(|w: Seq<char>| w.drop_last()) =~= before.map_values(|w: Seq<char>| w.drop_last()).push(cur@));
                cur = Vec::new();
            }
        } else {
            cur.push(cs[i]);
        }
        i = i + 1;
    }
    assert(cs@.take(cs@.len() as int) =~= cs@);
    if cur.len() > 0 {
        let ghost before = views(ws@);
        let mut w = string_of_range(&cur, 0, cur.len());
        assert(cur@.subrange(0, cur@.len() as int) =~= cur@);
        w.push(' ');
        ws.push(w);
        assert(views(ws@) =~= before.push(cur@.push(' ')));
        assert(cur@.push(' ').drop_last() =~= cur@);
    }
    proof {
        let vs = views(ws@);
        let ws0 = vs.map_values(|w: Seq<char>| w.drop_last());
        assert forall|k: int| 0 <= k < vs.len() implies #[trigger] vs[k] == ws0[k].push(' ') by {
            assert(vs[k].len() > 0 && vs[k].last() == ' ');
            assert(vs[k] =~= vs[k].drop_last().push(' '));
        }
    }
    ws
}

/// What to complete at the cursor.
#[derive(Debug)]
pub enum CompletionPlan {
    /// A command name beginning with `prefix`.
    Command { prefix: String },
    /// Ask the registered completion program; the command name ends at
    /// byte `cmd_end` of the line.
    Completer { program: String, cmd_end: usize },
    /// A name in directory `dir` (relative to the working directory, or the
    /// working directory itself when empty) beginning with `prefix`.
    File { dir: String, prefix: String },
}

pub enum PlanView {
    Command { prefix: Seq<char> },
    Completer { program: Seq<char>, cmd_end: int },
    File { dir: Seq<char>, prefix: Seq<char> },
}

impl View for CompletionPlan {
    type V = PlanView;

    open spec fn view(&self) -> PlanView {
        match self {
            CompletionPlan::Command { prefix } => PlanView::Command { prefix: prefix@ },
            CompletionPlan::Completer { program, cmd_end } => PlanView::Completer {
                program: program@,
                cmd_end: *cmd_end as int,
            },
            CompletionPlan::File { dir, prefix } => PlanView::File { dir: dir@, prefix: prefix@ },
        }
    }
}

/// Where the completed word starts (a byte offset) and what to complete,
/// for the line `cs` with the cursor at character `p`: the word before the
/// cursor is a command name when it is the first word; otherwise the
/// completion program registered for the command (the text before the
/// first space) is asked, or else the word is a path whose part up to its
/// last `/` names the directory to look in.
pub open spec fn completion_plan(cs: Seq<char>, p: int, m: Map<Seq<char>, Seq<char>>) -> (int, PlanView) {
    let st = after_last(cs.take(p), ' ');
    let word = cs.subrange(st, p);
    let ce = match first_where(cs, is_char(' ')) {
        Some(i) => i,
        None => 0,
    };
    if st > 0 {
        if m.contains_key(cs.take(ce)) {
            (byte_len(cs.take(st)) as int, PlanView::Completer { program: m[cs.take(ce)], cmd_end: byte_len(cs.take(ce)) as int })
        } else {
            match last_index(word, '/') {
                Some(j) => (
                    byte_len(cs.take(st + j + 1)) as int,
                    PlanView::File { dir: word.take(j + 1), prefix: word.skip(j + 1) },
                ),
                None => (byte_len(cs.take(st)) as int, PlanView::File { dir: Seq::empty(), prefix: word }),
            }
        }
    } else {
        (0, PlanView::Command { prefix: word })
    }
}

/// Decides where the word to complete starts in `line` (a byte offset)
/// and how to complete it, for the cursor at byte `pos`.
pub fn plan_completion(line: &str, pos: usize, completions: &Completions) -> (r: (usize, CompletionPlan))
    requires
        is_char_boundary(encode_utf8(line@), pos as int),
    ensures
        (r.0 as int, r.1@) == completion_plan(line@, char_pos(line@, pos as int), completions@),
{
    let cs = chars_of(line);
    proof { lemma_boundary_index(line@, pos as int); }
    let p = char_index(&cs, pos);
    proof { lemma_char_pos(line@, p as int); }
    let st = match last_index_of(&cs, p, ' ') {
        Some(i) => i + 1,
        None => 0,
    };
    let ghost word = cs@.subrange(st as int, p as int);
    if st == 0 {
        let prefix = string_of_range(&cs, 0, p);
        return (0, CompletionPlan::Command { prefix });
    }
    proof {
        lemma_last_index(cs@.take(p as int), ' ');
        lemma_byte_len_monotone(cs@, st as int, p as int);
    }
    let ce = match first_index_of(&cs, 0, ' ') {
        Some(i) => i,
        None => 0,
    };
    proof {
        assert(cs@.skip(0) =~= cs@);
        lemma_first_where(cs@, is_char(' '));
        let k = last_index(cs@.take(p as int), ' ').unwrap();
        assert(cs@[k] == ' ');
        assert(is_char(' ')(cs@[k]));
        assert(ce <= k);
        lemma_byte_len_monotone(cs@, ce as int, p as int);
    }
    let name = string_of_range(&cs, 0, ce);
    assert(cs@.subrange(0, ce as int) =~= cs@.take(ce as int));
    match completions.get(name.as_str()) {
        Some(program) => {
            let start = byte_offset(&cs, st);
            let cmd_end = byte_offset(&cs, ce);
            (start, CompletionPlan::Completer { program, cmd_end })
        },
        None => {
            let mut wv: Vec<char> = Vec::new();
            let mut k: usize = st;
            while k < p
                invariant
                    st <= k <= p <= cs@.len(),
                    wv@ == cs@.subrange(st as int, k as int),
                decreases p - k,
            {
                wv.push(cs[k]);
                k = k + 1;
            }
            assert(wv@.take(wv@.len() as int) =~= word);
            let n = wv.len();
            match last_index_of(&wv, n, '/') {
                Some(j) => {
                    proof {
                        lemma_byte_len_monotone(cs@, st + j + 1, p as int);
                    }
                    let dir = string_of_range(&wv, 0, j + 1);
                    let prefix = string_of_range(&wv, j + 1, n);
                    assert(wv@.subrange(0, j + 1) =~= word.take(j + 1));
                    assert(wv@.subrange(j + 1, n as int) =~= word.skip(j + 1));
                    let start = byte_offset(&cs, st + j + 1);
                    (start, CompletionPlan::File { dir, prefix })
                },
                None => {
                    let prefix = string_of_range(&cs, st, p);
                    let start = byte_offset(&cs, st);
                    (start, CompletionPlan::File { dir: String::new(), prefix })
                },
            }
        },
    }
}

/// The completed word never starts after the cursor.
pub proof fn law_completion_starts_before_cursor(cs: Seq<char>, p: int, m: Map<Seq<char>, Seq<char>>)
    requires
        0 <= p <= cs.len(),
    ensures
        0 <= completion_plan(cs, p, m).0 <= byte_len(cs.take(p)),
{
    lemma_last_index(cs.take(p), ' ');
    let st = after_last(cs.take(p), ' ');
    let word = cs.subrange(st, p);
    lemma_last_index(word, '/');
    lemma_byte_len_monotone(cs, st, p);
    if let Some(j) = last_index(word, '/') {
        lemma_byte_len_monotone(cs, st + j + 1, p);
    }
}

/// The word under the cursor that a completion program gets holds no
/// space.
pub proof fn law_current_word_has_no_space(cs: Seq<char>, cmd_end: int, cur: int)
    requires
        0 <= cur <= cs.len(),
    ensures
        !completer_query(cs, cmd_end, cur).1.contains(' '),
{
    let pre = cs.take(cur);
    lemma_last_index_is_last(pre, ' ');
    lemma_last_index(pre, ' ');
    let curr_start = after_last(pre, ' ');
    lemma_first_where(cs.skip(cur), is_char(' '));
    let curr_end = match first_where(cs.skip(cur), is_char(' ')) {
        Some(i) => i + cur,
        None => cur,
    };
    let w = cs.subrange(curr_start, curr_end);
    assert forall|k: int| 0 <= k < w.len() implies w[k] != ' ' by {
        let x = curr_start + k;
        assert(w[k] == cs[x]);
        if x < cur {
            assert(pre[x] == cs[x]);
        } else {
            assert(cs.skip(cur)[x - cur] == cs[x]);
            assert(!is_char(' ')(cs.skip(cur)[x - cur]));
        }
    }
}

proof fn lemma_last_index_is_last(s: Seq<char>, c: char)
    ensures
        forall|k: int| after_last(s, c) <= k < s.len() ==> s[k] != c,
    decreases s.len(),
{
    lemma_last_index(s, c);
    if s.len() > 0 && s.last() != c {
        lemma_last_index(s.drop_last(), c);
        lemma_last_index_is_last(s.drop_last(), c);
        assert forall|k: int| after_last(s, c) <= k < s.len() implies s[k] != c by {
            if k < s.len() - 1 {
                assert(s[k] == s.drop_last()[k]);
            }
        }
    }
}

/// The list of commands offered is determined by the executables: any two
/// sorted lists without repeats that hold the same names are the same.
pub proof fn law_command_list_unique(r1: Seq<Seq<char>>, r2: Seq<Seq<char>>, execs: Seq<Seq<char>>)
    requires
        is_command_list(r1, execs),
        is_command_list(r2, execs),
    ensures
        r1 == r2,
{
    lemma_sorted_unique(r1, r2);
}

proof fn lemma_sorted_unique(r1: Seq<Seq<char>>, r2: Seq<Seq<char>>)
    requires
        strictly_sorted(r1),
        strictly_sorted(r2),
        forall|x: Seq<char>| #[trigger] r1.contains(x) <==> r2.contains(x),
    ensures
        r1 == r2,
    decreases r1.len(),
{
    if r1.len() == 0 {
        if r2.len() > 0 {
            assert(r2.contains(r2[0]));
            assert(r1.contains(r2[0]));
        }
        assert(r1 =~= r2);
    } else if r2.len() == 0 {
        assert(r1.contains(r1[0]));
    } else {
        let a = r1[0];
        let b = r2[0];
        assert(r1.contains(a));
        assert(r2.contains(b));
        assert(r1.contains(b));
        let ia = choose|i: int| 0 <= i < r2.len() && r2[i] == a;
        let ib = choose|i: int| 0 <= i < r1.len() && r1[i] == b;
        if a != b {
            lemma_lex_total(a, b);
            if ia > 0 {
                assert(lex_lt(b, a));
            }
            if ib > 0 {
                assert(lex_lt(a, b));
            }
            lemma_lex_irreflexive(a);
        }
        let t1 = r1.drop_first();
        let t2 = r2.drop_first();
        assert forall|i: int, j: int| 0 <= i < j < t1.len() implies lex_lt(#[trigger] t1[i], #[trigger] t1[j]) by {
            assert(t1[i] == r1[i + 1] && t1[j] == r1[j + 1]);
        }
        assert forall|i: int, j: int| 0 <= i < j < t2.len() implies lex_lt(#[trigger] t2[i], #[trigger] t2[j]) by {
            assert(t2[i] == r2[i + 1] && t2[j] == r2[j + 1]);
        }
        assert forall|x: Seq<char>| #[trigger] t1.contains(x) <==> t2.contains(x) by {
            if t1.contains(x) {
                let i = choose|i: int| 0 <= i < t1.len() && t1[i] == x;
                assert(r1[i + 1] == x);
                assert(r1.contains(x));
                let j = choose|j: int| 0 <= j < r2.len() && r2[j] == x;
                assert(lex_lt(a, x));
                if j == 0 {
                    lemma_lex_irreflexive(a);
                }
                assert(t2[j - 1] == x);
            }
            if t2.contains(x) {
                let i = choose|i: int| 0 <= i < t2.len() && t2[i] == x;
                assert(r2[i + 1] == x);
                assert(r2.contains(x));
                assert(r1.contains(x));
                let j = choose|j: int| 0 <= j < r1.len() && r1[j] == x;
                assert(lex_lt(b, x));
                if j == 0 {
                    lemma_lex_irreflexive(b);
                }
                assert(t1[j - 1] == x);
            }
        }
        lemma_sorted_unique(t1, t2);
        assert(r1 =~= seq![a] + t1);
        assert(r2 =~= seq![b] + t2);
    }
}

} // verus!
