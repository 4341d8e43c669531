//! The shell's builtin commands: what each one prints and changes.

use vstd::prelude::*;
use crate::env_custom::{pairs_map, pair_views};
use crate::parser::{views, Builtin, Cmd, CommandLine, CmdView, resolved, flag_value, flag_values};
use crate::text::{join, join_strings, opt_view};

verus! {

spec fn distinct_pair_keys(ps: Seq<(Seq<char>, Seq<char>)>) -> bool {
    forall|i: int, j: int| 0 <= i < j < ps.len() ==> ps[i].0 != ps[j].0
}

proof fn lemma_pairs_map(ps: Seq<(Seq<char>, Seq<char>)>)
    requires
        distinct_pair_keys(ps),
    ensures
        forall|k: Seq<char>|
            #![trigger pairs_map(ps).contains_key(k)]
            pairs_map(ps).contains_key(k) <==> exists|i: int| 0 <= i < ps.len() && ps[i].0 == k,
        forall|i: int|
            #![trigger ps[i]]
            0 <= i < ps.len() ==> pairs_map(ps).contains_key(ps[i].0) && pairs_map(ps)[ps[i].0]
                == ps[i].1,
    decreases ps.len(),
{
    if ps.len() > 0 {
        let init = ps.drop_last();
        assert(distinct_pair_keys(init));
        lemma_pairs_map(init);
        assert forall|k: Seq<char>|
            #![trigger pairs_map(ps).contains_key(k)]
            pairs_map(ps).contains_key(k) <==> exists|i: int| 0 <= i < ps.len() && ps[i].0 == k by {
            if pairs_map(ps).contains_key(k) && k != ps.last().0 {
                assert(pairs_map(init).contains_key(k));
                let i = choose|i: int| 0 <= i < init.len() && init[i].0 == k;
                assert(init[i] == ps[i]);
            }
            if pairs_map(ps).contains_key(k) && k == ps.last().0 {
                assert(ps[ps.len() - 1].0 == k);
            }
            if exists|i: int| 0 <= i < ps.len() && ps[i].0 == k {
                let i = choose|i: int| 0 <= i < ps.len() && ps[i].0 == k;
                if i < init.len() {
                    assert(init[i] == ps[i]);
                    assert(pairs_map(init).contains_key(k));
                }
            }
        }
        assert forall|i: int|
            #![trigger ps[i]]
            0 <= i < ps.len() implies pairs_map(ps).contains_key(ps[i].0) && pairs_map(ps)[ps[i].0]
                == ps[i].1 by {
            if i < init.len() {
                assert(init[i] == ps[i]);
                assert(ps[i].0 != ps.last().0);
            }
        }
    }
}

/// Two lists of pairs with distinct keys and the same pairs, as a set of
/// key positions, build the same map.
proof fn lemma_pairs_map_ext(a: Seq<(Seq<char>, Seq<char>)>, m: Map<Seq<char>, Seq<char>>)
    requires
        distinct_pair_keys(a),
        forall|k: Seq<char>| m.contains_key(k) <==> exists|i: int| 0 <= i < a.len() && a[i].0 == k,
        forall|i: int| 0 <= i < a.len() ==> #[trigger] m[a[i].0] == a[i].1,
    ensures
        pairs_map(a) == m,
{
    lemma_pairs_map(a);
    assert forall|k: Seq<char>| #[trigger] pairs_map(a).contains_key(k) implies pairs_map(a)[k] == m[k] by {
        let i = choose|i: int| 0 <= i < a.len() && a[i].0 == k;
    }
    assert(pairs_map(a) =~= m);
}

/// The position of `key` among the entries.
fn find_key(entries: &Vec<(String, String)>, key: &str) -> (r: Option<usize>)
    ensures
        match r {
            Some(i) => i < entries@.len() && entries@[i as int].0@ == key@,
            None => forall|j: int| 0 <= j < entries@.len() ==> entries@[j].0@ != key@,
        },
{
    let mut i: usize = 0;
    while i < entries.len()
        invariant
            i <= entries@.len(),
            forall|j: int| 0 <= j < i ==> entries@[j].0@ != key@,
        decreases entries@.len() - i,
    {
        if entries[i].0.as_str().eq(key) {
            return Some(i);
        }
        i = i + 1;
    }
    None
}

/// The completion programs registered with `complete -C`: command name to
/// program path.
pub struct Completions {
    entries: Vec<(String, String)>,
}

impl View for Completions {
    type V = Map<Seq<char>, Seq<char>>;

    closed spec fn view(&self) -> Map<Seq<char>, Seq<char>> {
        pairs_map(pair_views(self.entries@))
    }
}

impl Completions {
    #[verifier::type_invariant]
    spec fn keys_distinct(&self) -> bool {
        distinct_pair_keys(pair_views(self.entries@))
    }

    /// No completion programs.
    pub fn new() -> (r: Completions)
        ensures
            r@ == Map::<Seq<char>, Seq<char>>::empty(),
    {
        let r = Completions { entries: Vec::new() };
        assert(pair_views(r.entries@) =~= Seq::<(Seq<char>, Seq<char>)>::empty());
        r
    }

    fn find(&self, key: &str) -> (r: Option<usize>)
        ensures
            match r {
                Some(i) => i < self.entries@.len() && self.entries@[i as int].0@ == key@,
                None => !self@.contains_key(key@),
            },
    {
        proof {
            use_type_invariant(self);
            lemma_pairs_map(pair_views(self.entries@));
        }
        let mut i: usize = 0;
        while i < self.entries.len()
            invariant
                i <= self.entries@.len(),
                forall|j: int| 0 <= j < i ==> self.entries@[j].0@ != key@,
            decreases self.entries@.len() - i,
        {
            if self.entries[i].0.as_str().eq(key) {
                return Some(i);
            }
            i = i + 1;
        }
        proof {
            if self@.contains_key(key@) {
                let j = choose|j: int| 0 <= j < self.entries@.len() && pair_views(self.entries@)[j].0 == key@;
                assert(pair_views(self.entries@)[j].0 == self.entries@[j].0@);
            }
        }
        None
    }

    /// The program registered for `command`, if any.
    pub fn get(&self, command: &str) -> (r: Option<String>)
        ensures
            opt_view(r) == (if self@.contains_key(command@) {
                Some(self@[command@])
            } else {
                None
            }),
    {
        proof {
            use_type_invariant(self);
            lemma_pairs_map(pair_views(self.entries@));
        }
        match self.find(command) {
            Some(i) => {
                assert(pair_views(self.entries@)[i as int] == (self.entries@[i as int].0@, self.entries@[i as int].1@));
                Some(self.entries[i].1.clone())
            },
            None => None,
        }
    }

    /// Registers `program` for `command`, replacing any earlier one.
    pub fn insert(&mut self, command: String, program: String)
        ensures
            final(self)@ == old(self)@.insert(command@, program@),
    {
        proof {
            use_type_invariant(&*self);
            lemma_pairs_map(pair_views(self.entries@));
        }
        let ghost old_ps = pair_views(self.entries@);
        let ghost target = pairs_map(old_ps).insert(command@, program@);
        let mut entries = Vec::new();
        std::mem::swap(&mut entries, &mut self.entries);
        match find_key(&entries, command.as_str()) {
            Some(i) => {
                entries.set(i, (command, program));
                let ghost ps = pair_views(entries@);
                assert(ps =~= old_ps.update(i as int, ps[i as int]));
                assert forall|a: int, b: int| 0 <= a < b < ps.len() implies ps[a].0 != ps[b].0 by {
                    assert(ps[a].0 == old_ps[a].0);
                    assert(ps[b].0 == old_ps[b].0);
                }
                proof {
                    assert forall|k: Seq<char>| target.contains_key(k) <==> exists|x: int| 0 <= x < ps.len() && ps[x].0 == k by {
                        if target.contains_key(k) && k != command@ {
                            assert(pairs_map(old_ps).contains_key(k));
                            let x = choose|x: int| 0 <= x < old_ps.len() && old_ps[x].0 == k;
                            assert(ps[x].0 == old_ps[x].0);
                        }
                        if k == command@ {
                            assert(ps[i as int].0 == k);
                        }
                        if exists|x: int| 0 <= x < ps.len() && ps[x].0 == k {
                            let x = choose|x: int| 0 <= x < ps.len() && ps[x].0 == k;
                            assert(ps[x].0 == old_ps[x].0);
                        }
                    }
                    assert forall|x: int| 0 <= x < ps.len() implies #[trigger] target[ps[x].0] == ps[x].1 by {
                        if x != i {
                            assert(ps[x] == old_ps[x]);
                        }
                    }
                    lemma_pairs_map_ext(ps, target);
                }
            },
            None => {
                entries.push((command, program));
                let ghost ps = pair_views(entries@);
                assert(ps =~= old_ps.push((command@, program@)));
                assert(ps.drop_last() =~= old_ps);
                assert forall|a: int, b: int| 0 <= a < b < ps.len() implies ps[a].0 != ps[b].0 by {
                    assert(ps[a] == old_ps[a]);
                    if b < old_ps.len() {
                        assert(ps[b] == old_ps[b]);
                    }
                }
            },
        }
        self.entries = entries;
    }

    /// Drops the program registered for `command`, if any.
    pub fn remove(&mut self, command: &str)
        ensures
            final(self)@ == old(self)@.remove(command@),
    {
        proof {
            use_type_invariant(&*self);
            lemma_pairs_map(pair_views(self.entries@));
        }
        let ghost old_ps = pair_views(self.entries@);
        let ghost target = pairs_map(old_ps).remove(command@);
        match find_key(&self.entries, command) {
            Some(i) => {
                let mut entries = Vec::new();
                std::mem::swap(&mut entries, &mut self.entries);
                entries.remove(i);
                let ghost ps = pair_views(entries@);
                assert(ps =~= old_ps.remove(i as int));
                assert(old_ps[i as int].0 == command@);
                assert forall|a: int, b: int| 0 <= a < b < ps.len() implies ps[a].0 != ps[b].0 by {
                    let a0 = if a < i { a } else { a + 1 };
                    let b0 = if b < i { b } else { b + 1 };
                    assert(ps[a] == old_ps[a0]);
                    assert(ps[b] == old_ps[b0]);
                }
                proof {
                    assert forall|k: Seq<char>| target.contains_key(k) <==> exists|x: int| 0 <= x < ps.len() && ps[x].0 == k by {
                        if target.contains_key(k) {
                            assert(pairs_map(old_ps).contains_key(k));
                            let x = choose|x: int| 0 <= x < old_ps.len() && old_ps[x].0 == k;
                            assert(x != i);
                            if x < i {
                                assert(ps[x] == old_ps[x]);
                            } else {
                                assert(ps[x - 1] == old_ps[x]);
                            }
                        }
                        if exists|x: int| 0 <= x < ps.len() && ps[x].0 == k {
                            let x = choose|x: int| 0 <= x < ps.len() && ps[x].0 == k;
                            let x0 = if x < i { x } else { x + 1 };
                            assert(ps[x] == old_ps[x0]);
                            assert(x0 != i);
                        }
                    }
                    assert forall|x: int| 0 <= x < ps.len() implies #[trigger] target[ps[x].0] == ps[x].1 by {
                        let x0 = if x < i { x } else { x + 1 };
                        assert(ps[x] == old_ps[x0]);
                    }
                    lemma_pairs_map_ext(ps, target);
                }
                self.entries = entries;
            },
            None => {
                assert(pairs_map(old_ps) =~= target);
            },
        }
    }

}

/// What the shell does after a builtin has printed its lines.
#[derive(Debug)]
pub enum Action {
    Nothing,
    Exit,
    /// Print the working directory.
    PrintWorkingDir,
    /// Change the working directory to the given path.
    ChangeDir(String),
}

/// The lines a builtin prints on standard output and standard error, and
/// what the shell does next.
pub struct BuiltinOutput {
    pub out: Vec<String>,
    pub err: Vec<String>,
    pub action: Action,
}

/// The line `type` prints for the words `ts` (`found`: what the search
/// path gave for the first one).
pub open spec fn type_line(ts: Seq<Seq<char>>, found: Option<Seq<char>>) -> Seq<char> {
    if ts.len() == 0 {
        Seq::empty()
    } else {
        match resolved(ts[0], found) {
            CmdView::Builtin(_) => ts[0] + " is a shell builtin"@,
            CmdView::External { name, path } => name + " is "@ + path,
            CmdView::Unknown(n) => n + " not found"@,
        }
    }
}

/// The lines `complete` prints: with `-p c`, the registration for `c`.
pub open spec fn complete_report(ts: Seq<Seq<char>>, m: Map<Seq<char>, Seq<char>>) -> Seq<
    Seq<char>,
> {
    match flag_value(ts, "-p"@) {
        Some(c) => if m.contains_key(c) {
            seq!["complete -C '"@ + m[c] + "' "@ + c]
        } else {
            seq!["complete: "@ + c + ": no completion specification"@]
        },
        None => Seq::empty(),
    }
}

/// The registrations after `complete`: `-C path c` registers `path` for
/// `c`, then `-r c` drops the registration for `c`.
pub open spec fn complete_table(ts: Seq<Seq<char>>, m: Map<Seq<char>, Seq<char>>) -> Map<
    Seq<char>,
    Seq<char>,
> {
    let m1 = match flag_values(ts, "-C"@) {
        Some((path, c)) => m.insert(c, path),
        None => m,
    };
    match flag_value(ts, "-r"@) {
        Some(c) => m1.remove(c),
        None => m1,
    }
}

pub open spec fn lines(v: Seq<String>) -> Seq<Seq<char>> {
    v.map_values(|s: String| s@)
}

/// Runs a builtin with the arguments of `command`. `found` is what the
/// search path gave for the first argument (only `type` looks at it).
pub fn run_builtin(
    cmd: &Builtin,
    command: &CommandLine,
    completions: &mut Completions,
    found: Option<String>,
) -> (r: BuiltinOutput)
    ensures
        ({
            let ts = views(command.tokens@);
            match *cmd {
                Builtin::Exit => lines(r.out@).len() == 0 && lines(r.err@).len() == 0
                    && r.action is Exit && final(completions)@ == old(completions)@,
                Builtin::Echo => lines(r.out@) == seq![join(ts, " "@)] && lines(r.err@).len() == 0
                    && r.action is Nothing && final(completions)@ == old(completions)@,
                Builtin::Type => lines(r.out@) == seq![type_line(ts, opt_view(found))] && lines(
                    r.err@,
                ).len() == 0 && r.action is Nothing && final(completions)@ == old(completions)@,
                Builtin::Pwd => lines(r.out@).len() == 0 && lines(r.err@).len() == 0
                    && r.action is PrintWorkingDir && final(completions)@ == old(completions)@,
                Builtin::Cd => lines(r.out@).len() == 0 && lines(r.err@).len() == 0
                    && final(completions)@ == old(completions)@ && if ts.len() > 0 {
                    r.action matches Action::ChangeDir(p) && p@ == ts[0]
                } else {
                    r.action is Nothing
                },
                Builtin::Complete => lines(r.out@).len() == 0 && lines(r.err@) == complete_report(
                    ts,
                    old(completions)@,
                ) && r.action is Nothing && final(completions)@ == complete_table(
                    ts,
                    old(completions)@,
                ) && forall|d: Seq<char>|
                    flag_value(ts, "-r"@) != Some(d) && !(flag_values(ts, "-C"@) is Some && flag_values(
                        ts,
                        "-C"@,
                    ).unwrap().1 == d) ==> {
                        &&& #[trigger] final(completions)@.contains_key(d) == old(completions)@.contains_key(d)
                        &&& old(completions)@.contains_key(d) ==> final(completions)@[d] == old(completions)@[d]
                    },
                Builtin::Jobs => lines(r.out@).len() == 0 && lines(r.err@).len() == 0
                    && r.action is Nothing && final(completions)@ == old(completions)@,
            }
        }),
{
    let ghost ts = views(command.tokens@);
    let mut out: Vec<String> = Vec::new();
    let mut err: Vec<String> = Vec::new();
    let mut action = Action::Nothing;
    match cmd {
        Builtin::Exit => {
            action = Action::Exit;
        },
        Builtin::Echo => {
            let msg = join_strings(&command.tokens, " ");
            out.push(msg);
        },
        Builtin::Type => {
            if command.tokens.len() == 0 {
                out.push(String::new());
            } else {
                assert(ts[0] == command.tokens@[0]@);
                let line = match Cmd::resolve(command.tokens[0].as_str(), found) {
                    Cmd::Builtin(_) => {
                        let mut l = command.tokens[0].clone();
                        l.append(" is a shell builtin");
                        l
                    },
                    Cmd::External(e) => {
                        let mut l = e.name;
                        l.append(" is ");
                        l.append(e.path.as_str());
                        l
                    },
                    Cmd::Unknown(n) => {
                        let mut l = n;
                        l.append(" not found");
                        l
                    },
                };
                out.push(line);
            }
        },
        Builtin::Pwd => {
            action = Action::PrintWorkingDir;
        },
        Builtin::Cd => {
            if command.tokens.len() > 0 {
                assert(ts[0] == command.tokens@[0]@);
                action = Action::ChangeDir(command.tokens[0].clone());
            }
        },
        Builtin::Complete => {
            if let Some(c) = command.find_flag("-p") {
                let line = match completions.get(c.as_str()) {
                    Some(path) => {
                        let mut l = "complete -C '".to_string();
                        l.append(path.as_str());
                        l.append("' ");
                        l.append(c.as_str());
                        l
                    },
                    None => {
                        let mut l = "complete: ".to_string();
                        l.append(c.as_str());
                        l.append(": no completion specification");
                        l
                    },
                };
                err.push(line);
            }
            if let Some((path, c)) = command.find_flag_double("-C") {
                completions.insert(c.clone(), path.clone());
            }
            if let Some(c) = command.find_flag("-r") {
                completions.remove(c.as_str());
            }
            proof {
                assert forall|d: Seq<char>|
                    flag_value(ts, "-r"@) != Some(d) && !(flag_values(ts, "-C"@) is Some && flag_values(
                        ts,
                        "-C"@,
                    ).unwrap().1 == d) implies {
                        &&& #[trigger] completions@.contains_key(d) == old(completions)@.contains_key(d)
                        &&& old(completions)@.contains_key(d) ==> completions@[d] == old(completions)@[d]
                    } by {
                    law_complete_changes_only_named(ts, old(completions)@, d, d);
                }
            }
        },
        Builtin::Jobs => {},
    }
    BuiltinOutput { out, err, action }
}

/// A completion program registered with `complete -C program cmd` is what
/// a later `complete -p cmd` reports; after `complete -r cmd` there is no
/// completion specification for `cmd`.
pub proof fn law_complete_register_query(
    ts1: Seq<Seq<char>>,
    ts2: Seq<Seq<char>>,
    m: Map<Seq<char>, Seq<char>>,
    program: Seq<char>,
    cmd: Seq<char>,
)
    requires
        flag_value(ts2, "-p"@) == Some(cmd),
    ensures
        flag_values(ts1, "-C"@) == Some((program, cmd)) && flag_value(ts1, "-r"@) != Some(cmd)
            ==> complete_report(ts2, complete_table(ts1, m)) == seq![
            "complete -C '"@ + program + "' "@ + cmd,
        ],
        flag_value(ts1, "-r"@) == Some(cmd) ==> complete_report(ts2, complete_table(ts1, m))
            == seq!["complete: "@ + cmd + ": no completion specification"@],
{
}

/// `complete` changes no registration but those it names: a command `d`
/// that is neither the one `-r` removes nor the one `-C` registers keeps
/// exactly the registration it had (or stays without one). The one `-r`
/// names has none afterwards, and the one `-C` names (when `-r` does not
/// name it too) has the program given.
pub proof fn law_complete_changes_only_named(
    ts: Seq<Seq<char>>,
    m: Map<Seq<char>, Seq<char>>,
    d: Seq<char>,
    program: Seq<char>,
)
    ensures
        flag_value(ts, "-r"@) != Some(d) && !(flag_values(ts, "-C"@) is Some && flag_values(ts, "-C"@).unwrap().1
            == d) ==> {
            &&& complete_table(ts, m).contains_key(d) == m.contains_key(d)
            &&& m.contains_key(d) ==> complete_table(ts, m)[d] == m[d]
        },
        flag_value(ts, "-r"@) == Some(d) ==> !complete_table(ts, m).contains_key(d),
        flag_values(ts, "-C"@) == Some((program, d)) && flag_value(ts, "-r"@) != Some(d) ==> {
            &&& complete_table(ts, m).contains_key(d)
            &&& complete_table(ts, m)[d] == program
        },
{
}


/// The error line of a `cd` that could not change to `path`.
pub fn cd_error_line(path: &str) -> (r: String)
    ensures
        r@ == "cd: "@ + path@ + ": No such file or directory"@,
{
    let mut r = "cd: ".to_string();
    r.append(path);
    r.append(": No such file or directory");
    r
}

/// The error line of a `pwd` that could not read the working directory.
pub fn pwd_error_line() -> (r: String)
    ensures
        r@ == "should not happen"@,
{
    "should not happen".to_string()
}

/// The line printed for a command word that names nothing.
pub fn command_not_found(name: &str) -> (r: String)
    ensures
        r@ == name@ + ": command not found"@,
{
    let mut r = name.to_string();
    r.append(": command not found");
    r
}

} // verus!
