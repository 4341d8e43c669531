//! The shell's variables: each has a value and may be exported to the
//! programs the shell runs.

use vstd::prelude::*;
use crate::text::{decimal, decimal_of, opt_view};

verus! {

struct EnvEntry {
    key: String,
    value: String,
    exported: bool,
}

/// The shell's variables.
pub struct Env {
    vars: Vec<EnvEntry>,
}

/// The map that a list of entries with distinct keys stands for.
spec fn entries_map(es: Seq<EnvEntry>) -> Map<Seq<char>, (Seq<char>, bool)>
    decreases es.len(),
{
    if es.len() == 0 {
        Map::empty()
    } else {
        entries_map(es.drop_last()).insert(es.last().key@, (es.last().value@, es.last().exported))
    }
}

spec fn distinct_keys(es: Seq<EnvEntry>) -> bool {
    forall|i: int, j: int| 0 <= i < j < es.len() ==> es[i].key@ != es[j].key@
}

proof fn lemma_entries_map(es: Seq<EnvEntry>)
    requires
        distinct_keys(es),
    ensures
        forall|k: Seq<char>|
            #![trigger entries_map(es).contains_key(k)]
            entries_map(es).contains_key(k) <==> exists|i: int|
                0 <= i < es.len() && es[i].key@ == k,
        forall|i: int|
            #![trigger es[i]]
            0 <= i < es.len() ==> entries_map(es).contains_key(es[i].key@) && entries_map(es)[es[i].key@]
                == (es[i].value@, es[i].exported),
    decreases es.len(),
{
    if es.len() > 0 {
        let init = es.drop_last();
        assert(distinct_keys(init));
        lemma_entries_map(init);
        assert forall|k: Seq<char>|
            #![trigger entries_map(es).contains_key(k)]
            entries_map(es).contains_key(k) <==> exists|i: int|
                0 <= i < es.len() && es[i].key@ == k by {
            if entries_map(es).contains_key(k) && k != es.last().key@ {
                assert(entries_map(init).contains_key(k));
                let i = choose|i: int| 0 <= i < init.len() && init[i].key@ == k;
                assert(init[i] == es[i]);
                assert(es[i].key@ == k);
            }
            if entries_map(es).contains_key(k) && k == es.last().key@ {
                assert(es[es.len() - 1].key@ == k);
            }
            if exists|i: int| 0 <= i < es.len() && es[i].key@ == k {
                let i = choose|i: int| 0 <= i < es.len() && es[i].key@ == k;
                if i < init.len() {
                    assert(init[i] == es[i]);
                    assert(init[i].key@ == k);
                    assert(entries_map(init).contains_key(k));
                }
            }
        }
        assert forall|i: int|
            #![trigger es[i]]
            0 <= i < es.len() implies entries_map(es).contains_key(es[i].key@)
                && entries_map(es)[es[i].key@] == (es[i].value@, es[i].exported) by {
            if i < init.len() {
                assert(init[i] == es[i]);
                assert(es[i].key@ != es.last().key@);
            }
        }
    }
}

proof fn lemma_entries_push(es: Seq<EnvEntry>, e: EnvEntry)
    requires
        distinct_keys(es),
        !entries_map(es).contains_key(e.key@),
    ensures
        distinct_keys(es.push(e)),
        entries_map(es.push(e)) == entries_map(es).insert(e.key@, (e.value@, e.exported)),
{
    lemma_entries_map(es);
    assert(es.push(e).drop_last() =~= es);
    assert forall|i: int, j: int| 0 <= i < j < es.push(e).len() implies es.push(e)[i].key@
        != es.push(e)[j].key@ by {
        if j == es.len() {
            assert(es[i] == es.push(e)[i]);
        } else {
            assert(es[i] == es.push(e)[i]);
            assert(es[j] == es.push(e)[j]);
        }
    }
}

proof fn lemma_entries_update(es: Seq<EnvEntry>, i: int, e: EnvEntry)
    requires
        distinct_keys(es),
        0 <= i < es.len(),
        e.key@ == es[i].key@,
    ensures
        distinct_keys(es.update(i, e)),
        entries_map(es.update(i, e)) == entries_map(es).insert(e.key@, (e.value@, e.exported)),
{
    let es2 = es.update(i, e);
    assert forall|a: int, b: int| 0 <= a < b < es2.len() implies es2[a].key@ != es2[b].key@ by {
        assert(es2[a].key@ == es[a].key@);
        assert(es2[b].key@ == es[b].key@);
    }
    lemma_entries_map(es);
    lemma_entries_map(es2);
    let m1 = entries_map(es2);
    let m2 = entries_map(es).insert(e.key@, (e.value@, e.exported));
    assert forall|k: Seq<char>| m1.contains_key(k) <==> m2.contains_key(k) by {
        if m1.contains_key(k) {
            let j = choose|j: int| 0 <= j < es2.len() && es2[j].key@ == k;
            assert(es2[j].key@ == es[j].key@);
        }
        if m2.contains_key(k) && k != e.key@ {
            assert(entries_map(es).contains_key(k));
            let j = choose|j: int| 0 <= j < es.len() && es[j].key@ == k;
            assert(es2[j].key@ == es[j].key@);
        }
        if k == e.key@ {
            assert(es2[i] == e);
        }
    }
    assert forall|k: Seq<char>| m1.contains_key(k) implies m1[k] == m2[k] by {
        let j = choose|j: int| 0 <= j < es2.len() && es2[j].key@ == k;
        if j != i {
            assert(es2[j] == es[j]);
        }
    }
    assert(m1 =~= m2);
}

impl View for Env {
    type V = Map<Seq<char>, (Seq<char>, bool)>;

    /// Each variable's value and whether it is exported.
    closed spec fn view(&self) -> Map<Seq<char>, (Seq<char>, bool)> {
        entries_map(self.vars@)
    }
}

/// The variables after `key` is set to `value`: an existing variable keeps
/// whether it is exported, a new one is not exported.
pub open spec fn with_var(
    m: Map<Seq<char>, (Seq<char>, bool)>,
    key: Seq<char>,
    value: Seq<char>,
) -> Map<Seq<char>, (Seq<char>, bool)> {
    m.insert(key, (value, m.contains_key(key) && m[key].1))
}

/// The value of `key`, if it is set.
pub open spec fn value_of(m: Map<Seq<char>, (Seq<char>, bool)>, key: Seq<char>) -> Option<
    Seq<char>,
> {
    if m.contains_key(key) {
        Some(m[key].0)
    } else {
        None
    }
}

pub open spec fn home_key() -> Seq<char> {
    seq!['H', 'O', 'M', 'E']
}

pub open spec fn path_key() -> Seq<char> {
    seq!['P', 'A', 'T', 'H']
}

pub open spec fn pwd_key() -> Seq<char> {
    seq!['P', 'W', 'D']
}

pub open spec fn oldpwd_key() -> Seq<char> {
    seq!['O', 'L', 'D', 'P', 'W', 'D']
}

pub open spec fn status_key() -> Seq<char> {
    seq!['?']
}

/// The variables after a change of directory to `dir`: `OLDPWD` takes the
/// value of `PWD` when that is set, and `PWD` becomes `dir`.
pub open spec fn after_cd(m: Map<Seq<char>, (Seq<char>, bool)>, dir: Seq<char>) -> Map<
    Seq<char>,
    (Seq<char>, bool),
> {
    let m1 = if m.contains_key(pwd_key()) {
        with_var(m, oldpwd_key(), m[pwd_key()].0)
    } else {
        m
    };
    with_var(m1, pwd_key(), dir)
}

/// The exported variables and their values.
pub open spec fn exported_map(m: Map<Seq<char>, (Seq<char>, bool)>) -> Map<Seq<char>, Seq<char>> {
    Map::new(|k: Seq<char>| m.contains_key(k) && m[k].1, |k: Seq<char>| m[k].0)
}

/// The map that a list of key/value pairs builds, later pairs winning.
pub open spec fn pairs_map(ps: Seq<(Seq<char>, Seq<char>)>) -> Map<Seq<char>, Seq<char>>
    decreases ps.len(),
{
    if ps.len() == 0 {
        Map::empty()
    } else {
        pairs_map(ps.drop_last()).insert(ps.last().0, ps.last().1)
    }
}

/// The variables given as key/value pairs, all exported; a later pair for
/// the same key wins.
pub open spec fn exported_from(ps: Seq<(Seq<char>, Seq<char>)>) -> Map<
    Seq<char>,
    (Seq<char>, bool),
>
    decreases ps.len(),
{
    if ps.len() == 0 {
        Map::empty()
    } else {
        exported_from(ps.drop_last()).insert(ps.last().0, (ps.last().1, true))
    }
}

pub open spec fn pair_views(v: Seq<(String, String)>) -> Seq<(Seq<char>, Seq<char>)> {
    v.map_values(|p: (String, String)| (p.0@, p.1@))
}

/// The shell's variables, taken from the process environment (given as
/// key/value pairs); all of them are exported.
pub fn create_env(vars: Vec<(String, String)>) -> (r: Env)
    ensures
        r@ == exported_from(pair_views(vars@)),
{
    let mut env = Env::new();
    let mut i: usize = 0;
    let ghost ps = pair_views(vars@);
    assert(ps.take(0) =~= Seq::<(Seq<char>, Seq<char>)>::empty());
    while i < vars.len()
        invariant
            ps == pair_views(vars@),
            i <= vars@.len(),
            env@ == exported_from(ps.take(i as int)),
        decreases vars@.len() - i,
    {
        assert(ps.take(i + 1).drop_last() =~= ps.take(i as int));
        assert(ps[i as int] == (vars@[i as int].0@, vars@[i as int].1@));
        let key = vars[i].0.clone();
        env.set_var(key, vars[i].1.as_str());
        let key = vars[i].0.clone();
        env.export(key);
        assert(env@ =~= exported_from(ps.take(i + 1)));
        i = i + 1;
    }
    assert(ps.take(vars@.len() as int) =~= ps);
    env
}

impl Env {
    #[verifier::type_invariant]
    spec fn keys_distinct(&self) -> bool {
        distinct_keys(self.vars@)
    }

    /// An environment without variables.
    pub fn new() -> (r: Env)
        ensures
            r@ == Map::<Seq<char>, (Seq<char>, bool)>::empty(),
    {
        Env { vars: Vec::new() }
    }

    /// The position of `key` among the entries.
    fn find(&self, key: &str) -> (r: Option<usize>)
        ensures
            match r {
                Some(i) => i < self.vars@.len() && self.vars@[i as int].key@ == key@,
                None => !self@.contains_key(key@),
            },
    {
        proof {
            use_type_invariant(self);
            lemma_entries_map(self.vars@);
        }
        let mut i: usize = 0;
        while i < self.vars.len()
            invariant
                i <= self.vars@.len(),
                forall|j: int| 0 <= j < i ==> self.vars@[j].key@ != key@,
            decreases self.vars@.len() - i,
        {
            if self.vars[i].key.as_str().eq(key) {
                return Some(i);
            }
            i = i + 1;
        }
        None
    }

    /// The value of `key`, if it is set.
    pub fn get(&self, key: &str) -> (r: Option<String>)
        ensures
            opt_view(r) == value_of(self@, key@),
    {
        proof {
            use_type_invariant(self);
            lemma_entries_map(self.vars@);
        }
        match self.find(key) {
            Some(i) => {
                Some(self.vars[i].value.clone())
            },
            None => None,
        }
    }

    /// Sets `key` to `value`; a new variable is not exported.
    pub fn set_var(&mut self, key: String, value: &str)
        ensures
            final(self)@ == with_var(old(self)@, key@, value@),
    {
        proof {
            use_type_invariant(&*self);
            lemma_entries_map(self.vars@);
        }
        match self.find(key.as_str()) {
            Some(i) => {
                let e = EnvEntry { key, value: value.to_string(), exported: self.vars[i].exported };
                proof { lemma_entries_update(self.vars@, i as int, e); }
                let mut vars = Vec::new();
                std::mem::swap(&mut vars, &mut self.vars);
                vars.set(i, e);
                self.vars = vars;
            },
            None => {
                let e = EnvEntry { key, value: value.to_string(), exported: false };
                proof { lemma_entries_push(self.vars@, e); }
                let mut vars = Vec::new();
                std::mem::swap(&mut vars, &mut self.vars);
                vars.push(e);
                self.vars = vars;
            },
        }
    }

    /// Marks `key` as exported, if it is set.
    pub fn export(&mut self, key: String)
        ensures
            final(self)@ == if old(self)@.contains_key(key@) {
                old(self)@.insert(key@, (old(self)@[key@].0, true))
            } else {
                old(self)@
            },
    {
        proof {
            use_type_invariant(&*self);
            lemma_entries_map(self.vars@);
        }
        match self.find(key.as_str()) {
            Some(i) => {
                let e = EnvEntry { key, value: self.vars[i].value.clone(), exported: true };
                proof { lemma_entries_update(self.vars@, i as int, e); }
                let mut vars = Vec::new();
                std::mem::swap(&mut vars, &mut self.vars);
                vars.set(i, e);
                self.vars = vars;
            },
            None => {},
        }
    }

    /// The value of `HOME`, or `/` when it is not set.
    pub fn home(&self) -> (r: String)
        ensures
            r@ == match value_of(self@, home_key()) {
                Some(v) => v,
                None => seq!['/'],
            },
    {
        proof {
            reveal_strlit("HOME");
            reveal_strlit("/");
            assert("HOME"@ =~= home_key());
            assert("/"@ =~= seq!['/']);
        }
        match self.get("HOME") {
            Some(v) => v,
            None => "/".to_string(),
        }
    }

    /// The value of `PATH`, or the empty string when it is not set.
    pub fn path(&self) -> (r: String)
        ensures
            r@ == match value_of(self@, path_key()) {
                Some(v) => v,
                None => Seq::empty(),
            },
    {
        proof {
            reveal_strlit("PATH");
            assert("PATH"@ =~= path_key());
        }
        match self.get("PATH") {
            Some(v) => v,
            None => String::new(),
        }
    }

    /// The current directory as the variables record it (`PWD`).
    pub fn current_dir(&self) -> (r: Option<String>)
        ensures
            opt_view(r) == value_of(self@, pwd_key()),
    {
        proof {
            reveal_strlit("PWD");
            assert("PWD"@ =~= pwd_key());
        }
        self.get("PWD")
    }

    /// Records a change of directory to `new_path` (see `after_cd`).
    pub fn set_current_dir(&mut self, new_path: &str) -> (r: Result<(), ()>)
        ensures
            r is Ok,
            final(self)@ == after_cd(old(self)@, new_path@),
    {
        proof {
            reveal_strlit("PWD");
            reveal_strlit("OLDPWD");
            assert("PWD"@ =~= pwd_key());
            assert("OLDPWD"@ =~= oldpwd_key());
        }
        if let Some(current_pwd) = self.get("PWD") {
            self.set_var("OLDPWD".to_string(), current_pwd.as_str());
        }
        self.set_var("PWD".to_string(), new_path);
        Ok(())
    }

    /// Records the exit status of the last command in `?`.
    pub fn update_after_command(&mut self, exit_code: i32)
        ensures
            final(self)@ == with_var(old(self)@, status_key(), decimal(exit_code as int)),
    {
        proof {
            reveal_strlit("?");
            assert("?"@ =~= status_key());
        }
        let code = decimal_of(exit_code as i64);
        self.set_var("?".to_string(), code.as_str());
    }

    /// The exported variables as key/value pairs, each key once (the part of
    /// preparing a program's environment that the shell decides).
    pub fn exported_vars(&self) -> (r: Vec<(String, String)>)
        ensures
            pairs_map(pair_views(r@)) == exported_map(self@),
            forall|a: int, b: int|
                0 <= a < b < r@.len() ==> #[trigger] r@[a].0@ != #[trigger] r@[b].0@,
    {
        proof { use_type_invariant(self); }
        let mut out: Vec<(String, String)> = Vec::new();
        let mut i: usize = 0;
        let ghost es = self.vars@;
        assert(es.take(0) =~= Seq::<EnvEntry>::empty());
        assert(pairs_map(pair_views(out@)) =~= exported_map(entries_map(es.take(0))));
        while i < self.vars.len()
            invariant
                es == self.vars@,
                distinct_keys(es),
                i <= es.len(),
                pairs_map(pair_views(out@)) == exported_map(entries_map(es.take(i as int))),
                forall|a: int| 0 <= a < out@.len() ==> exists|j: int| 0 <= j < i && #[trigger] out@[a].0@ == es[j].key@,
                forall|a: int, b: int|
                    0 <= a < b < out@.len() ==> #[trigger] out@[a].0@ != #[trigger] out@[b].0@,
            decreases es.len() - i,
        {
            let ghost before = pair_views(out@);
            let ghost m0 = entries_map(es.take(i as int));
            assert(es.take(i + 1).drop_last() =~= es.take(i as int));
            assert(es.take(i + 1).last() == es[i as int]);
            proof {
                assert(distinct_keys(es.take(i as int)));
                lemma_entries_map(es.take(i as int));
                if m0.contains_key(es[i as int].key@) {
                    let j = choose|j: int| 0 <= j < i && es.take(i as int)[j].key@ == es[i as int].key@;
                    assert(es.take(i as int)[j] == es[j]);
                }
            }
            if self.vars[i].exported {
                let k = self.vars[i].key.clone();
                let v = self.vars[i].value.clone();
                let ghost old_out = out@;
                out.push((k, v));
                assert(pair_views(out@) =~= before.push((es[i as int].key@, es[i as int].value@)));
                assert(pair_views(out@).drop_last() =~= before);
                assert(pairs_map(pair_views(out@)) =~= exported_map(entries_map(es.take(i + 1))));
                assert forall|a: int| 0 <= a < out@.len() implies exists|j: int| 0 <= j < i + 1 && #[trigger] out@[a].0@ == es[j].key@ by {
                    if a < old_out.len() {
                        assert(out@[a] == old_out[a]);
                    } else {
                        assert(out@[a].0@ == es[i as int].key@);
                    }
                }
                assert forall|a: int, b: int|
                    0 <= a < b < out@.len() implies #[trigger] out@[a].0@ != #[trigger] out@[b].0@ by {
                    assert(out@[a] == old_out[a]);
                    if b < old_out.len() {
                        assert(out@[b] == old_out[b]);
                    } else {
                        let j = choose|j: int| 0 <= j < i && old_out[a].0@ == es[j].key@;
                    }
                }
            } else {
                assert(exported_map(entries_map(es.take(i + 1))) =~= exported_map(m0));
            }
            i = i + 1;
        }
        assert(es.take(es.len() as int) =~= es);
        out
    }
}

/// A variable that was just set reads back as the value it was set to.
pub proof fn law_get_after_set(m: Map<Seq<char>, (Seq<char>, bool)>, key: Seq<char>, value: Seq<char>)
    ensures
        value_of(with_var(m, key, value), key) == Some(value),
{
}

/// No operation removes a variable: setting, exporting, changing directory
/// and recording an exit status keep every name that was set, so `get`
/// answers `None` only for a name that was never set.
pub proof fn law_keys_never_removed(
    m: Map<Seq<char>, (Seq<char>, bool)>,
    key: Seq<char>,
    value: Seq<char>,
    dir: Seq<char>,
    code: int,
    name: Seq<char>,
)
    requires
        m.contains_key(name),
    ensures
        with_var(m, key, value).contains_key(name),
        (if m.contains_key(key) { m.insert(key, (m[key].0, true)) } else { m }).contains_key(name),
        after_cd(m, dir).contains_key(name),
        with_var(m, status_key(), decimal(code)).contains_key(name),
        value_of(with_var(m, key, value), name) is Some,
        value_of(after_cd(m, dir), name) is Some,
{
}

/// Setting one variable leaves every other variable as it was.
pub proof fn law_set_keeps_others(
    m: Map<Seq<char>, (Seq<char>, bool)>,
    key: Seq<char>,
    value: Seq<char>,
    other: Seq<char>,
)
    requires
        other != key,
    ensures
        value_of(with_var(m, key, value), other) == value_of(m, other),
        with_var(m, key, value).contains_key(other) ==> with_var(m, key, value)[other] == m[other],
{
}

/// Setting a variable does not change whether it is exported; a variable
/// that did not exist before is not exported.
pub proof fn law_set_keeps_export(
    m: Map<Seq<char>, (Seq<char>, bool)>,
    key: Seq<char>,
    value: Seq<char>,
)
    ensures
        exported_map(with_var(m, key, value)).contains_key(key) <==> exported_map(m).contains_key(key),
        !m.contains_key(key) ==> !exported_map(with_var(m, key, value)).contains_key(key),
{
}

/// Exporting a variable passes its current value to programs and changes
/// no value.
pub proof fn law_export(m: Map<Seq<char>, (Seq<char>, bool)>, key: Seq<char>)
    requires
        m.contains_key(key),
    ensures
        ({
            let m2 = m.insert(key, (m[key].0, true));
            &&& exported_map(m2).contains_key(key)
            &&& exported_map(m2)[key] == m[key].0
            &&& forall|k: Seq<char>| #[trigger] value_of(m2, k) == value_of(m, k)
        }),
{
    let m2 = m.insert(key, (m[key].0, true));
    assert forall|k: Seq<char>| #[trigger] value_of(m2, k) == value_of(m, k) by {
    }
}

/// After a change of directory the current directory is the new one and
/// `OLDPWD` holds the previous one.
pub proof fn law_cd(m: Map<Seq<char>, (Seq<char>, bool)>, dir: Seq<char>)
    ensures
        value_of(after_cd(m, dir), pwd_key()) == Some(dir),
        m.contains_key(pwd_key()) ==> value_of(after_cd(m, dir), oldpwd_key()) == Some(
            m[pwd_key()].0,
        ),
        !m.contains_key(pwd_key()) ==> value_of(after_cd(m, dir), oldpwd_key()) == value_of(
            m,
            oldpwd_key(),
        ),
{
    assert(pwd_key() != oldpwd_key());
}

/// Every variable taken from the process environment is exported, with
/// the value of the last pair for its name.
pub proof fn law_process_vars_exported(ps: Seq<(Seq<char>, Seq<char>)>, i: int)
    requires
        0 <= i < ps.len(),
        forall|j: int| i < j < ps.len() ==> #[trigger] ps[j].0 != ps[i].0,
    ensures
        exported_map(exported_from(ps)).contains_key(ps[i].0),
        exported_map(exported_from(ps))[ps[i].0] == ps[i].1,
    decreases ps.len(),
{
    if i < ps.len() - 1 {
        let init = ps.drop_last();
        assert forall|j: int| i < j < init.len() implies #[trigger] init[j].0 != init[i].0 by {
            assert(init[j] == ps[j]);
            assert(init[i] == ps[i]);
        }
        law_process_vars_exported(init, i);
        assert(init[i] == ps[i]);
        assert(ps[ps.len() - 1].0 != ps[i].0);
    }
}

} // verus!
