//! Output redirections (`> file`, `2>> file`, ...) taken out of a command's
//! tokens.

use vstd::prelude::*;
use crate::parser::views;
use crate::text::{chars_of, first_where, lemma_first_where, lemma_first_where_unique};

verus! {

/// How a redirection opens its file.
#[derive(PartialEq, Eq, Structural, Clone, Copy, Debug)]
pub enum RedirectMode {
    Append,
    Overwrite,
}

/// A redirection of standard output.
#[derive(Debug)]
pub struct Redirect {
    pub mode: RedirectMode,
    pub path: String,
}

/// The operators that redirect standard output.
pub open spec fn is_out_op(t: Seq<char>) -> bool {
    ||| t == seq!['>']
    ||| t == seq!['>', '>']
    ||| t == seq!['1', '>']
    ||| t == seq!['1', '>', '>']
}

/// The operators that redirect standard error.
pub open spec fn is_err_op(t: Seq<char>) -> bool {
    t == seq!['2', '>'] || t == seq!['2', '>', '>']
}

pub open spec fn out_op() -> spec_fn(Seq<char>) -> bool {
    |t: Seq<char>| is_out_op(t)
}

pub open spec fn err_op() -> spec_fn(Seq<char>) -> bool {
    |t: Seq<char>| is_err_op(t)
}

/// An operator that holds `>>` appends; any other overwrites.
pub open spec fn mode_of(op: Seq<char>) -> RedirectMode {
    if exists|i: int| 0 <= i && i + 1 < op.len() && #[trigger] op[i] == '>' && op[i + 1] == '>' {
        RedirectMode::Append
    } else {
        RedirectMode::Overwrite
    }
}

/// The redirection that the first operator satisfying `p` makes, with the
/// tokens that remain: the operator and the path after it are removed. An
/// operator without a path after it makes none and removes nothing.
pub open spec fn take_redirect(ts: Seq<Seq<char>>, p: spec_fn(Seq<char>) -> bool) -> (
    Option<(RedirectMode, Seq<char>)>,
    Seq<Seq<char>>,
) {
    match first_where(ts, p) {
        Some(i) => if i + 1 < ts.len() {
            (Some((mode_of(ts[i]), ts[i + 1])), ts.remove(i).remove(i))
        } else {
            (None, ts)
        },
        None => (None, ts),
    }
}

/// A redirection operator appends exactly when it ends in `>>`; `>`, `1>`
/// and `2>` overwrite.
pub proof fn law_redirect_mode(op: Seq<char>)
    requires
        is_out_op(op) || is_err_op(op),
    ensures
        (mode_of(op) == RedirectMode::Append) <==> (op.len() >= 2 && op[op.len() - 2] == '>' && op[op.len()
            - 1] == '>'),
{
    if op.len() >= 2 && op[op.len() - 2] == '>' && op[op.len() - 1] == '>' {
        assert(op[op.len() - 2] == '>' && op[op.len() - 2 + 1] == '>');
    } else {
        assert forall|i: int| 0 <= i && i + 1 < op.len() implies !(#[trigger] op[i] == '>' && op[i + 1] == '>') by {
            if op.len() == 3 {
                assert(op[0] != '>');
            }
        }
    }
}

/// The first redirection operator followed by a path is what is taken out:
/// for tokens `pre`, `op`, `path`, `post` where `op` is an operator of the
/// kind looked for (`p`) and no token of `pre` is, the redirection is `op`'s mode to `path`, and the
/// tokens left are `pre` then `post`.
pub proof fn law_take_first_redirect(
    pre: Seq<Seq<char>>,
    op: Seq<char>,
    path: Seq<char>,
    post: Seq<Seq<char>>,
    p: spec_fn(Seq<char>) -> bool,
)
    requires
        p(op),
        forall|k: int| 0 <= k < pre.len() ==> !p(#[trigger] pre[k]),
    ensures
        take_redirect(pre + seq![op, path] + post, p) == (Some((mode_of(op), path)), pre + post),
{
    let ts = pre + seq![op, path] + post;
    let i = pre.len() as int;
    assert(ts[i] == op);
    assert(ts[i + 1] == path);
    assert forall|j: int| 0 <= j < i implies !p(#[trigger] ts[j]) by {
        assert(ts[j] == pre[j]);
    }
    lemma_first_where_unique(ts, p, i);
    assert(ts.remove(i).remove(i) =~= pre + post);
}

/// Whether `op` holds `>>`.
fn appends(op: &str) -> (r: RedirectMode)
    ensures
        r == mode_of(op@),
{
    let cs = chars_of(op);
    let mut i: usize = 0;
    while i < cs.len() && cs.len() - i >= 2
        invariant
            i <= cs@.len(),
            cs@ == op@,
            forall|j: int| 0 <= j < i && j + 1 < cs@.len() ==> !(#[trigger] cs@[j] == '>' && cs@[j + 1] == '>'),
        decreases cs@.len() - i,
    {
        if cs[i] == '>' && cs[i + 1] == '>' {
            return RedirectMode::Append;
        }
        i = i + 1;
    }
    RedirectMode::Overwrite
}

fn is_out_token(t: &String) -> (r: bool)
    ensures
        r == is_out_op(t@),
{
    proof {
        reveal_strlit(">");
        reveal_strlit(">>");
        reveal_strlit("1>");
        reveal_strlit("1>>");
        assert(">"@ =~= seq!['>']);
        assert(">>"@ =~= seq!['>', '>']);
        assert("1>"@ =~= seq!['1', '>']);
        assert("1>>"@ =~= seq!['1', '>', '>']);
    }
    let s = t.as_str();
    s.eq(">") || s.eq(">>") || s.eq("1>") || s.eq("1>>")
}

fn is_err_token(t: &String) -> (r: bool)
    ensures
        r == is_err_op(t@),
{
    proof {
        reveal_strlit("2>");
        reveal_strlit("2>>");
        assert("2>"@ =~= seq!['2', '>']);
        assert("2>>"@ =~= seq!['2', '>', '>']);
    }
    let s = t.as_str();
    s.eq("2>") || s.eq("2>>")
}

/// Takes the operator at `index` and the path after it out of `input`.
fn take_pair(input: &mut Vec<String>, index: usize) -> (r: (RedirectMode, String))
    requires
        index + 1 < old(input)@.len(),
    ensures
        r.0 == mode_of(old(input)@[index as int]@),
        r.1@ == old(input)@[index as int + 1]@,
        views(final(input)@) == views(old(input)@).remove(index as int).remove(index as int),
{
    let ghost v0 = views(input@);
    let op = input.remove(index);
    let ghost v1 = views(input@);
    assert(v1 =~= v0.remove(index as int));
    let path = input.remove(index);
    assert(views(input@) =~= v1.remove(index as int));
    (appends(op.as_str()), path)
}

/// Takes the first redirection of standard output (`>`, `>>`, `1>`, `1>>`
/// followed by a path) out of `input`.
pub fn redirect_out(input: &mut Vec<String>) -> (r: Option<Redirect>)
    ensures
        ({
            let (red, rest) = take_redirect(views(old(input)@), out_op());
            &&& views(final(input)@) == rest
            &&& match r {
                Some(rd) => red == Some((rd.mode, rd.path@)),
                None => red is None,
            }
        }),
{
    let ghost ts = views(input@);
    let mut i: usize = 0;
    while i < input.len()
        invariant
            ts == views(input@),
            input@ == old(input)@,
            i <= input@.len(),
            forall|j: int| 0 <= j < i ==> !out_op()(#[trigger] ts[j]),
        decreases input@.len() - i,
    {
        assert(ts[i as int] == input@[i as int]@);
        if is_out_token(&input[i]) {
            proof { lemma_first_where_unique(ts, out_op(), i as int); }
            if input.len() - i > 1 {
                let (mode, path) = take_pair(input, i);
                return Some(Redirect { mode, path });
            } else {
                return None;
            }
        }
        i = i + 1;
    }
    proof {
        lemma_first_where(ts, out_op());
        if let Some(k) = first_where(ts, out_op()) {
            assert(!out_op()(ts[k]));
        }
    }
    None
}

/// Takes the first redirection of standard error (`2>` or `2>>` followed
/// by a path) out of `input`.
pub fn redirect_err(input: &mut Vec<String>) -> (r: Option<(RedirectMode, String)>)
    ensures
        ({
            let (red, rest) = take_redirect(views(old(input)@), err_op());
            &&& views(final(input)@) == rest
            &&& match r {
                Some(p) => red == Some((p.0, p.1@)),
                None => red is None,
            }
        }),
{
    let ghost ts = views(input@);
    let mut i: usize = 0;
    while i < input.len()
        invariant
            ts == views(input@),
            input@ == old(input)@,
            i <= input@.len(),
            forall|j: int| 0 <= j < i ==> !err_op()(#[trigger] ts[j]),
        decreases input@.len() - i,
    {
        assert(ts[i as int] == input@[i as int]@);
        if is_err_token(&input[i]) {
            proof { lemma_first_where_unique(ts, err_op(), i as int); }
            if input.len() - i > 1 {
                let pair = take_pair(input, i);
                return Some(pair);
            } else {
                return None;
            }
        }
        i = i + 1;
    }
    proof {
        lemma_first_where(ts, err_op());
        if let Some(k) = first_where(ts, err_op()) {
            assert(!err_op()(ts[k]));
        }
    }
    None
}

} // verus!
