//! Tokenizing a command line and splitting it into pipeline stages.

use vstd::prelude::*;
use crate::text::{is_white_space, trim_start, trim_end, lemma_trim_sub, opt_view, split_seq, lemma_split_seq_len, split_chars, trim, chars_of, trim_bounds, push_all, string_of};

verus! {

/// The quoting context the tokenizer is in.
#[derive(PartialEq, Eq, Structural, Clone, Copy)]
pub enum ParseMode {
    Normal,
    SingleQuote,
    DoubleQuote,
}

/// The text views of a sequence of strings.
pub open spec fn views(v: Seq<String>) -> Seq<Seq<char>> {
    v.map_values(|s: String| s@)
}

/// Appends the pending argument to the finished ones when it is not empty.
pub open spec fn flush(arg: Seq<char>, args: Seq<Seq<char>>) -> Seq<Seq<char>> {
    if arg.len() > 0 { args.push(arg) } else { args }
}

/// The tokenizer's state between two characters.
pub struct LexState {
    pub pos: nat,
    pub mode: ParseMode,
    pub last: char,
    pub arg: Seq<char>,
    pub args: Seq<Seq<char>>,
}

/// The state after a redirection operator `op` (`>` or `<`) read at `cs[i]`.
/// A pending argument that is an io number (`io1` or `io2`, one character
/// each) becomes the operator's prefix; any other pending argument is
/// finished first. A doubled operator (`>>`, `<<`) takes both characters.
pub open spec fn lex_redirect(
    cs: Seq<char>,
    st: LexState,
    op: char,
    io1: char,
    io2: char,
) -> LexState {
    let i = st.pos;
    let io = st.arg == seq![io1] || st.arg == seq![io2];
    let pre = if io { st.arg } else { Seq::<char>::empty() };
    let args = if io { st.args } else { flush(st.arg, st.args) };
    let double = i + 1 < cs.len() && cs[i + 1int] == op;
    let tok = if double { pre.push(op).push(op) } else { pre.push(op) };
    LexState {
        pos: if double { i + 2 } else { i + 1 },
        mode: ParseMode::Normal,
        last: op,
        arg: Seq::empty(),
        args: args.push(tok),
    }
}

/// One step of the tokenizer, reading the character at `st.pos < cs.len()`.
pub open spec fn lex_step(cs: Seq<char>, home: Seq<char>, st: LexState) -> LexState {
    let i = st.pos;
    let c = cs[i as int];
    let next = (i + 1) as nat;
    // a backslash takes the character after it literally, if there is one
    let escaped = if i + 1 < cs.len() { st.arg.push(cs[i + 1int]) } else { st.arg };
    let after_escape = if i + 1 < cs.len() { (i + 2) as nat } else { next };
    match st.mode {
        ParseMode::Normal => {
            if c == ' ' {
                if st.last == ' ' {
                    LexState { pos: next, last: c, ..st }
                } else {
                    LexState { pos: next, last: c, arg: Seq::empty(), args: flush(st.arg, st.args), ..st }
                }
            } else if c == '\'' {
                LexState { pos: next, mode: ParseMode::SingleQuote, last: c, ..st }
            } else if c == '"' {
                LexState { pos: next, mode: ParseMode::DoubleQuote, last: c, ..st }
            } else if c == '\\' {
                LexState { pos: after_escape, last: c, arg: escaped, ..st }
            } else if c == '~' {
                LexState { pos: next, last: c, arg: st.arg + home, ..st }
            } else if c == '>' {
                lex_redirect(cs, st, '>', '1', '2')
            } else if c == '<' {
                lex_redirect(cs, st, '<', '0', '0')
            } else if c == '|' {
                LexState { pos: next, last: c, arg: Seq::empty(), args: flush(st.arg, st.args).push(seq!['|']), ..st }
            } else {
                LexState { pos: next, last: c, arg: st.arg.push(c), ..st }
            }
        },
        ParseMode::SingleQuote => {
            if c == '\'' {
                LexState { pos: next, mode: ParseMode::Normal, last: c, ..st }
            } else {
                LexState { pos: next, last: c, arg: st.arg.push(c), ..st }
            }
        },
        ParseMode::DoubleQuote => {
            if c == '"' {
                LexState { pos: next, mode: ParseMode::Normal, last: c, ..st }
            } else if c == '\\' {
                LexState { pos: after_escape, last: c, arg: escaped, ..st }
            } else {
                LexState { pos: next, last: c, arg: st.arg.push(c), ..st }
            }
        },
    }
}

/// Runs the tokenizer from `st` to the end of `cs`; the pending argument,
/// if any, is the last token.
pub open spec fn lex_from(cs: Seq<char>, home: Seq<char>, st: LexState) -> Seq<Seq<char>>
    decreases cs.len() - st.pos,
{
    if st.pos >= cs.len() {
        flush(st.arg, st.args)
    } else {
        let nx = lex_step(cs, home, st);
        if nx.pos > st.pos {
            lex_from(cs, home, nx)
        } else {
            flush(st.arg, st.args)
        }
    }
}

pub open spec fn lex_start() -> LexState {
    LexState { pos: 0, mode: ParseMode::Normal, last: ' ', arg: Seq::empty(), args: Seq::empty() }
}

/// The tokens of a command line: the line is trimmed, then read by the
/// tokenizer, with `~` standing for `home`.
pub open spec fn tokenize(line: Seq<char>, home: Seq<char>) -> Seq<Seq<char>> {
    lex_from(trim(line), home, lex_start())
}

/// Every text in `ts` has at least one character.
pub open spec fn all_nonempty(ts: Seq<Seq<char>>) -> bool {
    forall|k: int| 0 <= k < ts.len() ==> #[trigger] ts[k].len() > 0
}

proof fn lemma_flush_nonempty(arg: Seq<char>, args: Seq<Seq<char>>)
    requires
        all_nonempty(args),
    ensures
        all_nonempty(flush(arg, args)),
{
    if arg.len() > 0 {
        assert forall|k: int| 0 <= k < args.push(arg).len() implies #[trigger] args.push(arg)[k].len() > 0 by {
            if k < args.len() {
                assert(args.push(arg)[k] == args[k]);
            }
        }
    }
}

proof fn lemma_push_nonempty(args: Seq<Seq<char>>, t: Seq<char>)
    requires
        all_nonempty(args),
        t.len() > 0,
    ensures
        all_nonempty(args.push(t)),
{
    assert forall|k: int| 0 <= k < args.push(t).len() implies #[trigger] args.push(t)[k].len() > 0 by {
        if k < args.len() {
            assert(args.push(t)[k] == args[k]);
        }
    }
}

proof fn lemma_step_nonempty(cs: Seq<char>, home: Seq<char>, st: LexState)
    requires
        st.pos < cs.len(),
        all_nonempty(st.args),
    ensures
        all_nonempty(lex_step(cs, home, st).args),
{
    lemma_flush_nonempty(st.arg, st.args);
    let c = cs[st.pos as int];
    if st.mode == ParseMode::Normal {
        if c == '>' || c == '<' {
            let io = if c == '>' {
                st.arg == seq!['1'] || st.arg == seq!['2']
            } else {
                st.arg == seq!['0'] || st.arg == seq!['0']
            };
            let args = if io { st.args } else { flush(st.arg, st.args) };
            let pre = if io { st.arg } else { Seq::<char>::empty() };
            lemma_push_nonempty(args, pre.push(c));
            lemma_push_nonempty(args, pre.push(c).push(c));
        } else if c == '|' {
            lemma_push_nonempty(flush(st.arg, st.args), seq!['|']);
        }
    }
}

proof fn lemma_lex_nonempty(cs: Seq<char>, home: Seq<char>, st: LexState)
    requires
        all_nonempty(st.args),
    ensures
        all_nonempty(lex_from(cs, home, st)),
    decreases cs.len() - st.pos,
{
    lemma_flush_nonempty(st.arg, st.args);
    if st.pos < cs.len() {
        lemma_step_nonempty(cs, home, st);
        let nx = lex_step(cs, home, st);
        if nx.pos > st.pos {
            lemma_lex_nonempty(cs, home, nx);
        }
    }
}

/// No token is empty: empty quotes and runs of spaces make no token.
pub proof fn law_tokens_nonempty(line: Seq<char>, home: Seq<char>)
    ensures
        all_nonempty(tokenize(line, home)),
{
    lemma_lex_nonempty(trim(line), home, lex_start());
}

/// Characters that the tokenizer treats as ordinary text: not a space,
/// quote, backslash, `~`, redirection or pipe, nor other white space.
pub open spec fn is_plain(c: char) -> bool {
    &&& !is_white_space(c)
    &&& c != '\'' && c != '"' && c != '\\' && c != '~'
    &&& c != '>' && c != '<' && c != '|'
}

/// The tokenizer's state after reading `cs[..i]` of a line of plain words.
spec fn plain_state(cs: Seq<char>, i: int) -> LexState {
    let segs = split_seq(cs.take(i), ' ');
    LexState {
        pos: i as nat,
        mode: ParseMode::Normal,
        last: if i == 0 { ' ' } else { cs[i - 1] },
        arg: segs.last(),
        args: nonempty_segments(segs.drop_last()),
    }
}

proof fn lemma_plain_run(cs: Seq<char>, home: Seq<char>, i: int)
    requires
        0 <= i <= cs.len(),
        forall|k: int| 0 <= k < cs.len() ==> cs[k] == ' ' || is_plain(#[trigger] cs[k]),
    ensures
        lex_from(cs, home, plain_state(cs, i)) == nonempty_segments(split_seq(cs, ' ')),
    decreases cs.len() - i,
{
    lemma_split_seq_len(cs.take(i), ' ');
    let segs = split_seq(cs.take(i), ' ');
    let st = plain_state(cs, i);
    if i == cs.len() {
        assert(cs.take(i) =~= cs);
        assert(segs.drop_last().push(segs.last()) =~= segs);
    } else {
        let c = cs[i];
        assert(cs.take(i + 1).drop_last() =~= cs.take(i));
        assert(cs.take(i + 1).last() == c);
        // a space right after a space (or at the start) leaves an empty piece
        if i > 0 && cs[i - 1] == ' ' {
            assert(cs.take(i).last() == ' ');
            assert(cs.take(i).drop_last() =~= cs.take(i - 1));
            lemma_split_seq_len(cs.take(i - 1), ' ');
        }
        if i == 0 {
            assert(cs.take(0) =~= Seq::<char>::empty());
        }
        let nx = lex_step(cs, home, st);
        let segs2 = split_seq(cs.take(i + 1), ' ');
        if c == ' ' {
            assert(segs2 == segs.push(Seq::<char>::empty()));
            assert(segs2.drop_last() =~= segs);
            assert(segs.drop_last().push(segs.last()) =~= segs);
            if st.last == ' ' {
                assert(st.arg.len() == 0);
            }
        } else {
            assert(segs2.drop_last() =~= segs.drop_last());
        }
        assert(nx == plain_state(cs, i + 1));
        lemma_plain_run(cs, home, i + 1);
    }
}

/// A line of plain words separated by spaces is split at the spaces; runs
/// of spaces make no empty tokens.
pub proof fn law_plain_words(line: Seq<char>, home: Seq<char>)
    requires
        forall|k: int| 0 <= k < line.len() ==> line[k] == ' ' || is_plain(#[trigger] line[k]),
    ensures
        tokenize(line, home) == nonempty_segments(split_seq(trim(line), ' ')),
{
    let cs = trim(line);
    lemma_trim_sub(line);
    assert(split_seq(cs.take(0), ' ') == seq![Seq::<char>::empty()]) by {
        assert(cs.take(0) =~= Seq::<char>::empty());
    }
    assert(plain_state(cs, 0) == lex_start());
    lemma_plain_run(cs, home, 0);
}

proof fn lemma_quoted_run(cs: Seq<char>, home: Seq<char>, t: Seq<char>, i: int, last: char)
    requires
        cs == seq!['\''] + t + seq!['\''],
        !t.contains('\''),
        1 <= i <= t.len() + 1,
    ensures
        lex_from(
            cs,
            home,
            LexState { pos: i as nat, mode: ParseMode::SingleQuote, last, arg: t.take(i - 1), args: Seq::empty() },
        ) == flush(t, Seq::empty()),
    decreases cs.len() - i,
{
    let st = LexState { pos: i as nat, mode: ParseMode::SingleQuote, last, arg: t.take(i - 1), args: Seq::empty() };
    if i == t.len() + 1 {
        assert(cs[i] == '\'');
        let nx = lex_step(cs, home, st);
        assert(t.take(i - 1) =~= t);
        assert(lex_from(cs, home, nx) == flush(t, Seq::empty()));
    } else {
        assert(cs[i] == t[i - 1]);
        if t[i - 1] == '\'' {
            assert(t.contains('\''));
        }
        assert(t.take(i) =~= t.take(i - 1).push(t[i - 1]));
        lemma_quoted_run(cs, home, t, i + 1, cs[i]);
    }
}

/// A single-quoted stretch without quotes inside is one token, taken
/// literally (nothing when it is empty).
pub proof fn law_single_quoted(t: Seq<char>, home: Seq<char>)
    requires
        !t.contains('\''),
    ensures
        tokenize(seq!['\''] + t + seq!['\''], home) == flush(t, Seq::empty()),
{
    let cs = seq!['\''] + t + seq!['\''];
    assert(cs[0] == '\'');
    assert(cs.last() == '\'');
    assert(trim_start(cs) == cs);
    assert(trim_end(cs) == cs);
    let st1 = lex_step(cs, home, lex_start());
    assert(t.take(0) =~= Seq::<char>::empty());
    lemma_quoted_run(cs, home, t, 1, '\'');
    assert(st1 == LexState { pos: 1, mode: ParseMode::SingleQuote, last: '\'', arg: t.take(0), args: Seq::empty() });
}

proof fn lemma_double_quoted_run(cs: Seq<char>, home: Seq<char>, t: Seq<char>, i: int, last: char)
    requires
        cs == seq!['"'] + t + seq!['"'],
        !t.contains('"'),
        !t.contains('\\'),
        1 <= i <= t.len() + 1,
    ensures
        lex_from(
            cs,
            home,
            LexState { pos: i as nat, mode: ParseMode::DoubleQuote, last, arg: t.take(i - 1), args: Seq::empty() },
        ) == flush(t, Seq::empty()),
    decreases cs.len() - i,
{
    let st = LexState { pos: i as nat, mode: ParseMode::DoubleQuote, last, arg: t.take(i - 1), args: Seq::empty() };
    if i == t.len() + 1 {
        assert(cs[i] == '"');
        let nx = lex_step(cs, home, st);
        assert(t.take(i - 1) =~= t);
        assert(lex_from(cs, home, nx) == flush(t, Seq::empty()));
    } else {
        assert(cs[i] == t[i - 1]);
        if t[i - 1] == '"' {
            assert(t.contains('"'));
        }
        if t[i - 1] == '\\' {
            assert(t.contains('\\'));
        }
        assert(t.take(i) =~= t.take(i - 1).push(t[i - 1]));
        lemma_double_quoted_run(cs, home, t, i + 1, cs[i]);
    }
}

/// A double-quoted stretch without `"` or backslash inside is one token,
/// taken literally (nothing when it is empty): in particular a `'`, a
/// space, `~`, `>`, `<` or `|` inside double quotes is an ordinary
/// character.
pub proof fn law_double_quoted(t: Seq<char>, home: Seq<char>)
    requires
        !t.contains('"'),
        !t.contains('\\'),
    ensures
        tokenize(seq!['"'] + t + seq!['"'], home) == flush(t, Seq::empty()),
{
    let cs = seq!['"'] + t + seq!['"'];
    assert(cs[0] == '"');
    assert(cs.last() == '"');
    assert(trim_start(cs) == cs);
    assert(trim_end(cs) == cs);
    let st1 = lex_step(cs, home, lex_start());
    assert(t.take(0) =~= Seq::<char>::empty());
    lemma_double_quoted_run(cs, home, t, 1, '"');
    assert(st1 == LexState { pos: 1, mode: ParseMode::DoubleQuote, last: '"', arg: t.take(0), args: Seq::empty() });
}

/// A backslash makes the character after it literal: `\c` is the token `c`
/// (for any `c` that trimming would not take away).
pub proof fn law_escaped_char(c: char, home: Seq<char>)
    requires
        !is_white_space(c),
    ensures
        tokenize(seq!['\\', c], home) == seq![seq![c]],
{
    let cs = seq!['\\', c];
    assert(trim_start(cs) == cs);
    assert(trim_end(cs) == cs);
    let st1 = lex_step(cs, home, lex_start());
    assert(Seq::<char>::empty().push(c) =~= seq![c]);
    assert(st1.pos == 2);
    assert(lex_from(cs, home, st1) == flush(seq![c], Seq::empty()));
    assert(Seq::<Seq<char>>::empty().push(seq![c]) =~= seq![seq![c]]);
}

/// An unquoted `~` stands for the home directory.
pub proof fn law_tilde_is_home(home: Seq<char>)
    ensures
        tokenize(seq!['~'], home) == flush(home, Seq::empty()),
{
    let cs = seq!['~'];
    assert(trim_start(cs) == cs);
    assert(trim_end(cs) == cs);
    let st1 = lex_step(cs, home, lex_start());
    assert(Seq::<char>::empty() + home =~= home);
    assert(lex_from(cs, home, st1) == flush(home, Seq::empty()));
}

/// Reading plain characters outside quotes only adds them to the pending
/// argument.
proof fn lemma_word_run(cs: Seq<char>, home: Seq<char>, st: LexState, e: int)
    requires
        st.mode == ParseMode::Normal,
        st.pos <= e <= cs.len(),
        forall|k: int| st.pos <= k < e ==> is_plain(#[trigger] cs[k]),
    ensures
        lex_from(cs, home, st) == lex_from(
            cs,
            home,
            LexState {
                pos: e as nat,
                last: if e > st.pos { cs[e - 1] } else { st.last },
                arg: st.arg + cs.subrange(st.pos as int, e),
                ..st
            },
        ),
    decreases e - st.pos,
{
    let s0 = st.pos as int;
    if e == s0 {
        assert(st.arg + cs.subrange(s0, e) =~= st.arg);
    } else {
        let c = cs[s0];
        assert(is_plain(c));
        let nx = lex_step(cs, home, st);
        assert(nx == LexState { pos: (s0 + 1) as nat, last: c, arg: st.arg.push(c), ..st });
        lemma_word_run(cs, home, nx, e);
        assert(st.arg.push(c) + cs.subrange(s0 + 1, e) =~= st.arg + cs.subrange(s0, e));
    }
}

proof fn lemma_lex_unfold(cs: Seq<char>, home: Seq<char>, st: LexState)
    requires
        st.pos < cs.len(),
        lex_step(cs, home, st).pos > st.pos,
    ensures
        lex_from(cs, home, st) == lex_from(cs, home, lex_step(cs, home, st)),
{
}

proof fn lemma_lex_end(cs: Seq<char>, home: Seq<char>, st: LexState)
    requires
        st.pos >= cs.len(),
    ensures
        lex_from(cs, home, st) == flush(st.arg, st.args),
{
}

/// Every character of `w` is plain.
pub open spec fn all_plain(w: Seq<char>) -> bool {
    forall|k: int| 0 <= k < w.len() ==> is_plain(#[trigger] w[k])
}

/// The redirection and pipe operators.
pub open spec fn is_operator(op: Seq<char>) -> bool {
    ||| op == seq!['>']
    ||| op == seq!['>', '>']
    ||| op == seq!['<']
    ||| op == seq!['<', '<']
    ||| op == seq!['|']
}

proof fn lemma_operator_line(a: Seq<char>, op: Seq<char>, b: Seq<char>, home: Seq<char>, pre: Seq<char>)
    requires
        a.len() > 0,
        b.len() > 0,
        all_plain(a),
        all_plain(b),
        is_operator(op),
        pre == seq!['1'] || pre == seq!['2'] || pre == seq!['0'] || pre.len() == 0,
        pre.len() > 0 ==> a == pre && ((op[0] == '>' && pre != seq!['0']) || (op[0] == '<' && pre == seq!['0'])),
        pre.len() == 0 ==> !(op[0] == '>' && (a == seq!['1'] || a == seq!['2'])) && !(op[0] == '<' && a
            == seq!['0']),
    ensures
        tokenize(a + op + b, home) == if pre.len() > 0 {
            seq![a + op, b]
        } else {
            seq![a, op, b]
        },
{
    let cs = a + op + b;
    let la = a.len() as int;
    let lo = op.len() as int;
    assert(cs[0] == a[0]);
    assert(is_plain(a[0]));
    assert(cs.last() == b[b.len() - 1]);
    assert(is_plain(b[b.len() - 1]));
    assert(trim_start(cs) == cs);
    assert(trim_end(cs) == cs);
    assert(trim(cs) == cs);
    assert forall|k: int| 0 <= k < la implies is_plain(#[trigger] cs[k]) by {
        assert(cs[k] == a[k]);
    }
    lemma_word_run(cs, home, lex_start(), la);
    assert(Seq::<char>::empty() + cs.subrange(0, la) =~= a);
    let st_a = LexState { pos: la as nat, mode: ParseMode::Normal, last: cs[la - 1], arg: a, args: Seq::empty() };
    assert(lex_from(cs, home, lex_start()) == lex_from(cs, home, st_a));
    assert(cs[la] == op[0]);
    let nx = lex_step(cs, home, st_a);
    assert(cs[la + lo] == b[0]);
    assert(is_plain(b[0]));
    if lo == 2 {
        assert(cs[la + 1] == op[1]);
    }
    let args = if pre.len() > 0 { seq![a + op] } else { seq![a, op] };
    if pre.len() > 0 {
        assert(Seq::<Seq<char>>::empty().push(a + op) =~= seq![a + op]);
        if lo == 2 {
            assert(a.push(op[0]).push(op[0]) =~= a + op);
        } else {
            assert(a.push(op[0]) =~= a + op);
        }
    } else {
        assert(flush(a, Seq::empty()) =~= seq![a]);
        assert(seq![a].push(op) =~= seq![a, op]);
        if lo == 2 {
            assert(Seq::<char>::empty().push(op[0]).push(op[0]) =~= op);
        } else {
            assert(Seq::<char>::empty().push(op[0]) =~= op);
        }
    }
    assert(nx == LexState { pos: (la + lo) as nat, mode: ParseMode::Normal, last: op[0], arg: Seq::empty(), args });
    lemma_lex_unfold(cs, home, st_a);
    assert forall|k: int| la + lo <= k < cs.len() implies is_plain(#[trigger] cs[k]) by {
        assert(cs[k] == b[k - la - lo]);
    }
    lemma_word_run(cs, home, nx, cs.len() as int);
    assert(Seq::<char>::empty() + cs.subrange(la + lo, cs.len() as int) =~= b);
    let st_e = LexState {
        pos: cs.len(),
        mode: ParseMode::Normal,
        last: cs[cs.len() - 1],
        arg: b,
        args,
    };
    assert(lex_from(cs, home, nx) == lex_from(cs, home, st_e));
    lemma_lex_end(cs, home, st_e);
    if pre.len() > 0 {
        assert(args.push(b) =~= seq![a + op, b]);
    } else {
        assert(args.push(b) =~= seq![a, op, b]);
    }
}

/// A redirection or pipe operator written between two plain words is a
/// token of its own: `a>b` is `a`, `>`, `b`, and likewise for `>>`, `<`,
/// `<<` and `|`; this holds for every `a` but a single digit that the
/// operator takes as its io number (`1` or `2` before `>`, `0` before `<`).
pub proof fn law_operator_token(a: Seq<char>, op: Seq<char>, b: Seq<char>, home: Seq<char>)
    requires
        a.len() > 0,
        b.len() > 0,
        all_plain(a),
        all_plain(b),
        is_operator(op),
        !(op[0] == '>' && (a == seq!['1'] || a == seq!['2'])),
        !(op[0] == '<' && a == seq!['0']),
    ensures
        tokenize(a + op + b, home) == seq![a, op, b],
{
    lemma_operator_line(a, op, b, home, Seq::empty());
}

/// An io number written right before a redirection operator becomes part
/// of it: `2>f` is `2>`, `f`, and likewise `1>`, `1>>`, `2>>`, `0<`, `0<<`.
pub proof fn law_io_number(d: char, op: Seq<char>, b: Seq<char>, home: Seq<char>)
    requires
        b.len() > 0,
        all_plain(b),
        ((d == '1' || d == '2') && (op == seq!['>'] || op == seq!['>', '>'])) || (d == '0' && (op == seq!['<']
            || op == seq!['<', '<'])),
    ensures
        tokenize(seq![d] + op + b, home) == seq![seq![d] + op, b],
{
    assert(all_plain(seq![d]));
    assert(seq![d][0] == d);
    assert(seq!['0'][0] == '0');
    if op == seq!['>'] || op == seq!['>', '>'] {
        assert(op[0] == '>');
    } else {
        assert(op[0] == '<');
    }
    lemma_operator_line(seq![d], op, b, home, seq![d]);
}

/// The ghost state of the executable tokenizer.
pub open spec fn state_of(
    i: usize,
    mode: ParseMode,
    last: char,
    arg: Seq<char>,
    args: Seq<String>,
) -> LexState {
    LexState { pos: i as nat, mode, last, arg, args: views(args) }
}

proof fn lemma_views_push(v: Seq<String>, s: String)
    ensures
        views(v.push(s)) == views(v).push(s@),
{
    assert(views(v.push(s)) =~= views(v).push(s@));
}

/// Finishes the pending argument when it is not empty.
fn flush_arg(arg: &mut Vec<char>, args: &mut Vec<String>)
    ensures
        final(arg)@ == Seq::<char>::empty(),
        views(final(args)@) == flush(old(arg)@, views(old(args)@)),
{
    if arg.len() > 0 {
        let s = string_of(arg);
        proof { lemma_views_push(args@, s); }
        args.push(s);
        *arg = Vec::new();
    }
}

/// Splits a command line into tokens.
///
/// The line is trimmed; spaces separate tokens outside quotes; single
/// quotes take everything literally up to the closing quote; double quotes
/// do the same but honour backslash escapes; `~` stands for `home`;
/// `>`, `>>`, `<`, `<<` (with an io number `1`, `2` or `0` glued in front)
/// and `|` are tokens of their own.
pub fn parse_command(command: &str, home: &str) -> (args: Vec<String>)
    ensures
        views(args@) == tokenize(command@, home@),
{
    let all = chars_of(command);
    let (lo, hi) = trim_bounds(&all);
    let mut cs: Vec<char> = Vec::new();
    let mut k: usize = lo;
    while k < hi
        invariant
            lo <= k <= hi <= all@.len(),
            cs@ == all@.subrange(lo as int, k as int),
        decreases hi - k,
    {
        cs.push(all[k]);
        k = k + 1;
    }
    let home_cs = chars_of(home);
    let n = cs.len();

    let mut args: Vec<String> = Vec::new();
    let mut arg: Vec<char> = Vec::new();
    let mut mode = ParseMode::Normal;
    let mut last: char = ' ';
    let mut i: usize = 0;
    assert(views(args@) =~= Seq::<Seq<char>>::empty());
    while i < n
        invariant
            n == cs@.len(),
            cs@ == trim(command@),
            home_cs@ == home@,
            i <= n,
            lex_from(cs@, home@, state_of(i, mode, last, arg@, args@))
                == lex_from(cs@, home@, lex_start()),
        decreases n - i,
    {
        let ghost before = state_of(i, mode, last, arg@, args@);
        let c = cs[i];
        let mut next = i + 1;
        match mode {
            ParseMode::Normal => {
                if c == ' ' {
                    if last != ' ' {
                        flush_arg(&mut arg, &mut args);
                    }
                } else if c == '\'' {
                    mode = ParseMode::SingleQuote;
                } else if c == '"' {
                    mode = ParseMode::DoubleQuote;
                } else if c == '\\' {
                    if i + 1 < n {
                        arg.push(cs[i + 1]);
                        next = i + 2;
                    }
                } else if c == '~' {
                    push_all(&mut arg, &home_cs);
                } else if c == '>' || c == '<' {
                    let io = if c == '>' {
                        arg.len() == 1 && (arg[0] == '1' || arg[0] == '2')
                    } else {
                        arg.len() == 1 && arg[0] == '0'
                    };
                    proof {
                        if arg@.len() == 1 {
                            assert(arg@ =~= seq![arg@[0]]);
                        }
                        if c == '>' {
                            assert(io == (arg@ == seq!['1'] || arg@ == seq!['2']));
                        } else {
                            assert(io == (arg@ == seq!['0'] || arg@ == seq!['0']));
                        }
                    }
                    if !io {
                        flush_arg(&mut arg, &mut args);
                    }
                    arg.push(c);
                    if i + 1 < n && cs[i + 1] == c {
                        arg.push(c);
                        next = i + 2;
                    }
                    let tok = string_of(&arg);
                    proof { lemma_views_push(args@, tok); }
                    args.push(tok);
                    arg = Vec::new();
                } else if c == '|' {
                    flush_arg(&mut arg, &mut args);
                    let bar = vec!['|'];
                    assert(bar@ =~= seq!['|']);
                    let tok = string_of(&bar);
                    proof { lemma_views_push(args@, tok); }
                    args.push(tok);
                } else {
                    arg.push(c);
                }
            },
            ParseMode::SingleQuote => {
                if c == '\'' {
                    mode = ParseMode::Normal;
                } else {
                    arg.push(c);
                }
            },
            ParseMode::DoubleQuote => {
                if c == '"' {
                    mode = ParseMode::Normal;
                } else if c == '\\' {
                    if i + 1 < n {
                        arg.push(cs[i + 1]);
                        next = i + 2;
                    }
                } else {
                    arg.push(c);
                }
            },
        }
        last = c;
        i = next;
        assert(state_of(i, mode, last, arg@, args@) == lex_step(cs@, home@, before));
    }
    flush_arg(&mut arg, &mut args);
    args
}

/// The commands the shell runs itself.
#[derive(PartialEq, Eq, Structural, Clone, Copy, Debug)]
pub enum Builtin {
    Exit,
    Echo,
    Type,
    Pwd,
    Cd,
    Complete,
    Jobs,
}

/// A program found on the search path.
#[derive(Debug)]
pub struct Executable {
    pub name: String,
    /// Where the program was found.
    pub path: String,
}

/// What a command word names.
#[derive(Debug)]
pub enum Cmd {
    Builtin(Builtin),
    External(Executable),
    Unknown(String),
}

/// The mathematical value of a `Cmd`.
pub enum CmdView {
    Builtin(Builtin),
    External { name: Seq<char>, path: Seq<char> },
    Unknown(Seq<char>),
}

impl View for Cmd {
    type V = CmdView;

    open spec fn view(&self) -> CmdView {
        match self {
            Cmd::Builtin(b) => CmdView::Builtin(*b),
            Cmd::External(e) => CmdView::External { name: e.name@, path: e.path@ },
            Cmd::Unknown(s) => CmdView::Unknown(s@),
        }
    }
}

/// The builtin that a command word names, if any.
pub open spec fn builtin_named(name: Seq<char>) -> Option<Builtin> {
    if name == seq!['e', 'x', 'i', 't'] {
        Some(Builtin::Exit)
    } else if name == seq!['e', 'c', 'h', 'o'] {
        Some(Builtin::Echo)
    } else if name == seq!['t', 'y', 'p', 'e'] {
        Some(Builtin::Type)
    } else if name == seq!['p', 'w', 'd'] {
        Some(Builtin::Pwd)
    } else if name == seq!['c', 'd'] {
        Some(Builtin::Cd)
    } else if name == seq!['c', 'o', 'm', 'p', 'l', 'e', 't', 'e'] {
        Some(Builtin::Complete)
    } else if name == seq!['j', 'o', 'b', 's'] {
        Some(Builtin::Jobs)
    } else {
        None
    }
}

/// What a command word resolves to: a builtin by name; otherwise the program
/// that the search path gave (`found`, where it was found), or nothing.
pub open spec fn resolved(name: Seq<char>, found: Option<Seq<char>>) -> CmdView {
    match builtin_named(name) {
        Some(b) => CmdView::Builtin(b),
        None => match found {
            Some(path) => CmdView::External { name, path },
            None => CmdView::Unknown(name),
        },
    }
}

/// The name each builtin is called by.
pub open spec fn builtin_name(b: Builtin) -> Seq<char> {
    match b {
        Builtin::Exit => seq!['e', 'x', 'i', 't'],
        Builtin::Echo => seq!['e', 'c', 'h', 'o'],
        Builtin::Type => seq!['t', 'y', 'p', 'e'],
        Builtin::Pwd => seq!['p', 'w', 'd'],
        Builtin::Cd => seq!['c', 'd'],
        Builtin::Complete => seq!['c', 'o', 'm', 'p', 'l', 'e', 't', 'e'],
        Builtin::Jobs => seq!['j', 'o', 'b', 's'],
    }
}

/// Each builtin is named by exactly its name, and that name
/// resolves to it whatever the search path found; no other word names a
/// builtin.
pub proof fn law_builtin_names(b: Builtin, name: Seq<char>, found: Option<Seq<char>>)
    ensures
        builtin_named(builtin_name(b)) == Some(b),
        resolved(builtin_name(b), found) == CmdView::Builtin(b),
        builtin_named(name) == Some(b) <==> name == builtin_name(b),
        (forall|c: Builtin| name != #[trigger] builtin_name(c)) ==> builtin_named(name) is None,
{
    if let Some(c) = builtin_named(name) {
        assert(name == builtin_name(c));
    }
}

impl Builtin {
    /// The builtin called `name`, if there is one.
    pub fn from_name(name: &str) -> (r: Option<Builtin>)
        ensures
            r == builtin_named(name@),
            forall|b: Builtin| #[trigger] builtin_name(b) == name@ <==> r == Some(b),
    {
        proof {
            reveal_strlit("exit");
            reveal_strlit("echo");
            reveal_strlit("type");
            reveal_strlit("pwd");
            reveal_strlit("cd");
            reveal_strlit("complete");
            reveal_strlit("jobs");
            assert("exit"@ =~= seq!['e', 'x', 'i', 't']);
            assert("echo"@ =~= seq!['e', 'c', 'h', 'o']);
            assert("type"@ =~= seq!['t', 'y', 'p', 'e']);
            assert("pwd"@ =~= seq!['p', 'w', 'd']);
            assert("cd"@ =~= seq!['c', 'd']);
            assert("complete"@ =~= seq!['c', 'o', 'm', 'p', 'l', 'e', 't', 'e']);
            assert("jobs"@ =~= seq!['j', 'o', 'b', 's']);
        }
        if name.eq("exit") {
            Some(Builtin::Exit)
        } else if name.eq("echo") {
            Some(Builtin::Echo)
        } else if name.eq("type") {
            Some(Builtin::Type)
        } else if name.eq("pwd") {
            Some(Builtin::Pwd)
        } else if name.eq("cd") {
            Some(Builtin::Cd)
        } else if name.eq("complete") {
            Some(Builtin::Complete)
        } else if name.eq("jobs") {
            Some(Builtin::Jobs)
        } else {
            None
        }
    }
}

impl Cmd {
    /// Resolves a command word. `found` is where a search of the `PATH`
    /// directories found an executable file of that name, if it did; it is
    /// only looked at when the word names no builtin.
    pub fn resolve(command: &str, found: Option<String>) -> (r: Cmd)
        ensures
            r@ == resolved(command@, opt_view(found)),
    {
        match Builtin::from_name(command) {
            Some(b) => Cmd::Builtin(b),
            None => match found {
                None => Cmd::Unknown(command.to_string()),
                Some(path) => Cmd::External(Executable { name: command.to_string(), path }),
            },
        }
    }
}

/// The token after the first occurrence of `flag` in `ts`, if both exist.
pub open spec fn flag_value(ts: Seq<Seq<char>>, flag: Seq<char>) -> Option<Seq<char>> {
    match ts.index_of_first(flag) {
        Some(p) => if p + 1 < ts.len() { Some(ts[p + 1]) } else { None },
        None => None,
    }
}

/// The two tokens after the first occurrence of `flag` in `ts`, if all exist.
pub open spec fn flag_values(ts: Seq<Seq<char>>, flag: Seq<char>) -> Option<(Seq<char>, Seq<char>)> {
    match ts.index_of_first(flag) {
        Some(p) => if p + 2 < ts.len() { Some((ts[p + 1], ts[p + 2])) } else { None },
        None => None,
    }
}

/// One stage of a pipeline.
pub struct CommandLine {
    pub cmd: Cmd,
    /// The arguments after the command word.
    pub tokens: Vec<String>,
    /// The text of this stage as the user typed it.
    pub origin: String,
    pub run_in_bg: bool,
    pub has_next_in_pipeline: bool,
}

/// The index of the first token equal to `x`, if there is one.
pub fn position(tokens: &Vec<String>, x: &str) -> (r: Option<usize>)
    ensures
        match r {
            Some(p) => p < tokens@.len() && views(tokens@).index_of_first(x@) == Some(p as int),
            None => views(tokens@).index_of_first(x@) is None,
        },
{
    let ghost vs = views(tokens@);
    let mut i: usize = 0;
    while i < tokens.len()
        invariant
            vs == views(tokens@),
            i <= tokens@.len(),
            forall|j: int| 0 <= j < i ==> vs[j] != x@,
        decreases tokens@.len() - i,
    {
        if tokens[i].as_str().eq(x) {
            assert(vs[i as int] == x@);
            proof { vs.index_of_first_ensures(x@); }
            return Some(i);
        }
        i = i + 1;
    }
    proof { vs.index_of_first_ensures(x@); }
    None
}

/// The mathematical value of a `CommandLine`.
pub struct CommandLineView {
    pub cmd: CmdView,
    pub tokens: Seq<Seq<char>>,
    pub origin: Seq<char>,
    pub run_in_bg: bool,
    pub has_next_in_pipeline: bool,
}

impl View for CommandLine {
    type V = CommandLineView;

    open spec fn view(&self) -> CommandLineView {
        CommandLineView {
            cmd: self.cmd@,
            tokens: views(self.tokens@),
            origin: self.origin@,
            run_in_bg: self.run_in_bg,
            has_next_in_pipeline: self.has_next_in_pipeline,
        }
    }
}

/// The stage made of tokens `ts`: the first is the command word, resolved
/// with `found`; the others are its arguments. Without tokens the command is
/// unknown and empty.
pub open spec fn new_line(
    ts: Seq<Seq<char>>,
    origin: Seq<char>,
    has_next: bool,
    found: Option<Seq<char>>,
) -> CommandLineView {
    CommandLineView {
        cmd: if ts.len() == 0 {
            CmdView::Unknown(Seq::empty())
        } else {
            resolved(ts[0], found)
        },
        tokens: if ts.len() == 0 { ts } else { ts.drop_first() },
        origin,
        run_in_bg: false,
        has_next_in_pipeline: has_next,
    }
}

impl CommandLine {
    /// A stage made of `tokens`: the first token is the command word, which
    /// is resolved (`found` is what the search path gave for it), the rest
    /// are its arguments. Without tokens the command is unknown and empty.
    pub fn new(tokens: Vec<String>, origin: &str, has_next: bool, found: Option<String>) -> (r:
        CommandLine)
        ensures
            r@ == new_line(views(tokens@), origin@, has_next, opt_view(found)),
    {
        let mut tokens = tokens;
        if tokens.len() == 0 {
            assert(views(tokens@) =~= Seq::<Seq<char>>::empty());
            return CommandLine {
                cmd: Cmd::Unknown(String::new()),
                tokens,
                run_in_bg: false,
                origin: origin.to_string(),
                has_next_in_pipeline: has_next,
            };
        }
        let ghost old_tokens = tokens@;
        let command = tokens.remove(0);
        assert(views(tokens@) =~= views(old_tokens).drop_first());
        let cmd = Cmd::resolve(command.as_str(), found);
        CommandLine {
            cmd,
            tokens,
            run_in_bg: false,
            origin: origin.to_string(),
            has_next_in_pipeline: has_next,
        }
    }

    /// The token after the first occurrence of `flag`, if both exist.
    pub fn find_flag(&self, flag: &str) -> (r: Option<&String>)
        ensures
            match views(self.tokens@).index_of_first(flag@) {
                Some(p) => if p + 1 < self.tokens@.len() {
                    r == Some(&self.tokens@[p + 1])
                } else {
                    r is None
                },
                None => r is None,
            },
            match r {
                Some(v) => flag_value(views(self.tokens@), flag@) == Some(v@),
                None => flag_value(views(self.tokens@), flag@) is None,
            },
    {
        match position(&self.tokens, flag) {
            Some(p) => if self.tokens.len() - p > 1 {
                Some(&self.tokens[p + 1])
            } else {
                None
            },
            None => None,
        }
    }

    /// The two tokens after the first occurrence of `flag`, if all exist.
    pub fn find_flag_double(&self, flag: &str) -> (r: Option<(&String, &String)>)
        ensures
            match views(self.tokens@).index_of_first(flag@) {
                Some(p) => if p + 2 < self.tokens@.len() {
                    r == Some((&self.tokens@[p + 1], &self.tokens@[p + 2]))
                } else {
                    r is None
                },
                None => r is None,
            },
            match r {
                Some(v) => flag_values(views(self.tokens@), flag@) == Some((v.0@, v.1@)),
                None => flag_values(views(self.tokens@), flag@) is None,
            },
    {
        match position(&self.tokens, flag) {
            Some(p) => if self.tokens.len() - p > 2 {
                Some((&self.tokens[p + 1], &self.tokens[p + 2]))
            } else {
                None
            },
            None => None,
        }
    }

    /// Whether `flag` is among the tokens.
    pub fn find_bool_flag(&self, flag: &str) -> (r: bool)
        ensures
            r == views(self.tokens@).contains(flag@),
    {
        proof { views(self.tokens@).index_of_first_ensures(flag@); }
        position(&self.tokens, flag).is_some()
    }

    /// A trailing `&` token asks for the stage to run in the background: it
    /// is removed and `run_in_bg` set; otherwise `run_in_bg` is cleared.
    pub fn enable_bg(&mut self)
        ensures
            final(self).cmd == old(self).cmd,
            final(self).origin == old(self).origin,
            final(self).has_next_in_pipeline == old(self).has_next_in_pipeline,
            ({
                let ts = old(self).tokens@;
                if ts.len() > 0 && ts.last()@ == seq!['&'] {
                    &&& final(self).run_in_bg
                    &&& final(self).tokens@ == ts.drop_last()
                } else {
                    &&& !final(self).run_in_bg
                    &&& final(self).tokens@ == ts
                }
            }),
    {
        proof { reveal_strlit("&"); assert("&"@ =~= seq!['&']); }
        let n = self.tokens.len();
        if n > 0 && self.tokens[n - 1].as_str().eq("&") {
            self.tokens.pop();
            self.run_in_bg = true;
        } else {
            self.run_in_bg = false;
        }
    }
}

/// The `|` token that separates pipeline stages.
pub open spec fn bar() -> Seq<char> {
    seq!['|']
}

/// The segments that are not empty, in order.
pub open spec fn nonempty_segments<A>(segs: Seq<Seq<A>>) -> Seq<Seq<A>>
    decreases segs.len(),
{
    if segs.len() == 0 {
        Seq::empty()
    } else {
        let r = nonempty_segments(segs.drop_last());
        if segs.last().len() > 0 {
            r.push(segs.last())
        } else {
            r
        }
    }
}

/// The stages of a pipeline: the non-empty runs of tokens between `|`
/// tokens, each with whether a `|` follows it.
pub open spec fn pipeline_stages(ts: Seq<Seq<char>>) -> Seq<(Seq<Seq<char>>, bool)> {
    let segs = split_seq(ts, bar());
    let closed = nonempty_segments(segs.drop_last()).map_values(
        |s: Seq<Seq<char>>| (s, true),
    );
    if segs.last().len() > 0 {
        closed.push((segs.last(), false))
    } else {
        closed
    }
}

pub open spec fn stage_views(v: Seq<(Vec<String>, bool)>) -> Seq<(Seq<Seq<char>>, bool)> {
    v.map_values(|p: (Vec<String>, bool)| (views(p.0@), p.1))
}

/// The stages of a pipeline, see `pipeline_stages`.
pub fn stages(tokens: &Vec<String>) -> (r: Vec<(Vec<String>, bool)>)
    ensures
        stage_views(r@) == pipeline_stages(views(tokens@)),
{
    let ghost ts = views(tokens@);
    let mut out: Vec<(Vec<String>, bool)> = Vec::new();
    let mut curr: Vec<String> = Vec::new();
    let mut i: usize = 0;
    proof { reveal_strlit("|"); }
    assert("|"@ =~= bar());
    assert(ts.take(0) =~= Seq::<Seq<char>>::empty());
    assert(views(curr@) =~= Seq::<Seq<char>>::empty());
    assert(stage_views(out@) =~= Seq::<(Seq<Seq<char>>, bool)>::empty());
    while i < tokens.len()
        invariant
            ts == views(tokens@),
            "|"@ == bar(),
            i <= tokens@.len(),
            split_seq(ts.take(i as int), bar()).len() >= 1,
            views(curr@) == split_seq(ts.take(i as int), bar()).last(),
            stage_views(out@) == nonempty_segments(
                split_seq(ts.take(i as int), bar()).drop_last(),
            ).map_values(|s: Seq<Seq<char>>| (s, true)),
        decreases tokens@.len() - i,
    {
        let ghost segs = split_seq(ts.take(i as int), bar());
        let ghost old_out = stage_views(out@);
        assert(ts.take(i + 1).drop_last() =~= ts.take(i as int));
        assert(ts.take(i + 1).last() == ts[i as int]);
        if tokens[i].as_str().eq("|") {
            let ghost segs2 = segs.push(Seq::<Seq<char>>::empty());
            assert(segs2.drop_last() =~= segs);
            assert(segs.drop_last().push(segs.last()) =~= segs);
            if curr.len() > 0 {
                let ghost cv = views(curr@);
                let stage = (curr, true);
                out.push(stage);
                curr = Vec::new();
                assert(stage_views(out@) =~= old_out.push((cv, true)));
                assert(nonempty_segments(segs).map_values(|s: Seq<Seq<char>>| (s, true))
                    =~= old_out.push((cv, true)));
            } else {
                assert(nonempty_segments(segs) == nonempty_segments(segs.drop_last()));
            }
            assert(views(curr@) =~= Seq::<Seq<char>>::empty());
        } else {
            let ghost old_curr = views(curr@);
            curr.push(tokens[i].clone());
            assert(views(curr@) =~= old_curr.push(ts[i as int]));
            let ghost segs2 = segs.update(segs.len() - 1, segs.last().push(ts[i as int]));
            assert(segs2.drop_last() =~= segs.drop_last());
        }
        i = i + 1;
        proof { lemma_split_seq_len(ts.take(i as int), bar()); }
    }
    assert(ts.take(tokens@.len() as int) =~= ts);
    if curr.len() > 0 {
        let ghost cv = views(curr@);
        let ghost old_out = stage_views(out@);
        out.push((curr, false));
        assert(stage_views(out@) =~= old_out.push((cv, false)));
    }
    out
}

pub proof fn lemma_nonempty_segments<A>(segs: Seq<Seq<A>>)
    ensures
        forall|k: int|
            0 <= k < nonempty_segments(segs).len() ==> #[trigger] nonempty_segments(segs)[k].len()
                > 0,
    decreases segs.len(),
{
    if segs.len() > 0 {
        lemma_nonempty_segments(segs.drop_last());
        let r = nonempty_segments(segs.drop_last());
        assert forall|k: int|
            0 <= k < nonempty_segments(segs).len() implies #[trigger] nonempty_segments(
            segs,
        )[k].len() > 0 by {
            if k < r.len() {
                assert(nonempty_segments(segs)[k] == r[k]);
            }
        }
    }
}

/// Every stage of a pipeline has at least one token.
pub proof fn lemma_stages_nonempty(ts: Seq<Seq<char>>)
    ensures
        forall|k: int|
            0 <= k < pipeline_stages(ts).len() ==> #[trigger] pipeline_stages(ts)[k].0.len() > 0,
{
    let segs = split_seq(ts, bar());
    lemma_nonempty_segments(segs.drop_last());
}

/// The texts of `ss` one after another.
pub open spec fn concat_all<A>(ss: Seq<Seq<A>>) -> Seq<A>
    decreases ss.len(),
{
    if ss.len() == 0 {
        Seq::empty()
    } else {
        concat_all(ss.drop_last()) + ss.last()
    }
}

/// The elements of `s` other than `sep`, in order.
pub open spec fn without<A>(s: Seq<A>, sep: A) -> Seq<A>
    decreases s.len(),
{
    if s.len() == 0 {
        Seq::empty()
    } else if s.last() == sep {
        without(s.drop_last(), sep)
    } else {
        without(s.drop_last(), sep).push(s.last())
    }
}

proof fn lemma_concat_split<A>(s: Seq<A>, sep: A)
    ensures
        concat_all(split_seq(s, sep)) == without(s, sep),
    decreases s.len(),
{
    lemma_split_seq_len(s, sep);
    if s.len() == 0 {
        let ss = split_seq(s, sep);
        assert(ss.drop_last() =~= Seq::<Seq<A>>::empty());
        assert(concat_all(Seq::<Seq<A>>::empty()) == Seq::<A>::empty());
        assert(ss.last() == Seq::<A>::empty());
        assert(concat_all(ss) =~= Seq::<A>::empty());
    } else {
        lemma_concat_split(s.drop_last(), sep);
        let r = split_seq(s.drop_last(), sep);
        lemma_split_seq_len(s.drop_last(), sep);
        if s.last() == sep {
            let ss = r.push(Seq::<A>::empty());
            assert(ss.drop_last() =~= r);
            assert(concat_all(ss) =~= concat_all(r));
        } else {
            let ss = r.update(r.len() - 1, r.last().push(s.last()));
            assert(ss.drop_last() =~= r.drop_last());
            assert(r.drop_last().push(r.last()) =~= r);
            assert(concat_all(r) == concat_all(r.drop_last()) + r.last());
            assert(concat_all(ss) =~= concat_all(r).push(s.last()));
        }
    }
}

proof fn lemma_concat_nonempty<A>(ss: Seq<Seq<A>>)
    ensures
        concat_all(nonempty_segments(ss)) == concat_all(ss),
    decreases ss.len(),
{
    if ss.len() > 0 {
        lemma_concat_nonempty(ss.drop_last());
        let r = nonempty_segments(ss.drop_last());
        if ss.last().len() > 0 {
            assert(r.push(ss.last()).drop_last() =~= r);
        } else {
            assert(concat_all(ss) =~= concat_all(ss.drop_last()));
        }
    }
}

/// The stages of a pipeline hold all its tokens other than `|`, in order,
/// and every stage but the last is followed by a `|`.
pub proof fn law_stages_partition(ts: Seq<Seq<char>>)
    ensures
        concat_all(pipeline_stages(ts).map_values(|p: (Seq<Seq<char>>, bool)| p.0)) == without(ts, bar()),
        forall|k: int| 0 <= k < pipeline_stages(ts).len() - 1 ==> #[trigger] pipeline_stages(ts)[k].1,
{
    let segs = split_seq(ts, bar());
    lemma_split_seq_len(ts, bar());
    lemma_concat_split(ts, bar());
    lemma_concat_nonempty(segs);
    let closed = nonempty_segments(segs.drop_last());
    assert(segs.drop_last().push(segs.last()) =~= segs);
    let firsts = pipeline_stages(ts).map_values(|p: (Seq<Seq<char>>, bool)| p.0);
    assert(firsts =~= nonempty_segments(segs));
}

/// The text of the `k`-th piece, or nothing when there are fewer pieces.
pub open spec fn piece_at(pieces: Seq<Seq<char>>, k: int) -> Seq<char> {
    if 0 <= k < pieces.len() { pieces[k] } else { Seq::empty() }
}

/// The search result for the `k`-th stage, or none when there is no entry.
pub open spec fn found_at(found: Seq<Option<String>>, k: int) -> Option<Seq<char>> {
    if 0 <= k < found.len() { opt_view(found[k]) } else { None }
}

/// The command word of each pipeline stage, in order.
pub fn stage_words(tokens: &Vec<String>) -> (r: Vec<String>)
    ensures
        views(r@) == pipeline_stages(views(tokens@)).map_values(
            |p: (Seq<Seq<char>>, bool)| p.0[0],
        ),
{
    let st = stages(tokens);
    proof { lemma_stages_nonempty(views(tokens@)); }
    let ghost ps = pipeline_stages(views(tokens@));
    let mut r: Vec<String> = Vec::new();
    let mut k: usize = 0;
    while k < st.len()
        invariant
            stage_views(st@) == ps,
            forall|j: int| 0 <= j < ps.len() ==> #[trigger] ps[j].0.len() > 0,
            k <= st@.len(),
            views(r@) == ps.take(k as int).map_values(|p: (Seq<Seq<char>>, bool)| p.0[0]),
        decreases st@.len() - k,
    {
        assert(stage_views(st@)[k as int] == ps[k as int]);
        assert(ps[k as int].0.len() > 0);
        let w = st[k].0[0].clone();
        let ghost old_r = views(r@);
        r.push(w);
        assert(views(r@) =~= old_r.push(w@));
        assert(ps.take(k + 1).map_values(|p: (Seq<Seq<char>>, bool)| p.0[0]) =~= ps.take(
            k as int,
        ).map_values(|p: (Seq<Seq<char>>, bool)| p.0[0]).push(ps[k as int].0[0]));
        k = k + 1;
    }
    assert(ps.take(ps.len() as int) =~= ps);
    r
}

/// Splits the tokens of a command line into pipeline stages.
///
/// `command` is the line as typed: its `|`-separated pieces become the
/// stages' `origin`, in order. `found[k]` is what the search path gave for
/// the command word of stage `k` (see `stage_words`).
pub fn split_commands(tokens: Vec<String>, command: &str, found: &Vec<Option<String>>) -> (r: Vec<
    CommandLine,
>)
    ensures
        r@.len() == pipeline_stages(views(tokens@)).len(),
        forall|k: int|
            0 <= k < r@.len() ==> #[trigger] r@[k]@ == new_line(
                pipeline_stages(views(tokens@))[k].0,
                piece_at(split_seq(command@, '|'), k),
                pipeline_stages(views(tokens@))[k].1,
                found_at(found@, k),
            ),
{
    let mut st = stages(&tokens);
    let ghost ps = pipeline_stages(views(tokens@));
    let pieces = split_chars(command, '|');
    let ghost pv = split_seq(command@, '|');
    let mut cmds: Vec<CommandLine> = Vec::new();
    let mut k: usize = 0;
    let n = st.len();
    while k < n
        invariant
            n == ps.len(),
            k <= n,
            st@.len() == n - k,
            stage_views(st@) == ps.skip(k as int),
            pieces@.map_values(|x: String| x@) == pv,
            cmds@.len() == k,
            forall|j: int|
                0 <= j < k ==> #[trigger] cmds@[j]@ == new_line(
                    ps[j].0,
                    piece_at(pv, j),
                    ps[j].1,
                    found_at(found@, j),
                ),
        decreases n - k,
    {
        let ghost sv = stage_views(st@);
        let ghost old_st = st@;
        let (ts, has_next) = st.remove(0);
        assert(sv[0] == ps[k as int]);
        assert(st@ =~= old_st.subrange(1, old_st.len() as int));
        assert(stage_views(st@) =~= sv.subrange(1, sv.len() as int));
        assert(stage_views(st@) =~= ps.skip(k + 1));
        let origin = if k < pieces.len() {
            assert(pieces@.map_values(|x: String| x@)[k as int] == pieces@[k as int]@);
            pieces[k].clone()
        } else {
            String::new()
        };
        let f = if k < found.len() {
            match &found[k] {
                Some(p) => Some(p.clone()),
                None => None,
            }
        } else {
            None
        };
        let line = CommandLine::new(ts, origin.as_str(), has_next, f);
        cmds.push(line);
        k = k + 1;
    }
    cmds
}

} // verus!
