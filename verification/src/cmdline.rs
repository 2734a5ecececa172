//! Quoting one argument for a Windows command line, and the rule by which
//! the started program reads it back.

use vstd::prelude::*;

use crate::text::{chars_of, string_from_chars};

verus! {

/// `n` backslashes.
pub open spec fn backslashes(n: nat) -> Seq<char> {
    Seq::new(n, |i: int| '\\')
}

/// How many backslashes `s` ends with.
pub open spec fn trailing_backslashes(s: Seq<char>) -> nat
    decreases s.len(),
{
    if s.len() > 0 && s.last() == '\\' {
        trailing_backslashes(s.drop_last()) + 1
    } else {
        0
    }
}

/// Whether an argument goes onto the command line as it is: it is not empty
/// and holds no space, tab or quote.
pub open spec fn needs_no_quotes(arg: Seq<char>) -> bool {
    arg.len() > 0 && forall|i: int|
        0 <= i < arg.len() ==> #[trigger] arg[i] != ' ' && arg[i] != '\t' && arg[i] != '"'
}

/// What one character of the argument becomes inside the quotes: a quote
/// gets every backslash before it doubled and is itself escaped.
pub open spec fn escaped_char(before: Seq<char>, c: char) -> Seq<char> {
    if c == '"' {
        backslashes(trailing_backslashes(before) + 1) + seq!['"']
    } else {
        seq![c]
    }
}

/// The argument's characters as they stand between the quotes.
pub open spec fn escaped(arg: Seq<char>) -> Seq<char>
    decreases arg.len(),
{
    if arg.len() == 0 {
        Seq::empty()
    } else {
        escaped(arg.drop_last()) + escaped_char(arg.drop_last(), arg.last())
    }
}

/// An argument quoted for the command line: as it is where that is safe,
/// otherwise in quotes, with quotes escaped and the backslashes before the
/// closing quote doubled.
pub open spec fn spec_quote_arg(arg: Seq<char>) -> Seq<char> {
    if needs_no_quotes(arg) {
        arg
    } else {
        seq!['"'] + escaped(arg) + backslashes(trailing_backslashes(arg)) + seq!['"']
    }
}

/// Quotes an argument by the rules of Windows command-line parsing.
pub fn quote_arg(arg: &str) -> (res: String)
    ensures
        res@ == spec_quote_arg(arg@),
{
    let chars = chars_of(arg);
    let mut simple = chars.len() > 0;
    let mut k: usize = 0;
    while k < chars.len()
        invariant
            chars@ == arg@,
            k <= chars.len(),
            simple == (chars.len() > 0 && forall|i: int|
                0 <= i < k ==> #[trigger] chars@[i] != ' ' && chars@[i] != '\t' && chars@[i] != '"'),
        decreases chars.len() - k,
    {
        let c = chars[k];
        if c == ' ' || c == '\t' || c == '"' {
            simple = false;
        }
        k = k + 1;
    }
    if simple {
        return string_from_chars(chars.as_slice());
    }
    let mut out: Vec<char> = Vec::new();
    out.push('"');
    let mut run: usize = 0;
    for i in 0..chars.len()
        invariant
            chars@ == arg@,
            out@ == seq!['"'] + escaped(arg@.take(i as int)),
            run == trailing_backslashes(arg@.take(i as int)),
            run <= i,
    {
        let c = chars[i];
        let ghost prefix = arg@.take(i as int);
        let ghost before = out@;
        proof {
            assert(arg@.take(i + 1).drop_last() =~= prefix);
            assert(arg@.take(i + 1).last() == c);
        }
        if c == '\\' {
            out.push('\\');
            run = run + 1;
            assert(out@ =~= before + escaped_char(prefix, c));
        } else if c == '"' {
            let mut j: usize = 0;
            while j <= run
                invariant
                    run <= i < chars.len(),
                    j <= run + 1,
                    out@ == before + backslashes(j as nat),
                decreases run + 1 - j,
            {
                out.push('\\');
                j = j + 1;
                assert(out@ =~= before + backslashes(j as nat));
            }
            out.push('"');
            run = 0;
            assert(out@ =~= before + escaped_char(prefix, c));
        } else {
            out.push(c);
            run = 0;
            assert(out@ =~= before + escaped_char(prefix, c));
        }
        proof {
            assert(seq!['"'] + escaped(arg@.take(i + 1)) =~= before + escaped_char(prefix, c));
        }
    }
    proof {
        assert(arg@.take(chars@.len() as int) =~= arg@);
    }
    let ghost body = out@;
    let mut j: usize = 0;
    while j < run
        invariant
            j <= run,
            out@ == body + backslashes(j as nat),
        decreases run - j,
    {
        out.push('\\');
        j = j + 1;
        assert(out@ =~= body + backslashes(j as nat));
    }
    out.push('"');
    string_from_chars(out.as_slice())
}

// ---------------------------------------------------------------------------
// Reading an argument back
// ---------------------------------------------------------------------------

/// Where the reader of a command line stands: the argument read so far,
/// backslashes seen but not yet placed, whether it is inside quotes, and
/// whether the argument has ended at a blank outside quotes.
pub struct ArgvState {
    pub out: Seq<char>,
    pub pending: nat,
    pub in_quotes: bool,
    pub done: bool,
}

/// One character read by the rules Windows programs parse their command line
/// with: backslashes are literal unless a quote follows; before a quote,
/// each pair of them stands for one backslash, and an odd one left over
/// makes the quote literal; an unescaped quote opens or closes quoting; a
/// blank outside quotes ends the argument.
pub open spec fn argv_step(st: ArgvState, c: char) -> ArgvState {
    if st.done {
        st
    } else if c == '\\' {
        ArgvState { pending: st.pending + 1, ..st }
    } else if c == '"' {
        if st.pending % 2 == 0 {
            ArgvState {
                out: st.out + backslashes(st.pending / 2),
                pending: 0,
                in_quotes: !st.in_quotes,
                done: false,
            }
        } else {
            ArgvState {
                out: st.out + backslashes(st.pending / 2) + seq!['"'],
                pending: 0,
                in_quotes: st.in_quotes,
                done: false,
            }
        }
    } else if (c == ' ' || c == '\t') && !st.in_quotes {
        ArgvState { out: st.out + backslashes(st.pending), pending: 0, in_quotes: false, done: true }
    } else {
        ArgvState { out: st.out + backslashes(st.pending) + seq![c], pending: 0, ..st }
    }
}

/// The reader's state after `s`, starting from `st`.
pub open spec fn argv_run(st: ArgvState, s: Seq<char>) -> ArgvState
    decreases s.len(),
{
    if s.len() == 0 {
        st
    } else {
        argv_step(argv_run(st, s.drop_last()), s.last())
    }
}

/// The reader at the start of a command line.
pub open spec fn argv_start() -> ArgvState {
    ArgvState { out: Seq::empty(), pending: 0, in_quotes: false, done: false }
}

/// The first argument a command line holds, and whether reading it used up
/// the whole line.
pub open spec fn first_argument(line: Seq<char>) -> (Seq<char>, bool) {
    let st = argv_run(argv_start(), line);
    (st.out + backslashes(st.pending), !st.done && !st.in_quotes)
}

proof fn lemma_argv_run_concat(st: ArgvState, x: Seq<char>, y: Seq<char>)
    ensures
        argv_run(st, x + y) == argv_run(argv_run(st, x), y),
    decreases y.len(),
{
    if y.len() == 0 {
        assert(x + y =~= x);
    } else {
        assert((x + y).drop_last() =~= x + y.drop_last());
        assert((x + y).last() == y.last());
        lemma_argv_run_concat(st, x, y.drop_last());
    }
}

proof fn lemma_argv_one(st: ArgvState, c: char)
    ensures
        argv_run(st, seq![c]) == argv_step(st, c),
{
    assert(seq![c].drop_last() =~= Seq::<char>::empty());
    assert(seq![c].last() == c);
    assert(argv_run(st, Seq::<char>::empty()) == st);
}

proof fn lemma_argv_backslashes(st: ArgvState, n: nat)
    requires
        !st.done,
    ensures
        argv_run(st, backslashes(n)) == (ArgvState { pending: st.pending + n, ..st }),
    decreases n,
{
    if n > 0 {
        assert(backslashes(n).drop_last() =~= backslashes((n - 1) as nat));
        lemma_argv_backslashes(st, (n - 1) as nat);
    } else {
        assert(st == ArgvState { pending: st.pending + 0, ..st });
    }
}

/// The argument without its trailing backslashes.
pub open spec fn without_trailing(s: Seq<char>) -> Seq<char> {
    s.take(s.len() - trailing_backslashes(s))
}

proof fn lemma_trailing_bound(s: Seq<char>)
    ensures
        trailing_backslashes(s) <= s.len(),
        without_trailing(s) + backslashes(trailing_backslashes(s)) == s,
    decreases s.len(),
{
    if s.len() > 0 && s.last() == '\\' {
        lemma_trailing_bound(s.drop_last());
        let t = trailing_backslashes(s.drop_last());
        assert(without_trailing(s) =~= without_trailing(s.drop_last()));
        assert(backslashes(t + 1) =~= backslashes(t).push('\\'));
        assert(s =~= s.drop_last().push('\\'));
    } else {
        assert(s.take(s.len() as int) =~= s);
        assert(s + backslashes(0) =~= s);
    }
}

/// Inside the quotes, reading the escaped characters of a prefix of the
/// argument leaves the prefix read, but for its trailing backslashes, which
/// are pending.
proof fn lemma_read_escaped(arg: Seq<char>)
    ensures
        argv_run(ArgvState { out: Seq::empty(), pending: 0, in_quotes: true, done: false }, escaped(arg))
            == (ArgvState {
            out: without_trailing(arg),
            pending: trailing_backslashes(arg),
            in_quotes: true,
            done: false,
        }),
    decreases arg.len(),
{
    let st0 = ArgvState { out: Seq::empty(), pending: 0, in_quotes: true, done: false };
    if arg.len() == 0 {
        assert(without_trailing(arg) =~= Seq::<char>::empty());
    } else {
        let p = arg.drop_last();
        let c = arg.last();
        lemma_read_escaped(p);
        lemma_argv_run_concat(st0, escaped(p), escaped_char(p, c));
        let st = argv_run(st0, escaped(p));
        let t = trailing_backslashes(p);
        lemma_trailing_bound(p);
        assert(arg =~= p.push(c));
        if c == '\\' {
            assert(escaped_char(p, c) == seq!['\\']);
            lemma_argv_one(st, c);
            assert(without_trailing(arg) =~= without_trailing(p));
        } else if c == '"' {
            let bs = backslashes(t + 1);
            lemma_argv_run_concat(st, bs, seq!['"']);
            lemma_argv_backslashes(st, t + 1);
            lemma_argv_one(ArgvState { pending: st.pending + t + 1, ..st }, c);
            assert((t + t + 1) % 2 == 1);
            assert((t + t + 1) / 2 == t);
            assert(trailing_backslashes(arg) == 0);
            assert(without_trailing(arg) =~= arg);
            assert(without_trailing(p) + backslashes(t) + seq!['"'] =~= p.push(c));
        } else {
            lemma_argv_one(st, c);
            assert(trailing_backslashes(arg) == 0);
            assert(without_trailing(arg) =~= arg);
            assert(without_trailing(p) + backslashes(t) + seq![c] =~= p.push(c));
        }
    }
}

/// An argument without blanks or quotes reads back as it is.
proof fn lemma_read_plain(arg: Seq<char>)
    requires
        forall|i: int| 0 <= i < arg.len() ==> #[trigger] arg[i] != ' ' && arg[i] != '\t' && arg[i] != '"',
    ensures
        argv_run(argv_start(), arg) == (ArgvState {
            out: without_trailing(arg),
            pending: trailing_backslashes(arg),
            in_quotes: false,
            done: false,
        }),
    decreases arg.len(),
{
    if arg.len() == 0 {
        assert(without_trailing(arg) =~= Seq::<char>::empty());
    } else {
        let p = arg.drop_last();
        let c = arg.last();
        assert forall|i: int| 0 <= i < p.len() implies #[trigger] p[i] != ' ' && p[i] != '\t' && p[i] != '"' by {
            assert(p[i] == arg[i]);
        }
        lemma_read_plain(p);
        lemma_trailing_bound(p);
        assert(arg =~= p.push(c));
        if c == '\\' {
            assert(without_trailing(arg) =~= without_trailing(p));
        } else {
            assert(trailing_backslashes(arg) == 0);
            assert(without_trailing(arg) =~= arg);
            assert(without_trailing(p) + backslashes(trailing_backslashes(p)) + seq![c] =~= p.push(c));
        }
    }
}

/// A quoted argument is read back as exactly the argument, and reading it
/// uses up the whole quoted text.
pub proof fn quote_arg_reads_back(arg: Seq<char>)
    ensures
        first_argument(spec_quote_arg(arg)) == (arg, true),
{
    if needs_no_quotes(arg) {
        lemma_read_plain(arg);
        lemma_trailing_bound(arg);
    } else {
        let t = trailing_backslashes(arg);
        let q = spec_quote_arg(arg);
        let st0 = argv_start();
        let st1 = ArgvState { out: Seq::empty(), pending: 0, in_quotes: true, done: false };
        assert(argv_run(st0, seq!['"']) == st1) by {
            lemma_argv_one(st0, '"');
            assert(Seq::<char>::empty() + backslashes(0) =~= Seq::<char>::empty());
        }
        lemma_read_escaped(arg);
        let st2 = argv_run(st1, escaped(arg));
        lemma_argv_backslashes(st2, t);
        lemma_argv_run_concat(st0, seq!['"'], escaped(arg));
        lemma_argv_run_concat(st0, seq!['"'] + escaped(arg), backslashes(t));
        lemma_argv_run_concat(st0, seq!['"'] + escaped(arg) + backslashes(t), seq!['"']);
        lemma_argv_one(ArgvState { pending: st2.pending + t, ..st2 }, '"');
        assert((t + t) % 2 == 0);
        assert((t + t) / 2 == t);
        lemma_trailing_bound(arg);
        assert(q.drop_last() =~= seq!['"'] + escaped(arg) + backslashes(t));
        assert(q.last() == '"');
        assert(backslashes(0) =~= Seq::<char>::empty());
        assert(without_trailing(arg) + backslashes(t) + Seq::<char>::empty() =~= arg);
    }
}

} // verus!
