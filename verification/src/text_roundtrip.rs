//! The text of a command group, as `CommandGroup::to_string` writes it and the
//! `history` builtin shows it, parses back to the same group.
use vstd::prelude::*;
use crate::command::{
    args_text, command_text, group_text, pipeline_text, quoted_arg, redirect_text, CmdKind,
    CommandV, GroupV,
};
use crate::lsh_parser::{
    arg_value, args_end, command_of, cons, is_blank, is_special, lemma_next_pipe,
    lemma_quote_close, lemma_word_end, lex_from, name_kind, next_pipe, parsed_script,
    pipeline_of, prefixed, quote_close, redirects, word_end, TokenV,
};

verus! {

/// A non-empty run of characters that are not special: a word token by itself.
pub open spec fn is_word_text(w: Seq<char>) -> bool {
    w.len() > 0 && forall|k: int| 0 <= k < w.len() ==> !is_special(#[trigger] w[k])
}

/// Whether `a` between double quotes reads back as one quoted string holding
/// exactly `a`: no unescaped `"` in it, and no `\` left to escape the closing quote.
pub open spec fn quote_safe(a: Seq<char>) -> bool {
    quote_close(a.push('"'), 0) == a.len()
}

/// Whether the text of `c` reads back as `c`: its name and its redirection
/// paths are words, its kind is the one its name gets, and each argument is
/// quote-safe.
pub open spec fn printable_command(c: CommandV) -> bool {
    &&& is_word_text(c.name)
    &&& c.kind == name_kind(c.name)
    &&& forall|k: int| 0 <= k < c.args.len() ==> quote_safe(#[trigger] c.args[k])
    &&& (c.redirect_in matches Some(p) ==> is_word_text(p))
    &&& (c.redirect_out matches Some(p) ==> is_word_text(p))
}

/// Whether the text of `g` reads back as `g`: it has commands, each printable.
pub open spec fn printable_group(g: GroupV) -> bool {
    g.commands.len() > 0 && forall|k: int|
        0 <= k < g.commands.len() ==> printable_command(#[trigger] g.commands[k])
}

pub open spec fn redirect_tokens(t: TokenV, p: Option<Seq<char>>) -> Seq<TokenV> {
    match p {
        Some(x) => seq![t, TokenV::Word(x)],
        None => Seq::empty(),
    }
}

pub open spec fn quoted_tokens(args: Seq<Seq<char>>) -> Seq<TokenV> {
    args.map_values(|a: Seq<char>| TokenV::Quoted(a))
}

/// The tokens of the text of `c`.
pub open spec fn command_tokens(c: CommandV) -> Seq<TokenV> {
    seq![TokenV::Word(c.name)] + quoted_tokens(c.args) + redirect_tokens(
        TokenV::In,
        c.redirect_in,
    ) + redirect_tokens(TokenV::Out, c.redirect_out)
}

/// The tokens of the text of a pipeline.
pub open spec fn pipeline_tokens(cs: Seq<CommandV>) -> Seq<TokenV>
    decreases cs.len(),
{
    if cs.len() == 0 {
        Seq::empty()
    } else if cs.len() == 1 {
        command_tokens(cs[0])
    } else {
        pipeline_tokens(cs.drop_last()) + seq![TokenV::Pipe] + command_tokens(cs.last())
    }
}

// ---- lexing ----

proof fn lemma_word_end_shift(p: Seq<char>, s: Seq<char>, i: int)
    requires
        0 <= i <= s.len(),
    ensures
        word_end(p + s, p.len() + i) == p.len() + word_end(s, i),
    decreases s.len() - i,
{
    if i < s.len() {
        assert((p + s)[p.len() + i] == s[i]);
        if !is_special(s[i]) {
            lemma_word_end_shift(p, s, i + 1);
        }
    }
}

proof fn lemma_quote_close_shift(p: Seq<char>, s: Seq<char>, i: int)
    requires
        0 <= i,
    ensures
        quote_close(p + s, p.len() + i) == if quote_close(s, i) < 0 {
            -1
        } else {
            p.len() + quote_close(s, i)
        },
    decreases s.len() - i,
{
    lemma_quote_close(s, i);
    if i < s.len() {
        assert((p + s)[p.len() + i] == s[i]);
        if s[i] != '"' {
            if s[i] == '\\' {
                if i + 1 < s.len() {
                    lemma_quote_close_shift(p, s, i + 2);
                }
            } else {
                lemma_quote_close_shift(p, s, i + 1);
            }
        }
    }
}

/// Lexing a suffix of a line does not depend on what comes before it.
proof fn lemma_lex_shift(p: Seq<char>, s: Seq<char>, i: int)
    requires
        0 <= i <= s.len(),
    ensures
        lex_from(p + s, p.len() + i) == lex_from(s, i),
    decreases s.len() - i,
{
    let t = p + s;
    let j = p.len() + i;
    if i < s.len() {
        assert(t[j] == s[i]);
        if is_blank(s[i]) || s[i] == '|' || s[i] == '<' || s[i] == '>' || s[i] == '&' {
            lemma_lex_shift(p, s, i + 1);
        } else if s[i] == '"' {
            lemma_quote_close_shift(p, s, i + 1);
            lemma_quote_close(s, i + 1);
            let q = quote_close(s, i + 1);
            if q >= 0 {
                lemma_lex_shift(p, s, q + 1);
                assert(t.subrange(j + 1, p.len() + q) == s.subrange(i + 1, q));
            }
        } else {
            lemma_word_end_shift(p, s, i);
            lemma_word_end(s, i + 1);
            let w = word_end(s, i);
            lemma_lex_shift(p, s, w);
            assert(t.subrange(j, p.len() + w) == s.subrange(i, w));
        }
    }
}

proof fn lemma_word_end_prefix(x: Seq<char>, y: Seq<char>, i: int)
    requires
        0 <= i <= x.len(),
        y.len() == 0 || is_special(y[0]),
    ensures
        word_end(x + y, i) == word_end(x, i),
    decreases x.len() - i,
{
    if i < x.len() {
        assert((x + y)[i] == x[i]);
        if !is_special(x[i]) {
            lemma_word_end_prefix(x, y, i + 1);
        }
    } else if y.len() > 0 {
        assert((x + y)[i] == y[0]);
    }
}

proof fn lemma_quote_close_prefix(x: Seq<char>, y: Seq<char>, i: int)
    requires
        0 <= i,
        quote_close(x, i) >= 0,
    ensures
        quote_close(x + y, i) == quote_close(x, i),
    decreases x.len() - i,
{
    if i < x.len() {
        assert((x + y)[i] == x[i]);
        if x[i] != '"' {
            if x[i] == '\\' {
                assert(i + 1 < x.len());
                lemma_quote_close_prefix(x, y, i + 2);
            } else {
                lemma_quote_close_prefix(x, y, i + 1);
            }
        }
    }
}

/// Lexing `x + y` from inside `x` gives the tokens of the rest of `x`, then
/// those of `y`, when `x` lexes and `y` starts with a special character.
proof fn lemma_lex_prefix(x: Seq<char>, y: Seq<char>, i: int)
    requires
        0 <= i <= x.len(),
        y.len() == 0 || is_special(y[0]),
        lex_from(x, i) is Some,
    ensures
        lex_from(x + y, i) == prefixed(lex_from(x, i)->0, lex_from(x + y, x.len() as int)),
    decreases x.len() - i,
{
    let t = x + y;
    if i == x.len() {
        if let Some(r) = lex_from(t, i) {
            assert(Seq::<TokenV>::empty() + r == r);
        }
    } else {
        assert(t[i] == x[i]);
        if is_blank(x[i]) {
            lemma_lex_prefix(x, y, i + 1);
        } else if x[i] == '|' || x[i] == '<' || x[i] == '>' || x[i] == '&' {
            lemma_lex_prefix(x, y, i + 1);
            let tok = if x[i] == '|' {
                TokenV::Pipe
            } else if x[i] == '<' {
                TokenV::In
            } else if x[i] == '>' {
                TokenV::Out
            } else {
                TokenV::Amp
            };
            if let Some(r) = lex_from(t, x.len() as int) {
                assert(seq![tok] + (lex_from(x, i + 1)->0 + r) == (seq![tok] + lex_from(
                    x,
                    i + 1,
                )->0) + r);
            }
        } else if x[i] == '"' {
            lemma_quote_close(x, i + 1);
            let q = quote_close(x, i + 1);
            lemma_quote_close_prefix(x, y, i + 1);
            lemma_lex_prefix(x, y, q + 1);
            assert(t.subrange(i + 1, q) == x.subrange(i + 1, q));
            let tok = TokenV::Quoted(x.subrange(i + 1, q));
            if let Some(r) = lex_from(t, x.len() as int) {
                assert(seq![tok] + (lex_from(x, q + 1)->0 + r) == (seq![tok] + lex_from(
                    x,
                    q + 1,
                )->0) + r);
            }
        } else {
            lemma_word_end_prefix(x, y, i);
            lemma_word_end(x, i + 1);
            let w = word_end(x, i);
            lemma_lex_prefix(x, y, w);
            assert(t.subrange(i, w) == x.subrange(i, w));
            let tok = TokenV::Word(x.subrange(i, w));
            if let Some(r) = lex_from(t, x.len() as int) {
                assert(seq![tok] + (lex_from(x, w)->0 + r) == (seq![tok] + lex_from(x, w)->0)
                    + r);
            }
        }
    }
}

/// The tokens of `x + y` are those of `x` followed by those of `y` when `y`
/// starts with a special character.
proof fn lemma_lex_concat(x: Seq<char>, y: Seq<char>, tx: Seq<TokenV>, ty: Seq<TokenV>)
    requires
        lex_from(x, 0) == Some(tx),
        lex_from(y, 0) == Some(ty),
        y.len() == 0 || is_special(y[0]),
    ensures
        lex_from(x + y, 0) == Some(tx + ty),
{
    lemma_lex_prefix(x, y, 0);
    lemma_lex_shift(x, y, 0);
    assert(x.len() + 0 == x.len());
}

proof fn lemma_word_run(s: Seq<char>, i: int)
    requires
        0 <= i <= s.len(),
        forall|k: int| i <= k < s.len() ==> !is_special(#[trigger] s[k]),
    ensures
        word_end(s, i) == s.len(),
    decreases s.len() - i,
{
    if i < s.len() {
        lemma_word_run(s, i + 1);
    }
}

proof fn lemma_lex_word(w: Seq<char>)
    requires
        is_word_text(w),
    ensures
        lex_from(w, 0) == Some(seq![TokenV::Word(w)]),
{
    lemma_word_run(w, 0);
    assert(!is_special(w[0]));
    assert(lex_from(w, w.len() as int) == Some(Seq::<TokenV>::empty()));
    assert(w.subrange(0, w.len() as int) == w);
    assert(seq![TokenV::Word(w)] + Seq::<TokenV>::empty() == seq![TokenV::Word(w)]);
}

proof fn lemma_lex_quoted(a: Seq<char>)
    requires
        quote_safe(a),
    ensures
        lex_from(quoted_arg(a), 0) == Some(seq![TokenV::Quoted(a)]),
{
    let q = quoted_arg(a);
    let p = seq![' ', '"'];
    assert(q =~= p + a.push('"'));
    lemma_quote_close_shift(p, a.push('"'), 0);
    assert(quote_close(q, 2) == 2 + a.len());
    assert(q[0] == ' ');
    assert(q[1] == '"');
    assert(q.subrange(2, 2 + a.len() as int) == a);
    assert(lex_from(q, 3 + a.len() as int) == Some(Seq::<TokenV>::empty()));
    assert(lex_from(q, 1) == cons(
        TokenV::Quoted(q.subrange(2, 2 + a.len() as int)),
        lex_from(q, 3 + a.len() as int),
    ));
    assert(lex_from(q, 0) == lex_from(q, 1));
    assert(seq![TokenV::Quoted(a)] + Seq::<TokenV>::empty() == seq![TokenV::Quoted(a)]);
}

proof fn lemma_lex_redirect(arrow: char, tok: TokenV, p: Option<Seq<char>>)
    requires
        arrow == '<' && tok == TokenV::In || arrow == '>' && tok == TokenV::Out,
        p matches Some(x) ==> is_word_text(x),
    ensures
        lex_from(redirect_text(arrow, p), 0) == Some(redirect_tokens(tok, p)),
{
    if let Some(x) = p {
        let r = redirect_text(arrow, p);
        let pre = seq![' ', arrow, ' '];
        assert(r == pre + x);
        lemma_lex_word(x);
        lemma_lex_shift(pre, x, 0);
        assert(r[0] == ' ' && r[1] == arrow && r[2] == ' ');
        assert(lex_from(r, 3) == Some(seq![TokenV::Word(x)]));
        assert(lex_from(r, 2) == lex_from(r, 3));
        assert(lex_from(r, 1) == cons(tok, lex_from(r, 2)));
        assert(lex_from(r, 0) == lex_from(r, 1));
        assert(seq![tok] + seq![TokenV::Word(x)] == seq![tok, TokenV::Word(x)]);
    }
}

proof fn lemma_lex_name_args(name: Seq<char>, args: Seq<Seq<char>>)
    requires
        is_word_text(name),
        forall|k: int| 0 <= k < args.len() ==> quote_safe(#[trigger] args[k]),
    ensures
        lex_from(name + args_text(args), 0) == Some(seq![TokenV::Word(name)] + quoted_tokens(args)),
    decreases args.len(),
{
    if args.len() == 0 {
        lemma_lex_word(name);
        assert(name + args_text(args) == name);
        assert(quoted_tokens(args) =~= Seq::<TokenV>::empty());
        assert(seq![TokenV::Word(name)] + Seq::<TokenV>::empty() == seq![TokenV::Word(name)]);
    } else {
        let init = args.drop_last();
        assert forall|k: int| 0 <= k < init.len() implies quote_safe(#[trigger] init[k]) by {
            assert(init[k] == args[k]);
        }
        lemma_lex_name_args(name, init);
        lemma_lex_quoted(args.last());
        lemma_lex_concat(
            name + args_text(init),
            quoted_arg(args.last()),
            seq![TokenV::Word(name)] + quoted_tokens(init),
            seq![TokenV::Quoted(args.last())],
        );
        assert(name + args_text(args) == (name + args_text(init)) + quoted_arg(args.last()));
        assert(quoted_tokens(args) =~= quoted_tokens(init) + seq![TokenV::Quoted(args.last())]);
        assert(seq![TokenV::Word(name)] + quoted_tokens(args) == (seq![TokenV::Word(name)]
            + quoted_tokens(init)) + seq![TokenV::Quoted(args.last())]);
    }
}

proof fn lemma_redirect_text_start(arrow: char, p: Option<Seq<char>>)
    ensures
        redirect_text(arrow, p).len() == 0 || is_special(redirect_text(arrow, p)[0]),
{
}

proof fn lemma_lex_command(c: CommandV)
    requires
        printable_command(c),
    ensures
        lex_from(command_text(c), 0) == Some(command_tokens(c)),
{
    let a = c.name + args_text(c.args);
    let ta = seq![TokenV::Word(c.name)] + quoted_tokens(c.args);
    lemma_lex_name_args(c.name, c.args);
    let ri = redirect_text('<', c.redirect_in);
    let ro = redirect_text('>', c.redirect_out);
    lemma_lex_redirect('<', TokenV::In, c.redirect_in);
    lemma_lex_redirect('>', TokenV::Out, c.redirect_out);
    lemma_redirect_text_start('<', c.redirect_in);
    lemma_redirect_text_start('>', c.redirect_out);
    lemma_lex_concat(a, ri, ta, redirect_tokens(TokenV::In, c.redirect_in));
    lemma_lex_concat(
        a + ri,
        ro,
        ta + redirect_tokens(TokenV::In, c.redirect_in),
        redirect_tokens(TokenV::Out, c.redirect_out),
    );
}

proof fn lemma_lex_pipeline(cs: Seq<CommandV>)
    requires
        cs.len() > 0,
        forall|k: int| 0 <= k < cs.len() ==> printable_command(#[trigger] cs[k]),
    ensures
        lex_from(pipeline_text(cs), 0) == Some(pipeline_tokens(cs)),
    decreases cs.len(),
{
    if cs.len() == 1 {
        lemma_lex_command(cs[0]);
    } else {
        let init = cs.drop_last();
        assert forall|k: int| 0 <= k < init.len() implies printable_command(#[trigger] init[k]) by {
            assert(init[k] == cs[k]);
        }
        lemma_lex_pipeline(init);
        let ct = command_text(cs.last());
        lemma_lex_command(cs.last());
        let bar = seq![' ', '|', ' '];
        let y = bar + ct;
        lemma_lex_shift(bar, ct, 0);
        assert(y[0] == ' ' && y[1] == '|' && y[2] == ' ');
        assert(lex_from(y, 3) == Some(command_tokens(cs.last())));
        assert(lex_from(y, 2) == lex_from(y, 3));
        assert(lex_from(y, 1) == cons(TokenV::Pipe, lex_from(y, 2)));
        assert(lex_from(y, 0) == lex_from(y, 1));
        assert(lex_from(y, 0) == Some(seq![TokenV::Pipe] + command_tokens(cs.last())));
        lemma_lex_concat(
            pipeline_text(init),
            y,
            pipeline_tokens(init),
            seq![TokenV::Pipe] + command_tokens(cs.last()),
        );
        assert(pipeline_text(cs) == pipeline_text(init) + y);
        assert(pipeline_tokens(cs) == pipeline_tokens(init) + (seq![TokenV::Pipe]
            + command_tokens(cs.last())));
    }
}

// ---- parsing the tokens ----

proof fn lemma_no_pipe_in_command(ts: Seq<TokenV>, lo: int, hi: int, c: CommandV)
    requires
        0 <= lo <= hi <= ts.len(),
        ts.subrange(lo, hi) == command_tokens(c),
    ensures
        forall|k: int| lo <= k < hi ==> !(#[trigger] ts[k] is Pipe) && !(ts[k] is Amp),
{
    let ct = command_tokens(c);
    let n = c.args.len() as int;
    let q = quoted_tokens(c.args);
    let rin = redirect_tokens(TokenV::In, c.redirect_in);
    let rout = redirect_tokens(TokenV::Out, c.redirect_out);
    let a1 = seq![TokenV::Word(c.name)] + q;
    let a2 = a1 + rin;
    assert(ct == a2 + rout);
    assert forall|k: int| lo <= k < hi implies !(#[trigger] ts[k] is Pipe) && !(ts[k] is Amp) by {
        assert(ts[k] == ts.subrange(lo, hi)[k - lo]);
        let i = k - lo;
        if i < a2.len() {
            assert(ct[i] == a2[i]);
            if i < a1.len() {
                assert(a2[i] == a1[i]);
                if i > 0 {
                    assert(a1[i] == q[i - 1]);
                }
            } else {
                assert(a2[i] == rin[i - a1.len()]);
            }
        } else {
            assert(ct[i] == rout[i - a2.len()]);
        }
    }
}

proof fn lemma_next_pipe_run(ts: Seq<TokenV>, i: int, hi: int)
    requires
        i <= hi,
        forall|k: int| i <= k < hi ==> !(#[trigger] ts[k] is Pipe),
    ensures
        next_pipe(ts, i, hi) == hi,
    decreases hi - i,
{
    if i < hi {
        lemma_next_pipe_run(ts, i + 1, hi);
    }
}

proof fn lemma_args_end_run(ts: Seq<TokenV>, i: int, e: int, hi: int)
    requires
        i <= e <= hi,
        forall|k: int| i <= k < e ==> (#[trigger] ts[k]) is Quoted,
        e == hi || !(ts[e] is Word || ts[e] is Quoted),
    ensures
        args_end(ts, i, hi) == e,
    decreases e - i,
{
    if i < e {
        lemma_args_end_run(ts, i + 1, e, hi);
    }
}

/// The tokens of a printable command form that command.
proof fn lemma_command_of_tokens(ts: Seq<TokenV>, lo: int, hi: int, c: CommandV)
    requires
        0 <= lo <= hi <= ts.len(),
        ts.subrange(lo, hi) == command_tokens(c),
        printable_command(c),
    ensures
        command_of(ts, lo, hi) == Some(c),
{
    let ct = command_tokens(c);
    let n = c.args.len() as int;
    let rin = redirect_tokens(TokenV::In, c.redirect_in);
    let rout = redirect_tokens(TokenV::Out, c.redirect_out);
    assert(ct.len() == 1 + n + rin.len() + rout.len());
    assert forall|k: int| 0 <= k < ct.len() implies ts[lo + k] == #[trigger] ct[k] by {
        assert(ts.subrange(lo, hi)[k] == ts[lo + k]);
    }
    assert(ct[0] == TokenV::Word(c.name));
    assert(ts[lo] == TokenV::Word(c.name));
    let e = lo + 1 + n;
    assert forall|k: int| lo + 1 <= k < e implies (#[trigger] ts[k]) is Quoted by {
        assert(ts[k] == ct[k - lo]);
        assert(ct[k - lo] == quoted_tokens(c.args)[k - lo - 1]);
    }
    if e < hi {
        assert(ts[e] == ct[1 + n]);
        if rin.len() > 0 {
            assert(ct[1 + n] == rin[0]);
        } else {
            assert(ct[1 + n] == rout[0]);
        }
    }
    lemma_args_end_run(ts, lo + 1, e, hi);
    let mapped = ts.subrange(lo + 1, e).map_values(|t: TokenV| arg_value(t));
    assert(mapped =~= c.args) by {
        assert forall|k: int| 0 <= k < n implies #[trigger] mapped[k] == c.args[k] by {
            assert(ts[lo + 1 + k] == ct[1 + k]);
            assert(ct[1 + k] == quoted_tokens(c.args)[k]);
        }
    }
    // the redirections
    let e2 = e + rin.len() as int;
    if let Some(p) = c.redirect_in {
        assert(ts[e] == ct[1 + n]);
        assert(ct[1 + n] == rin[0]);
        assert(ts[e + 1] == ct[2 + n]);
        assert(ct[2 + n] == rin[1]);
    }
    if let Some(p) = c.redirect_out {
        assert(ts[e2] == ct[1 + n + rin.len() as int]);
        assert(ct[1 + n + rin.len() as int] == rout[0]);
        assert(ts[e2 + 1] == ct[2 + n + rin.len() as int]);
        assert(ct[2 + n + rin.len() as int] == rout[1]);
    }
    assert(redirects(ts, hi, hi, c.redirect_in, c.redirect_out) == Some(
        (c.redirect_in, c.redirect_out),
    ));
    assert(redirects(ts, e2, hi, c.redirect_in, None) == Some((c.redirect_in, c.redirect_out)));
    assert(redirects(ts, e, hi, None, None) == Some((c.redirect_in, c.redirect_out)));
}

/// Splitting a pipeline at a `|`.
proof fn lemma_pipeline_split(ts: Seq<TokenV>, i: int, k: int, hi: int, xs: Seq<CommandV>)
    requires
        0 <= i <= k < hi <= ts.len(),
        ts[k] is Pipe,
        pipeline_of(ts, i, k) == Some(xs),
    ensures
        pipeline_of(ts, i, hi) == prefixed(xs, pipeline_of(ts, k + 1, hi)),
    decreases k - i,
{
    lemma_next_pipe(ts, i, k);
    lemma_next_pipe(ts, i, hi);
    let m = next_pipe(ts, i, k);
    assert(next_pipe(ts, i, hi) == m) by {
        lemma_next_pipe_eq(ts, i, k, hi);
    }
    if m < k {
        let c = command_of(ts, i, m)->0;
        let rest = pipeline_of(ts, m + 1, k)->0;
        assert(xs == seq![c] + rest);
        lemma_pipeline_split(ts, m + 1, k, hi, rest);
        if let Some(r) = pipeline_of(ts, k + 1, hi) {
            assert(seq![c] + (rest + r) == (seq![c] + rest) + r);
        }
    } else {
        assert(xs == seq![command_of(ts, i, k)->0]);
    }
}

proof fn lemma_next_pipe_eq(ts: Seq<TokenV>, i: int, k: int, hi: int)
    requires
        i <= k < hi,
        ts[k] is Pipe,
    ensures
        next_pipe(ts, i, hi) == next_pipe(ts, i, k),
    decreases k - i,
{
    if i < k && !(ts[i] is Pipe) {
        lemma_next_pipe_eq(ts, i + 1, k, hi);
    }
}

proof fn lemma_pipeline_tokens_len(cs: Seq<CommandV>)
    requires
        cs.len() > 0,
    ensures
        pipeline_tokens(cs).len() > 0,
    decreases cs.len(),
{
}

/// The tokens of a printable pipeline form that pipeline.
proof fn lemma_pipeline_of_tokens(ts: Seq<TokenV>, i: int, hi: int, cs: Seq<CommandV>)
    requires
        0 <= i <= hi <= ts.len(),
        ts.subrange(i, hi) == pipeline_tokens(cs),
        cs.len() > 0,
        forall|k: int| 0 <= k < cs.len() ==> printable_command(#[trigger] cs[k]),
    ensures
        pipeline_of(ts, i, hi) == Some(cs),
        forall|k: int| i <= k < hi ==> !(#[trigger] ts[k] is Amp),
    decreases cs.len(),
{
    if cs.len() == 1 {
        lemma_no_pipe_in_command(ts, i, hi, cs[0]);
        lemma_next_pipe_run(ts, i, hi);
        lemma_command_of_tokens(ts, i, hi, cs[0]);
        assert(seq![cs[0]] == cs);
    } else {
        let init = cs.drop_last();
        assert forall|k: int| 0 <= k < init.len() implies printable_command(#[trigger] init[k]) by {
            assert(init[k] == cs[k]);
        }
        let pt = pipeline_tokens(init);
        let ct = command_tokens(cs.last());
        let k = i + pt.len();
        let whole = pt + seq![TokenV::Pipe] + ct;
        assert(pipeline_tokens(cs) == whole);
        assert(hi - i == pt.len() + 1 + ct.len());
        assert forall|j: int| 0 <= j < hi - i implies #[trigger] ts[i + j] == whole[j] by {
            assert(ts.subrange(i, hi)[j] == ts[i + j]);
        }
        assert(ts.subrange(i, k) =~= pt) by {
            assert forall|j: int| 0 <= j < pt.len() implies #[trigger] ts.subrange(i, k)[j] == pt[j] by {
                assert(ts[i + j] == whole[j]);
            }
        }
        assert(ts[i + pt.len()] == whole[pt.len() as int]);
        assert(ts[k] == TokenV::Pipe);
        assert(ts.subrange(k + 1, hi) =~= ct) by {
            assert forall|j: int| 0 <= j < ct.len() implies #[trigger] ts.subrange(k + 1, hi)[j] == ct[j] by {
                assert(ts[i + (pt.len() + 1 + j)] == whole[pt.len() + 1 + j]);
            }
        }
        lemma_pipeline_of_tokens(ts, i, k, init);
        lemma_no_pipe_in_command(ts, k + 1, hi, cs.last());
        lemma_next_pipe_run(ts, k + 1, hi);
        lemma_command_of_tokens(ts, k + 1, hi, cs.last());
        assert(pipeline_of(ts, k + 1, hi) == Some(seq![cs.last()]));
        lemma_pipeline_split(ts, i, k, hi, init);
        assert(init + seq![cs.last()] == cs);
    }
}

/// The text of a printable command group parses back to the same group.
pub proof fn law_text_parses_back(g: GroupV)
    requires
        printable_group(g),
    ensures
        parsed_script(group_text(g)) == Some(g),
{
    let cs = g.commands;
    lemma_lex_pipeline(cs);
    let pt = pipeline_tokens(cs);
    lemma_pipeline_tokens_len(cs);
    if g.on_background {
        let amp = seq![' ', '&'];
        assert(lex_from(amp, 2) == Some(Seq::<TokenV>::empty()));
        assert(lex_from(amp, 1) == cons(TokenV::Amp, lex_from(amp, 2)));
        assert(lex_from(amp, 0) == lex_from(amp, 1));
        assert(seq![TokenV::Amp] + Seq::<TokenV>::empty() == seq![TokenV::Amp]);
        assert(lex_from(amp, 0) == Some(seq![TokenV::Amp]));
        lemma_lex_concat(pipeline_text(cs), amp, pt, seq![TokenV::Amp]);
        let ts = pt + seq![TokenV::Amp];
        assert(ts.subrange(0, pt.len() as int) == pt);
        lemma_pipeline_of_tokens(ts, 0, pt.len() as int, cs);
        assert(ts.last() is Amp);
    } else {
        assert(pipeline_text(cs) + Seq::<char>::empty() == pipeline_text(cs));
        assert(pt.subrange(0, pt.len() as int) == pt);
        lemma_pipeline_of_tokens(pt, 0, pt.len() as int, cs);
        assert(!(pt.last() is Amp));
    }
}

/// A line made of the name of one of the shell's builtin commands (`cd`,
/// `pwd`, `exit`, `exec`, `.`, `export`, `echo`, `kill`, `history`, `!!`,
/// `!`) followed by quoted arguments parses as that builtin, run with exactly
/// those arguments, alone in the foreground: for instance `exit "0"` runs the
/// builtin `exit` with the argument `0`.
pub proof fn law_builtin_line(n: Seq<char>, args: Seq<Seq<char>>)
    requires
        n == seq!['c', 'd'] || n == seq!['p', 'w', 'd'] || n == seq!['e', 'x', 'i', 't'] || n
            == seq!['e', 'x', 'e', 'c'] || n == seq!['.'] || n == seq!['e', 'x', 'p', 'o', 'r', 't']
            || n == seq!['e', 'c', 'h', 'o'] || n == seq!['k', 'i', 'l', 'l'] || n == seq![
            'h',
            'i',
            's',
            't',
            'o',
            'r',
            'y',
        ] || n == seq!['!', '!'] || n == seq!['!'],
        forall|k: int| 0 <= k < args.len() ==> quote_safe(#[trigger] args[k]),
    ensures
        parsed_script(n + args_text(args)) == Some(
            GroupV {
                commands: seq![
                    CommandV {
                        kind: CmdKind::Builtin,
                        name: n,
                        args,
                        redirect_in: None,
                        redirect_out: None,
                    },
                ],
                on_background: false,
            },
        ),
{
    let c = CommandV {
        kind: CmdKind::Builtin,
        name: n,
        args,
        redirect_in: None,
        redirect_out: None,
    };
    let g = GroupV { commands: seq![c], on_background: false };
    assert forall|k: int| 0 <= k < n.len() implies !is_special(#[trigger] n[k]) by {}
    assert(is_word_text(n));
    assert(name_kind(n) == CmdKind::Builtin);
    assert(printable_command(g.commands[0]));
    assert(printable_group(g));
    law_text_parses_back(g);
    assert(command_text(c) =~= n + args_text(args));
    assert(group_text(g) =~= n + args_text(args));
}

} // verus!
