//! The shell's main step: from one line of input and the environment to the
//! command group to run, with the history kept up to date.
use vstd::prelude::*;
use crate::command::{
    bang, bang_bang, group_history, group_history_args_ok, has_redirected_ref, has_ref,
    law_history_ref_alone,
    history_arg_ok, history_number, is_history_ref, last_ref, CmdKind, CommandGroup, CommandV,
    GroupV,
};
use crate::history::{history_after_add, history_entry, History};
use crate::lsh_parser::{
    arg_value, args_end, command_of, is_builtin_name, is_special, lex_from, next_pipe,
    parse_string, parsed_script, pipeline_of, word_end, TokenV,
};
use crate::text::{
    all_digits, chars_of, decimal_text, decimal_value, digit_char, digit_value, is_digit, leading_ws, parsed_usize,
    replace_chars, replaced, string_of, trailing_ws, trim_chars, trimmed, unsigned_body,
};
use crate::ui::UI;

verus! {

broadcast use vstd::string::group_string_axioms;

/// The shell: its user interface and its history.
pub struct Kernel {
    pub ui: UI,
    pub history: History,
}

/// Why a line of input cannot be run.
#[derive(PartialEq, Eq, Structural, Clone, Copy, Debug)]
pub enum WorkError {
    /// The line does not follow the grammar.
    IllegalCommand,
    /// `!` without a first argument that is a number.
    BadHistoryNumber,
    /// A history reference that is not alone on its line, is redirected or runs
    /// in the background.
    HistoryNotAlone,
    /// A history reference to an entry that does not exist.
    NoSuchHistory,
}

/// `${name}`: how a script refers to the environment variable `name`.
pub open spec fn var_pattern(name: Seq<char>) -> Seq<char> {
    seq!['$', '{'] + name + seq!['}']
}

/// The environment variables as pairs of character sequences.
pub open spec fn vars_view(v: Seq<(String, String)>) -> Seq<(Seq<char>, Seq<char>)> {
    v.map_values(|p: (String, String)| (p.0@, p.1@))
}

/// `s` after `${name}` was replaced by the variable's value, for each variable
/// in turn.
pub open spec fn expanded(s: Seq<char>, vars: Seq<(Seq<char>, Seq<char>)>) -> Seq<char>
    decreases vars.len(),
{
    if vars.len() == 0 {
        s
    } else {
        replaced(expanded(s, vars.drop_last()), var_pattern(vars.last().0), vars.last().1)
    }
}

/// A line ready to parse: variables expanded, surrounding white space removed.
pub open spec fn preprocessed(s: Seq<char>, vars: Seq<(Seq<char>, Seq<char>)>) -> Seq<char> {
    trimmed(expanded(s, vars))
}

/// What the shell makes of a line, given its history `h` and the environment:
/// the command group to run, or why there is none. A line that is `!!` or `! n`
/// alone stands for that history entry.
pub open spec fn work_result(
    h: Seq<GroupV>,
    line: Seq<char>,
    vars: Seq<(Seq<char>, Seq<char>)>,
) -> Result<GroupV, WorkError> {
    match parsed_script(preprocessed(line, vars)) {
        None => Err(WorkError::IllegalCommand),
        Some(g) => if !group_history_args_ok(g.commands) {
            Err(WorkError::BadHistoryNumber)
        } else {
            match group_history(g) {
                None => Ok(g),
                Some(Err(_)) => Err(WorkError::HistoryNotAlone),
                Some(Ok(n)) => match history_entry(h, n as int) {
                    None => Err(WorkError::NoSuchHistory),
                    Some(e) => Ok(e),
                },
            }
        },
    }
}

/// Whether no entry of the history is itself a history reference.
pub open spec fn history_resolved(h: Seq<GroupV>) -> bool {
    forall|i: int| 0 <= i < h.len() ==> group_history(#[trigger] h[i]) is None
}

impl Kernel {
    /// Expands `${name}` for each environment variable and trims white space.
    fn preprocess_script(&self, script: &str, vars: &Vec<(String, String)>) -> (r: String)
        ensures
            r@ == preprocessed(script@, vars_view(vars@)),
    {
        let mut s = chars_of(script);
        let mut i: usize = 0;
        while i < vars.len()
            invariant
                i <= vars.len(),
                s@ == expanded(script@, vars_view(vars@).take(i as int)),
            decreases vars.len() - i,
        {
            let mut pat: Vec<char> = Vec::new();
            pat.push('$');
            pat.push('{');
            let name = chars_of(vars[i].0.as_str());
            let mut k: usize = 0;
            while k < name.len()
                invariant
                    k <= name.len(),
                    pat@ == seq!['$', '{'] + name@.take(k as int),
                decreases name.len() - k,
            {
                pat.push(name[k]);
                k += 1;
            }
            pat.push('}');
            assert(name@.take(name.len() as int) == name@);
            assert(pat@ == var_pattern(vars@[i as int].0@));
            let val = chars_of(vars[i].1.as_str());
            let ghost t = vars_view(vars@).take(i + 1 as int);
            assert(t.drop_last() == vars_view(vars@).take(i as int));
            assert(t.last() == (vars@[i as int].0@, vars@[i as int].1@));
            s = replace_chars(&s, &pat, &val);
            i += 1;
        }
        assert(vars_view(vars@).take(vars.len() as int) == vars_view(vars@));
        let t = trim_chars(&s);
        string_of(&t)
    }

    /// A shell with an empty history.
    pub fn new() -> (r: Kernel)
        ensures
            r.history@ == Seq::<GroupV>::empty(),
    {
        Kernel { ui: UI::new(), history: History::new() }
    }

    /// Handles one line of input: expands variables, parses the line, replaces
    /// a history reference by the entry it names, and records the result as the
    /// most recent history entry. Returns the command group to run; on an error
    /// the history is left as it was.
    pub fn work(&mut self, script: &str, vars: &Vec<(String, String)>) -> (r: Result<
        CommandGroup,
        WorkError,
    >)
        ensures
            match work_result(old(self).history@, script@, vars_view(vars@)) {
                Ok(g) => r matches Ok(x) && x@ == g && final(self).history@ == history_after_add(
                    old(self).history@,
                    g,
                ),
                Err(e) => r == Err::<CommandGroup, WorkError>(e) && final(self).history@ == old(
                    self,
                ).history@,
            },
            history_resolved(old(self).history@) ==> history_resolved(final(self).history@),
            history_resolved(old(self).history@) ==> (r matches Ok(x) ==> group_history(x@) is None),
    {
        let script = self.preprocess_script(script, vars);
        let command_group = match parse_string(script.as_str()) {
            None => {
                return Err(WorkError::IllegalCommand);
            },
            Some(g) => g,
        };
        if !command_group.history_args_valid() {
            return Err(WorkError::BadHistoryNumber);
        }
        let ghost h = self.history@;
        let group = match command_group.to_history_number() {
            None => command_group,
            Some(Err(_)) => {
                return Err(WorkError::HistoryNotAlone);
            },
            Some(Ok(n)) => match self.history.get_n_history(n) {
                None => {
                    return Err(WorkError::NoSuchHistory);
                },
                Some(entry) => entry.duplicate(),
            },
        };
        self.history.add_history(group.duplicate());
        proof {
            let h2 = self.history@;
            if history_resolved(h) {
                assert forall|i: int| 0 <= i < h2.len() implies group_history(#[trigger] h2[i]) is None by {
                    if i > 0 {
                        assert(h2[i] == h[i - 1]);
                    }
                }
            }
        }
        Ok(group)
    }
}

proof fn lemma_replaced_without_dollar(s: Seq<char>, pat: Seq<char>, rep: Seq<char>)
    requires
        pat.len() > 0,
        pat[0] == '$',
        !s.contains('$'),
    ensures
        replaced(s, pat, rep) == s,
    decreases s.len(),
{
    if s.len() > 0 {
        if s.len() >= pat.len() && s.take(pat.len() as int) == pat {
            assert(s.take(pat.len() as int)[0] == s[0]);
            assert(s.contains(s[0]));
        }
        assert forall|c: char| s.drop_first().contains(c) implies s.contains(c) by {
            let k = choose|k: int| 0 <= k < s.drop_first().len() && s.drop_first()[k] == c;
            assert(s[k + 1] == c);
        }
        lemma_replaced_without_dollar(s.drop_first(), pat, rep);
        assert(seq![s[0]] + s.drop_first() == s);
    }
}

proof fn lemma_expanded_without_dollar(s: Seq<char>, vars: Seq<(Seq<char>, Seq<char>)>)
    requires
        !s.contains('$'),
    ensures
        expanded(s, vars) == s,
    decreases vars.len(),
{
    if vars.len() > 0 {
        lemma_expanded_without_dollar(s, vars.drop_last());
        lemma_replaced_without_dollar(s, var_pattern(vars.last().0), vars.last().1);
    }
}

/// The line `!!` right after a command group `g` was recorded stands for `g`
/// again, whatever the environment and the earlier history.
pub proof fn law_bang_bang_reruns_last(
    h: Seq<GroupV>,
    g: GroupV,
    vars: Seq<(Seq<char>, Seq<char>)>,
)
    ensures
        work_result(history_after_add(h, g), bang_bang(), vars) == Ok::<GroupV, WorkError>(g),
{
    let s = bang_bang();
    lemma_expanded_without_dollar(s, vars);
    assert(leading_ws(s) == 0);
    assert(trailing_ws(s) == 0);
    assert(trimmed(s) == s.subrange(0, 2));
    assert(s.subrange(0, 2) == s);
    assert(preprocessed(s, vars) == s);
    assert(word_end(s, 2) == 2);
    assert(word_end(s, 1) == 2);
    assert(word_end(s, 0) == 2);
    assert(lex_from(s, 2) == Some(Seq::<TokenV>::empty()));
    assert(s.subrange(0, 2) == s);
    let ts = seq![TokenV::Word(s)];
    assert(lex_from(s, 0) == Some(ts));
    assert(next_pipe(ts, 1, 1) == 1);
    assert(next_pipe(ts, 0, 1) == 1);
    assert(args_end(ts, 1, 1) == 1);
    let c = CommandV {
        kind: CmdKind::Builtin,
        name: s,
        args: Seq::empty(),
        redirect_in: None,
        redirect_out: None,
    };
    assert(is_builtin_name(s));
    assert(ts.subrange(1, 1).map_values(|t: TokenV| arg_value(t)) =~= Seq::<Seq<char>>::empty());
    assert(command_of(ts, 0, 1) == Some(c));
    assert(pipeline_of(ts, 0, 1) == Some(seq![c]));
    let grp = GroupV { commands: seq![c], on_background: false };
    assert(parsed_script(s) == Some(grp));
    assert(!(s == bang()));
    assert(history_arg_ok(c));
    assert(group_history_args_ok(grp.commands));
    assert(is_history_ref(grp.commands[0]));
    assert(!has_redirected_ref(grp.commands));
    assert(has_ref(grp.commands));
    assert(grp.commands.drop_last() =~= Seq::<CommandV>::empty());
    assert(last_ref(grp.commands) == 0);
    assert((0int as i32) as usize == 0) by (bit_vector);
    assert(group_history(grp) == Some(Ok::<usize, ()>(0)));
}

proof fn lemma_decimal_text(n: nat)
    ensures
        decimal_text(n).len() > 0,
        all_digits(decimal_text(n)),
        decimal_value(decimal_text(n)) == n,
    decreases n,
{
    reveal_with_fuel(decimal_text, 2);
    if n < 10 {
        let t = decimal_text(n);
        assert(t.drop_last() =~= Seq::<char>::empty());
        assert(digit_value(digit_char(n)) == n);
        assert(decimal_value(t) == decimal_value(t.drop_last()) * 10 + digit_value(t.last()));
    } else {
        lemma_decimal_text(n / 10);
        let t = decimal_text(n);
        assert(t.drop_last() == decimal_text(n / 10));
        assert(t.last() == digit_char(n % 10));
        assert(digit_value(digit_char(n % 10)) == n % 10);
        assert(decimal_value(t) == decimal_value(t.drop_last()) * 10 + digit_value(t.last()));
        assert forall|i: int| 0 <= i < t.len() implies is_digit(#[trigger] t[i]) by {
            if i < t.len() - 1 {
                assert(t[i] == decimal_text(n / 10)[i]);
            }
        }
    }
}

proof fn lemma_word_end_run(s: Seq<char>, i: int)
    requires
        0 <= i <= s.len(),
        forall|k: int| i <= k < s.len() ==> !is_special(#[trigger] s[k]),
    ensures
        word_end(s, i) == s.len(),
    decreases s.len() - i,
{
    if i < s.len() {
        lemma_word_end_run(s, i + 1);
    }
}

/// The line `! n` stands for the history entry at position `n` (or is refused
/// when there is none), whatever the environment. The shell keeps the number
/// as an `i32`, so the position is `n` for every `n` up to `i32::MAX` and wraps
/// above it.
pub proof fn law_bang_n_reruns_entry(
    h: Seq<GroupV>,
    n: usize,
    vars: Seq<(Seq<char>, Seq<char>)>,
)
    ensures
        work_result(h, seq!['!', ' '] + decimal_text(n as nat), vars) == match history_entry(
            h,
            ((n as i32) as usize) as int,
        ) {
            Some(e) => Ok::<GroupV, WorkError>(e),
            None => Err(WorkError::NoSuchHistory),
        },
        n <= i32::MAX ==> ((n as i32) as usize) == n,
{
    let d = decimal_text(n as nat);
    lemma_decimal_text(n as nat);
    let s = seq!['!', ' '] + d;
    assert(s[0] == '!');
    assert(s[1] == ' ');
    assert forall|k: int| 2 <= k < s.len() implies is_digit(#[trigger] s[k]) by {
        assert(s[k] == d[k - 2]);
    }
    assert(!s.contains('$')) by {
        if s.contains('$') {
            let k = choose|k: int| 0 <= k < s.len() && s[k] == '$';
            assert(k >= 2);
            assert(is_digit(s[k]));
        }
    }
    lemma_expanded_without_dollar(s, vars);
    assert(leading_ws(s) == 0);
    assert(s.last() == d.last());
    assert(is_digit(d[d.len() - 1]));
    assert(trailing_ws(s) == 0);
    assert(s.subrange(0, s.len() as int) == s);
    assert(preprocessed(s, vars) == s);
    assert(word_end(s, 1) == 1);
    assert(word_end(s, 0) == 1);
    assert forall|k: int| 2 <= k < s.len() implies !is_special(#[trigger] s[k]) by {
        assert(is_digit(s[k]));
    }
    lemma_word_end_run(s, 2);
    assert(s.subrange(2, s.len() as int) == d);
    assert(s.subrange(0, 1) == bang());
    assert(lex_from(s, s.len() as int) == Some(Seq::<TokenV>::empty()));
    assert(lex_from(s, 2) == Some(seq![TokenV::Word(d)]));
    assert(lex_from(s, 1) == lex_from(s, 2));
    let ts = seq![TokenV::Word(bang()), TokenV::Word(d)];
    assert(seq![TokenV::Word(bang())] + seq![TokenV::Word(d)] == ts);
    assert(lex_from(s, 0) == Some(ts));
    assert(next_pipe(ts, 2, 2) == 2);
    assert(next_pipe(ts, 1, 2) == 2);
    assert(next_pipe(ts, 0, 2) == 2);
    assert(args_end(ts, 2, 2) == 2);
    assert(args_end(ts, 1, 2) == 2);
    let c = CommandV {
        kind: CmdKind::Builtin,
        name: bang(),
        args: seq![d],
        redirect_in: None,
        redirect_out: None,
    };
    assert(is_builtin_name(bang()));
    assert(ts.subrange(1, 2).map_values(|t: TokenV| arg_value(t)) =~= seq![d]);
    assert(command_of(ts, 0, 2) == Some(c));
    assert(pipeline_of(ts, 0, 2) == Some(seq![c]));
    let grp = GroupV { commands: seq![c], on_background: false };
    assert(parsed_script(s) == Some(grp));
    assert(unsigned_body(d) == d);
    assert(parsed_usize(d) == Some(n));
    assert(history_arg_ok(c));
    assert(group_history_args_ok(grp.commands));
    assert(!(bang() == bang_bang()));
    assert(history_number(c) == Some(n));
    assert(is_history_ref(grp.commands[0]));
    assert(!has_redirected_ref(grp.commands));
    assert(has_ref(grp.commands));
    assert(grp.commands.drop_last() =~= Seq::<CommandV>::empty());
    assert(last_ref(grp.commands) == 0);
    assert((0int as i32) == 0);
    assert(n <= 0x7fff_ffffusize ==> ((n as i32) as usize) == n) by (bit_vector);
    assert(group_history(grp) == Some(Ok::<usize, ()>((n as i32) as usize)));
}

/// A line whose command group is a pipeline of several commands, or runs in
/// the background, is run as it is written: the shell refuses it or returns
/// that very group, and never swaps it for a history entry (`!! | wc` is no
/// way to rerun the last group).
pub proof fn law_work_keeps_pipelines(
    h: Seq<GroupV>,
    line: Seq<char>,
    vars: Seq<(Seq<char>, Seq<char>)>,
)
    ensures
        parsed_script(preprocessed(line, vars)) matches Some(g) ==> (g.commands.len() != 1
            || g.on_background ==> (work_result(h, line, vars) matches Ok(r) ==> r == g)),
{
    if let Some(g) = parsed_script(preprocessed(line, vars)) {
        law_history_ref_alone(g);
    }
}

proof fn lemma_replaced_after_plain(pre: Seq<char>, x: Seq<char>, pat: Seq<char>, rep: Seq<char>)
    requires
        !pre.contains('$'),
        pat.len() > 0,
        pat[0] == '$',
    ensures
        replaced(pre + x, pat, rep) == pre + replaced(x, pat, rep),
    decreases pre.len(),
{
    if pre.len() > 0 {
        let s = pre + x;
        assert(s[0] == pre[0]);
        assert(pre.contains(pre[0]));
        if s.len() >= pat.len() && s.take(pat.len() as int) == pat {
            assert(s.take(pat.len() as int)[0] == s[0]);
        }
        assert(s.drop_first() =~= pre.drop_first() + x);
        assert forall|c: char| pre.drop_first().contains(c) implies pre.contains(c) by {
            let k = choose|k: int| 0 <= k < pre.drop_first().len() && pre.drop_first()[k] == c;
            assert(pre[k + 1] == c);
        }
        lemma_replaced_after_plain(pre.drop_first(), x, pat, rep);
        assert(seq![pre[0]] + (pre.drop_first() + replaced(x, pat, rep)) =~= pre + replaced(
            x,
            pat,
            rep,
        ));
    }
}

/// `${NAME}` in a line stands for the value of the variable `NAME`, whatever
/// that value is, the empty value included: expanding `pre${NAME}post`, where
/// neither `pre` nor `post` holds a `$`, gives `pre`, the value, then `post`.
pub proof fn law_variable_expands(
    pre: Seq<char>,
    name: Seq<char>,
    value: Seq<char>,
    post: Seq<char>,
)
    requires
        !pre.contains('$'),
        !post.contains('$'),
    ensures
        expanded(pre + seq!['$', '{'] + name + seq!['}'] + post, seq![(name, value)]) == pre
            + value + post,
{
    let pat = var_pattern(name);
    assert(pat[0] == '$');
    let vars = seq![(name, value)];
    assert(vars.drop_last() =~= Seq::<(Seq<char>, Seq<char>)>::empty());
    let s = pre + seq!['$', '{'] + name + seq!['}'] + post;
    assert(s =~= pre + (pat + post));
    assert(vars.last() == (name, value));
    assert(expanded(s, vars.drop_last()) == s);
    assert(expanded(s, vars) == replaced(s, pat, value));
    lemma_replaced_after_plain(pre, pat + post, pat, value);
    let t = pat + post;
    assert(t.take(pat.len() as int) =~= pat);
    assert(t.skip(pat.len() as int) =~= post);
    assert(replaced(t, pat, value) == value + replaced(post, pat, value));
    lemma_replaced_without_dollar(post, pat, value);
    assert(pre + (value + post) =~= pre + value + post);
}

} // verus!
