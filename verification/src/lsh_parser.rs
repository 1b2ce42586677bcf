//! The shell's command-line grammar.
//!
//! A line is first split into tokens:
//! * blanks (space, tab) separate tokens and are otherwise dropped;
//! * `|`, `<`, `>` and `&` are tokens of their own;
//! * `"` opens a quoted string that runs to the next `"` not escaped by `\`;
//!   its content is kept as written, backslashes included;
//! * any other run of characters is a word.
//!
//! The tokens then form a script:
//! ```text
//! SCRIPT   := (PIPELINE "&"?)?
//! PIPELINE := COMMAND ("|" COMMAND)*
//! COMMAND  := WORD ARG* REDIRECT*
//! ARG      := WORD | QUOTED
//! REDIRECT := "<" WORD | ">" WORD        (a later redirection replaces an earlier one)
//! ```
//! The command name is a builtin (`cd`, `pwd`, `exit`, `exec`, `.`, `export`,
//! `echo`, `kill`, `history`, `!!`, `!`), a path to an executable when it contains `/`,
//! and otherwise a command searched in `$PATH`.
use vstd::prelude::*;
use crate::command::{
    self, args_text, bang, bang_bang, history_arg_ok, history_number, is_bang, is_bang_bang,
    opt_chars, push_args, push_str, strings_view, CmdKind, CommandV, GroupV,
};
use crate::text::{chars_match, chars_of, parse_usize, string_of};

verus! {

broadcast use vstd::string::group_string_axioms;

/// The parser of the shell's command lines.
pub struct LSHParser;

/// A command name with its kind, as the parser's commands carry it.
#[derive(Debug, Clone)]
pub enum CmdType {
    Builtin(String),
    Outer(String),
    SpecExe(String),
}

/// A command with its arguments and redirections.
#[derive(Debug, Clone)]
pub struct Command {
    pub cmd_type: CmdType,
    pub args: Vec<String>,
    pub redirect_in: Option<String>,
    pub redirect_out: Option<String>,
}

impl CmdType {
    pub open spec fn kind(&self) -> CmdKind {
        match self {
            CmdType::Builtin(_) => CmdKind::Builtin,
            CmdType::Outer(_) => CmdKind::Outer,
            CmdType::SpecExe(_) => CmdKind::SpecExe,
        }
    }

    pub open spec fn name(&self) -> Seq<char> {
        match self {
            CmdType::Builtin(s) => s@,
            CmdType::Outer(s) => s@,
            CmdType::SpecExe(s) => s@,
        }
    }
}

impl View for Command {
    type V = CommandV;

    open spec fn view(&self) -> CommandV {
        CommandV {
            kind: self.cmd_type.kind(),
            name: self.cmd_type.name(),
            args: strings_view(self.args@),
            redirect_in: opt_chars(self.redirect_in),
            redirect_out: opt_chars(self.redirect_out),
        }
    }
}

/// The text of a command without its redirections: its name and quoted arguments.
pub open spec fn plain_command_text(c: CommandV) -> Seq<char> {
    c.name + args_text(c.args)
}

impl Command {
    /// The history entry this command refers to: `Some(0)` for `!!`, `Some(n)`
    /// for `! n`, `None` for any other command.
    pub fn to_history(&self) -> (r: Option<usize>)
        requires
            history_arg_ok(self@),
        ensures
            r == history_number(self@),
    {
        if let CmdType::Builtin(cmd) = &self.cmd_type {
            if is_bang_bang(cmd) {
                Some(0)
            } else if is_bang(cmd) {
                parse_usize(self.args[0].as_str())
            } else {
                None
            }
        } else {
            None
        }
    }

    /// The command's name followed by its quoted arguments.
    pub fn to_string(&self) -> (r: String)
        ensures
            r@ == plain_command_text(self@),
    {
        let mut s = String::new();
        match &self.cmd_type {
            CmdType::Builtin(c) => push_str(&mut s, c.as_str()),
            CmdType::Outer(c) => push_str(&mut s, c.as_str()),
            CmdType::SpecExe(c) => push_str(&mut s, c.as_str()),
        }
        push_args(&mut s, &self.args);
        s
    }
}

/// A token of a command line.
pub enum Token {
    Word(Vec<char>),
    Quoted(Vec<char>),
    Pipe,
    In,
    Out,
    Amp,
}

/// The abstract value of a token.
pub enum TokenV {
    Word(Seq<char>),
    Quoted(Seq<char>),
    Pipe,
    In,
    Out,
    Amp,
}

impl View for Token {
    type V = TokenV;

    open spec fn view(&self) -> TokenV {
        match self {
            Token::Word(w) => TokenV::Word(w@),
            Token::Quoted(q) => TokenV::Quoted(q@),
            Token::Pipe => TokenV::Pipe,
            Token::In => TokenV::In,
            Token::Out => TokenV::Out,
            Token::Amp => TokenV::Amp,
        }
    }
}

pub open spec fn tokens_view(v: Seq<Token>) -> Seq<TokenV> {
    v.map_values(|t: Token| t@)
}

/// Characters that separate tokens.
pub open spec fn is_blank(c: char) -> bool {
    c == ' ' || c == '\t'
}

/// Characters that end a word.
pub open spec fn is_special(c: char) -> bool {
    is_blank(c) || c == '|' || c == '<' || c == '>' || c == '&' || c == '"'
}

/// The end of the word that starts at `i`: the first special character at or after `i`.
pub open spec fn word_end(s: Seq<char>, i: int) -> int
    decreases s.len() - i,
{
    if i >= s.len() || is_special(s[i]) {
        i
    } else {
        word_end(s, i + 1)
    }
}

/// The position of the `"` that closes a quoted string whose content starts at
/// `i`, skipping each `\` and the character after it; -1 when there is none.
pub open spec fn quote_close(s: Seq<char>, i: int) -> int
    decreases s.len() - i,
{
    if i >= s.len() {
        -1
    } else if s[i] == '"' {
        i
    } else if s[i] == '\\' {
        if i + 1 < s.len() {
            quote_close(s, i + 2)
        } else {
            -1
        }
    } else {
        quote_close(s, i + 1)
    }
}

pub proof fn lemma_word_end(s: Seq<char>, i: int)
    requires
        0 <= i <= s.len(),
    ensures
        i <= word_end(s, i) <= s.len(),
    decreases s.len() - i,
{
    if i < s.len() && !is_special(s[i]) {
        lemma_word_end(s, i + 1);
    }
}

pub proof fn lemma_quote_close(s: Seq<char>, i: int)
    requires
        0 <= i,
    ensures
        quote_close(s, i) == -1 || (i <= quote_close(s, i) < s.len() && s[quote_close(s, i)]
            == '"'),
    decreases s.len() - i,
{
    if i < s.len() && s[i] != '"' {
        if s[i] == '\\' {
            if i + 1 < s.len() {
                lemma_quote_close(s, i + 2);
            }
        } else {
            lemma_quote_close(s, i + 1);
        }
    }
}

/// `Some(seq![t] + r)` when `o` is `Some(r)`, `None` when it is `None`.
pub open spec fn cons<T>(t: T, o: Option<Seq<T>>) -> Option<Seq<T>> {
    match o {
        Some(r) => Some(seq![t] + r),
        None => None,
    }
}

/// `Some(p + r)` when `o` is `Some(r)`, `None` when it is `None`.
pub open spec fn prefixed<T>(p: Seq<T>, o: Option<Seq<T>>) -> Option<Seq<T>> {
    match o {
        Some(r) => Some(p + r),
        None => None,
    }
}

/// The tokens of `s[i..]`, or `None` when a quoted string is not closed.
pub open spec fn lex_from(s: Seq<char>, i: int) -> Option<Seq<TokenV>>
    decreases s.len() - i,
{
    if i < 0 || i >= s.len() {
        Some(Seq::empty())
    } else if is_blank(s[i]) {
        lex_from(s, i + 1)
    } else if s[i] == '|' {
        cons(TokenV::Pipe, lex_from(s, i + 1))
    } else if s[i] == '<' {
        cons(TokenV::In, lex_from(s, i + 1))
    } else if s[i] == '>' {
        cons(TokenV::Out, lex_from(s, i + 1))
    } else if s[i] == '&' {
        cons(TokenV::Amp, lex_from(s, i + 1))
    } else if s[i] == '"' {
        let j = quote_close(s, i + 1);
        proof {
            lemma_quote_close(s, i + 1);
        }
        if j < 0 {
            None
        } else {
            cons(TokenV::Quoted(s.subrange(i + 1, j)), lex_from(s, j + 1))
        }
    } else {
        let j = word_end(s, i);
        proof {
            lemma_word_end(s, i + 1);
        }
        cons(TokenV::Word(s.subrange(i, j)), lex_from(s, j))
    }
}

/// Whether a token can be an argument.
pub open spec fn is_arg_token(t: TokenV) -> bool {
    t is Word || t is Quoted
}

/// The value of an argument token.
pub open spec fn arg_value(t: TokenV) -> Seq<char> {
    match t {
        TokenV::Word(w) => w,
        TokenV::Quoted(q) => q,
        _ => Seq::empty(),
    }
}

/// The first `|` in `ts[i..hi]`, or `hi` when there is none.
pub open spec fn next_pipe(ts: Seq<TokenV>, i: int, hi: int) -> int
    decreases hi - i,
{
    if i >= hi || ts[i] is Pipe {
        i
    } else {
        next_pipe(ts, i + 1, hi)
    }
}

/// The end of the arguments that start at `i`: the first token of `ts[i..hi]` that is no argument.
pub open spec fn args_end(ts: Seq<TokenV>, i: int, hi: int) -> int
    decreases hi - i,
{
    if i >= hi || !is_arg_token(ts[i]) {
        i
    } else {
        args_end(ts, i + 1, hi)
    }
}

/// The redirections of `ts[i..hi]`, starting from `rin` and `rout`; `None`
/// unless `ts[i..hi]` is a sequence of `<` or `>` each followed by a word.
pub open spec fn redirects(
    ts: Seq<TokenV>,
    i: int,
    hi: int,
    rin: Option<Seq<char>>,
    rout: Option<Seq<char>>,
) -> Option<(Option<Seq<char>>, Option<Seq<char>>)>
    decreases hi - i,
{
    if i >= hi {
        Some((rin, rout))
    } else if i + 1 < hi && ts[i + 1] is Word {
        if ts[i] is In {
            redirects(ts, i + 2, hi, Some(ts[i + 1]->Word_0), rout)
        } else if ts[i] is Out {
            redirects(ts, i + 2, hi, rin, Some(ts[i + 1]->Word_0))
        } else {
            None
        }
    } else {
        None
    }
}

/// Names of the builtin commands.
pub open spec fn is_builtin_name(n: Seq<char>) -> bool {
    ||| n == seq!['c', 'd']
    ||| n == seq!['p', 'w', 'd']
    ||| n == seq!['e', 'x', 'i', 't']
    ||| n == seq!['e', 'x', 'e', 'c']
    ||| n == seq!['.']
    ||| n == seq!['e', 'x', 'p', 'o', 'r', 't']
    ||| n == seq!['e', 'c', 'h', 'o']
    ||| n == seq!['k', 'i', 'l', 'l']
    ||| n == seq!['h', 'i', 's', 't', 'o', 'r', 'y']
    ||| n == bang_bang()
    ||| n == bang()
}

/// The kind of a command name.
pub open spec fn name_kind(n: Seq<char>) -> CmdKind {
    if is_builtin_name(n) {
        CmdKind::Builtin
    } else if n.contains('/') {
        CmdKind::SpecExe
    } else {
        CmdKind::Outer
    }
}

/// The command that `ts[lo..hi]` forms, if any.
pub open spec fn command_of(ts: Seq<TokenV>, lo: int, hi: int) -> Option<CommandV> {
    if 0 <= lo < hi && ts[lo] is Word {
        let name = ts[lo]->Word_0;
        let e = args_end(ts, lo + 1, hi);
        match redirects(ts, e, hi, None, None) {
            Some((rin, rout)) => Some(
                CommandV {
                    kind: name_kind(name),
                    name,
                    args: ts.subrange(lo + 1, e).map_values(|t: TokenV| arg_value(t)),
                    redirect_in: rin,
                    redirect_out: rout,
                },
            ),
            None => None,
        }
    } else {
        None
    }
}

pub proof fn lemma_next_pipe(ts: Seq<TokenV>, i: int, hi: int)
    requires
        i <= hi,
    ensures
        i <= next_pipe(ts, i, hi) <= hi,
        next_pipe(ts, i, hi) < hi ==> ts[next_pipe(ts, i, hi)] is Pipe,
    decreases hi - i,
{
    if i < hi && !(ts[i] is Pipe) {
        lemma_next_pipe(ts, i + 1, hi);
    }
}

/// The commands of the pipeline `ts[i..hi]`, if it is one.
pub open spec fn pipeline_of(ts: Seq<TokenV>, i: int, hi: int) -> Option<Seq<CommandV>>
    decreases hi - i,
{
    if i > hi {
        None
    } else {
        let k = next_pipe(ts, i, hi);
        proof {
            lemma_next_pipe(ts, i, hi);
        }
        match command_of(ts, i, k) {
            None => None,
            Some(c) => if k >= hi {
                Some(seq![c])
            } else {
                cons(c, pipeline_of(ts, k + 1, hi))
            },
        }
    }
}

/// The command group that the tokens `ts` form, if any.
pub open spec fn script_of(ts: Seq<TokenV>) -> Option<GroupV> {
    if ts.len() == 0 {
        Some(GroupV { commands: Seq::empty(), on_background: false })
    } else {
        let bg = ts.last() is Amp;
        let hi = if bg {
            ts.len() - 1
        } else {
            ts.len() as int
        };
        match pipeline_of(ts, 0, hi) {
            Some(cs) => Some(GroupV { commands: cs, on_background: bg }),
            None => None,
        }
    }
}

/// The command group that the line `s` describes, if it follows the grammar.
pub open spec fn parsed_script(s: Seq<char>) -> Option<GroupV> {
    match lex_from(s, 0) {
        Some(ts) => script_of(ts),
        None => None,
    }
}

proof fn lemma_pipeline_kinds(ts: Seq<TokenV>, i: int, hi: int)
    ensures
        pipeline_of(ts, i, hi) matches Some(cs) ==> forall|k: int|
            0 <= k < cs.len() ==> (#[trigger] cs[k]).kind == name_kind(cs[k].name),
    decreases hi - i,
{
    if i <= hi {
        let k = next_pipe(ts, i, hi);
        lemma_next_pipe(ts, i, hi);
        if k < hi {
            lemma_pipeline_kinds(ts, k + 1, hi);
        }
        if let Some(cs) = pipeline_of(ts, i, hi) {
            let c = command_of(ts, i, k)->0;
            if k < hi {
                let rest = pipeline_of(ts, k + 1, hi)->0;
                assert(cs == seq![c] + rest);
                assert forall|j: int| 0 <= j < cs.len() implies (#[trigger] cs[j]).kind == name_kind(
                    cs[j].name,
                ) by {
                    if j > 0 {
                        assert(cs[j] == rest[j - 1]);
                    }
                }
            }
        }
    }
}

/// On any line that parses, a command is a builtin exactly when its name is
/// one of the shell's builtin commands: `cd`, `pwd`, `exit`, `exec`, `.`,
/// `export`, `echo`, `kill`, `history`, `!!` and `!`. Any other name is a
/// path to an executable when it holds `/`, else a command searched in `$PATH`.
pub proof fn law_builtins_by_name(s: Seq<char>, k: int)
    requires
        parsed_script(s) matches Some(g) && 0 <= k < g.commands.len(),
    ensures
        ({
            let c = parsed_script(s)->0.commands[k];
            let n = c.name;
            let builtin = n == seq!['c', 'd'] || n == seq!['p', 'w', 'd'] || n == seq![
                'e',
                'x',
                'i',
                't',
            ] || n == seq!['e', 'x', 'e', 'c'] || n == seq!['.'] || n == seq![
                'e',
                'x',
                'p',
                'o',
                'r',
                't',
            ] || n == seq!['e', 'c', 'h', 'o'] || n == seq!['k', 'i', 'l', 'l'] || n == seq![
                'h',
                'i',
                's',
                't',
                'o',
                'r',
                'y',
            ] || n == seq!['!', '!'] || n == seq!['!'];
            &&& (c.kind == CmdKind::Builtin <==> builtin)
            &&& (!builtin && n.contains('/') ==> c.kind == CmdKind::SpecExe)
            &&& (!builtin && !n.contains('/') ==> c.kind == CmdKind::Outer)
        }),
{
    let ts = lex_from(s, 0)->0;
    let hi = if ts.last() is Amp {
        ts.len() - 1
    } else {
        ts.len() as int
    };
    lemma_pipeline_kinds(ts, 0, hi);
    let g = parsed_script(s)->0;
    assert(g.commands[k].kind == name_kind(g.commands[k].name));
}

/// `s[a..b]` as a vector.
pub(crate) fn sub_chars(s: &Vec<char>, a: usize, b: usize) -> (r: Vec<char>)
    requires
        a <= b <= s.len(),
    ensures
        r@ == s@.subrange(a as int, b as int),
{
    let mut r: Vec<char> = Vec::new();
    let mut k = a;
    while k < b
        invariant
            a <= k <= b <= s.len(),
            r@ == s@.subrange(a as int, k as int),
        decreases b - k,
    {
        r.push(s[k]);
        k += 1;
    }
    r
}

fn is_arg(t: &Token) -> (r: bool)
    ensures
        r == is_arg_token(t@),
{
    match t {
        Token::Word(_) | Token::Quoted(_) => true,
        _ => false,
    }
}

fn special(c: char) -> (r: bool)
    ensures
        r == is_special(c),
{
    c == ' ' || c == '\t' || c == '|' || c == '<' || c == '>' || c == '&' || c == '"'
}

proof fn lemma_prefixed_cons<T>(p: Seq<T>, t: T, o: Option<Seq<T>>)
    ensures
        prefixed(p, cons(t, o)) == prefixed(p.push(t), o),
{
    if let Some(r) = o {
        assert(p + (seq![t] + r) == p.push(t) + r);
    }
}

/// The kind of the command name `n`.
pub fn kind_of_name(n: &Vec<char>) -> (k: CmdKind)
    ensures
        k == name_kind(n@),
{
    let b0 = chars_match(n, &['c', 'd']);
    let b1 = chars_match(n, &['p', 'w', 'd']);
    let b2 = chars_match(n, &['e', 'x', 'i', 't']);
    let b3 = chars_match(n, &['e', 'c', 'h', 'o']);
    let b4 = chars_match(n, &['k', 'i', 'l', 'l']);
    let b5 = chars_match(n, &['h', 'i', 's', 't', 'o', 'r', 'y']);
    let b6 = chars_match(n, &['!', '!']);
    let b7 = n.len() == 1 && n[0] == '!';
    let b8 = chars_match(n, &['e', 'x', 'e', 'c']);
    let b9 = n.len() == 1 && n[0] == '.';
    let b10 = chars_match(n, &['e', 'x', 'p', 'o', 'r', 't']);
    proof {
        if b7 {
            assert(n@ =~= bang());
        }
        if b9 {
            assert(n@ =~= seq!['.']);
        }
    }
    assert(b0 == (n@ == seq!['c', 'd']));
    assert(b1 == (n@ == seq!['p', 'w', 'd']));
    assert(b2 == (n@ == seq!['e', 'x', 'i', 't']));
    assert(b3 == (n@ == seq!['e', 'c', 'h', 'o']));
    assert(b4 == (n@ == seq!['k', 'i', 'l', 'l']));
    assert(b5 == (n@ == seq!['h', 'i', 's', 't', 'o', 'r', 'y']));
    assert(b6 == (n@ == bang_bang()));
    assert(b7 == (n@ == bang()));
    assert(b8 == (n@ == seq!['e', 'x', 'e', 'c']));
    assert(b9 == (n@ == seq!['.']));
    assert(b10 == (n@ == seq!['e', 'x', 'p', 'o', 'r', 't']));
    if b0 || b1 || b2 || b3 || b4 || b5 || b6 || b7 || b8 || b9 || b10 {
        return CmdKind::Builtin;
    }
    assert(!is_builtin_name(n@));
    let mut i: usize = 0;
    while i < n.len()
        invariant
            i <= n.len(),
            forall|k: int| 0 <= k < i ==> n@[k] != '/',
        decreases n.len() - i,
    {
        if n[i] == '/' {
            assert(n@.contains('/'));
            return CmdKind::SpecExe;
        }
        i += 1;
    }
    CmdKind::Outer
}

impl LSHParser {
    /// Splits a line into tokens; `None` when a quoted string is not closed.
    pub fn tokenize(s: &Vec<char>) -> (r: Option<Vec<Token>>)
        ensures
            match lex_from(s@, 0) {
                None => r is None,
                Some(ts) => r matches Some(v) && tokens_view(v@) == ts,
            },
    {
        let mut toks: Vec<Token> = Vec::new();
        let mut i: usize = 0;
        assert(tokens_view(toks@) + lex_from(s@, 0)->0 == lex_from(s@, 0)->0);
        while i < s.len()
            invariant
                i <= s.len(),
                lex_from(s@, 0) == prefixed(tokens_view(toks@), lex_from(s@, i as int)),
            decreases s.len() - i,
        {
            let c = s[i];
            let ghost before = tokens_view(toks@);
            if c == ' ' || c == '\t' {
                i += 1;
            } else if c == '|' || c == '<' || c == '>' || c == '&' {
                let t = if c == '|' {
                    Token::Pipe
                } else if c == '<' {
                    Token::In
                } else if c == '>' {
                    Token::Out
                } else {
                    Token::Amp
                };
                proof {
                    lemma_prefixed_cons(before, t@, lex_from(s@, i + 1));
                }
                toks.push(t);
                assert(tokens_view(toks@) == before.push(t@));
                i += 1;
            } else if c == '"' {
                let mut j: usize = i + 1;
                while j < s.len() && s[j] != '"'
                    invariant
                        i < j <= s.len(),
                        s@[i as int] == '"',
                        lex_from(s@, 0) == prefixed(tokens_view(toks@), lex_from(s@, i as int)),
                        quote_close(s@, i + 1) == quote_close(s@, j as int),
                    decreases s.len() - j,
                {
                    if s[j] == '\\' {
                        if j + 1 < s.len() {
                            j += 2;
                        } else {
                            assert(quote_close(s@, j as int) == -1);
                            assert(lex_from(s@, i as int) is None);
                            return None;
                        }
                    } else {
                        j += 1;
                    }
                }
                if j >= s.len() {
                    assert(quote_close(s@, j as int) == -1);
                    assert(lex_from(s@, i as int) is None);
                    return None;
                }
                let t = Token::Quoted(sub_chars(s, i + 1, j));
                proof {
                    lemma_prefixed_cons(before, t@, lex_from(s@, j + 1));
                }
                toks.push(t);
                assert(tokens_view(toks@) == before.push(t@));
                i = j + 1;
            } else {
                let mut j: usize = i;
                while j < s.len() && !special(s[j])
                    invariant
                        i <= j <= s.len(),
                        word_end(s@, i as int) == word_end(s@, j as int),
                        forall|k: int| i <= k < j ==> !is_special(#[trigger] s@[k]),
                    decreases s.len() - j,
                {
                    j += 1;
                }
                assert(j > i);
                let t = Token::Word(sub_chars(s, i, j));
                proof {
                    lemma_prefixed_cons(before, t@, lex_from(s@, j as int));
                }
                toks.push(t);
                assert(tokens_view(toks@) == before.push(t@));
                i = j;
            }
        }
        assert(tokens_view(toks@) + Seq::<TokenV>::empty() == tokens_view(toks@));
        Some(toks)
    }

    /// The command that the tokens `toks[lo..hi]` form, if any.
    fn command(toks: &Vec<Token>, lo: usize, hi: usize) -> (r: Option<command::Command>)
        requires
            lo <= hi <= toks.len(),
        ensures
            match command_of(tokens_view(toks@), lo as int, hi as int) {
                None => r is None,
                Some(c) => r matches Some(x) && x@ == c,
            },
    {
        let ghost ts = tokens_view(toks@);
        if lo >= hi {
            return None;
        }
        let name = match &toks[lo] {
            Token::Word(w) => w,
            _ => {
                return None;
            },
        };
        assert(ts[lo as int] == toks@[lo as int]@);
        let mut args: Vec<String> = Vec::new();
        let mut i: usize = lo + 1;
        while i < hi && is_arg(&toks[i])
            invariant
                lo < i <= hi <= toks.len(),
                ts == tokens_view(toks@),
                args_end(ts, lo + 1, hi as int) == args_end(ts, i as int, hi as int),
                strings_view(args@) == ts.subrange(lo + 1, i as int).map_values(
                    |t: TokenV| arg_value(t),
                ),
            decreases hi - i,
        {
            assert(ts[i as int] == toks@[i as int]@);
            let v = match &toks[i] {
                Token::Word(w) => w,
                Token::Quoted(q) => q,
                _ => {
                    return None;
                },
            };
            args.push(string_of(v));
            assert(ts.subrange(lo + 1, i + 1 as int).map_values(|t: TokenV| arg_value(t))
                == ts.subrange(lo + 1, i as int).map_values(|t: TokenV| arg_value(t)).push(
                arg_value(ts[i as int]),
            ));
            i += 1;
        }
        proof {
            if i < hi {
                assert(ts[i as int] == toks@[i as int]@);
            }
        }
        let ghost e = i as int;
        assert(args_end(ts, i as int, hi as int) == e);
        let mut rin: Option<String> = None;
        let mut rout: Option<String> = None;
        while i < hi
            invariant
                e <= i <= hi <= toks.len(),
                lo < e,
                ts == tokens_view(toks@),
                ts[lo as int] == TokenV::Word(name@),
                args_end(ts, lo + 1, hi as int) == e,
                strings_view(args@) == ts.subrange(lo + 1, e).map_values(|t: TokenV| arg_value(t)),
                redirects(ts, e, hi as int, None, None) == redirects(
                    ts,
                    i as int,
                    hi as int,
                    opt_chars(rin),
                    opt_chars(rout),
                ),
            decreases hi - i,
        {
            if i + 1 >= hi {
                return None;
            }
            assert(ts[i as int] == toks@[i as int]@);
            assert(ts[i + 1 as int] == toks@[i + 1 as int]@);
            let path = match &toks[i + 1] {
                Token::Word(w) => string_of(w),
                _ => {
                    return None;
                },
            };
            match &toks[i] {
                Token::In => {
                    rin = Some(path);
                },
                Token::Out => {
                    rout = Some(path);
                },
                _ => {
                    return None;
                },
            }
            i += 2;
        }
        let kind = kind_of_name(name);
        let n = string_of(name);
        let cmd_type = match kind {
            CmdKind::Builtin => command::CmdType::Builtin(n),
            CmdKind::Outer => command::CmdType::Outer(n),
            CmdKind::SpecExe => command::CmdType::SpecExe(n),
        };
        Some(command::Command { cmd_type, args, redirect_in: rin, redirect_out: rout })
    }
}


impl LSHParser {
    /// The first `|` in `toks[i..hi]`, or `hi`.
    fn next_pipe(toks: &Vec<Token>, i: usize, hi: usize) -> (k: usize)
        requires
            i <= hi <= toks.len(),
        ensures
            k == next_pipe(tokens_view(toks@), i as int, hi as int),
    {
        let ghost ts = tokens_view(toks@);
        let mut k = i;
        while k < hi && !matches!(toks[k], Token::Pipe)
            invariant
                i <= k <= hi <= toks.len(),
                ts == tokens_view(toks@),
                next_pipe(ts, i as int, hi as int) == next_pipe(ts, k as int, hi as int),
            decreases hi - k,
        {
            assert(ts[k as int] == toks@[k as int]@);
            k += 1;
        }
        proof {
            if k < hi {
                assert(ts[k as int] == toks@[k as int]@);
            }
        }
        k
    }

    /// The commands of the pipeline `toks[0..hi]`, if it is one.
    fn pipeline(toks: &Vec<Token>, hi: usize) -> (r: Option<Vec<command::Command>>)
        requires
            hi <= toks.len(),
        ensures
            match pipeline_of(tokens_view(toks@), 0, hi as int) {
                None => r is None,
                Some(cs) => r matches Some(v) && command::commands_view(v@) == cs,
            },
    {
        let ghost ts = tokens_view(toks@);
        let mut cmds: Vec<command::Command> = Vec::new();
        let mut i: usize = 0;
        loop
            invariant
                i <= hi <= toks.len(),
                ts == tokens_view(toks@),
                pipeline_of(ts, 0, hi as int) == prefixed(
                    command::commands_view(cmds@),
                    pipeline_of(ts, i as int, hi as int),
                ),
            decreases hi - i,
        {
            let k = Self::next_pipe(toks, i, hi);
            proof {
                lemma_next_pipe(ts, i as int, hi as int);
            }
            let ghost before = command::commands_view(cmds@);
            match Self::command(toks, i, k) {
                None => {
                    return None;
                },
                Some(c) => {
                    let ghost cv = c@;
                    cmds.push(c);
                    assert(command::commands_view(cmds@) == before.push(cv));
                    if k >= hi {
                        assert(before + seq![cv] == before.push(cv));
                        return Some(cmds);
                    }
                    proof {
                        lemma_prefixed_cons(before, cv, pipeline_of(ts, k + 1, hi as int));
                    }
                    i = k + 1;
                },
            }
        }
    }

    /// The command group that the tokens form, if any.
    pub fn parse(toks: &Vec<Token>) -> (r: Option<command::CommandGroup>)
        ensures
            match script_of(tokens_view(toks@)) {
                None => r is None,
                Some(g) => r matches Some(x) && x@ == g,
            },
    {
        let ghost ts = tokens_view(toks@);
        if toks.len() == 0 {
            let g = command::CommandGroup::new();
            assert(g@.commands =~= Seq::<CommandV>::empty());
            return Some(g);
        }
        let n = toks.len();
        let bg = matches!(toks[n - 1], Token::Amp);
        assert(ts.last() == toks@[n - 1]@);
        let hi = if bg {
            n - 1
        } else {
            n
        };
        match Self::pipeline(toks, hi) {
            Some(commands) => Some(command::CommandGroup { commands, on_background: bg }),
            None => None,
        }
    }
}

/// Parses a command line into a command group; `None` when the line does not
/// follow the grammar.
pub fn parse_string(input: &str) -> (r: Option<command::CommandGroup>)
    ensures
        match parsed_script(input@) {
            None => r is None,
            Some(g) => r matches Some(x) && x@ == g,
        },
{
    let s = chars_of(input);
    match LSHParser::tokenize(&s) {
        None => None,
        Some(toks) => LSHParser::parse(&toks),
    }
}

} // verus!
