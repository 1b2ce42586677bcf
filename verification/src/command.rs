//! Commands as the shell runs them: a command name of one of three kinds,
//! its arguments and optional input/output redirections; and command groups,
//! a pipeline of commands that may run in the background.
use vstd::prelude::*;
use crate::text::{chars_of, copy_string, copy_strings, parsed_usize, parse_usize, push_char};

verus! {

broadcast use vstd::string::group_string_axioms;

/// The three kinds of command names.
#[derive(PartialEq, Eq, Structural, Clone, Copy, Debug)]
pub enum CmdKind {
    /// Handled by the shell itself (`cd`, `echo`, `history`, `!!`, ...).
    Builtin,
    /// Looked up in the directories of `$PATH`.
    Outer,
    /// A path to an executable file.
    SpecExe,
}

/// A command name together with its kind.
#[derive(Debug, Clone)]
pub enum CmdType {
    Builtin(String),
    Outer(String),
    SpecExe(String),
}

/// One command of a pipeline.
#[derive(Debug, Clone)]
pub struct Command {
    pub cmd_type: CmdType,
    pub args: Vec<String>,
    /// File that replaces standard input.
    pub redirect_in: Option<String>,
    /// File that replaces standard output.
    pub redirect_out: Option<String>,
}

/// A pipeline of commands, possibly run in the background.
#[derive(Debug, Clone)]
pub struct CommandGroup {
    pub commands: Vec<Command>,
    pub on_background: bool,
}

/// The abstract value of a command.
pub struct CommandV {
    pub kind: CmdKind,
    pub name: Seq<char>,
    pub args: Seq<Seq<char>>,
    pub redirect_in: Option<Seq<char>>,
    pub redirect_out: Option<Seq<char>>,
}

/// The abstract value of a command group.
pub struct GroupV {
    pub commands: Seq<CommandV>,
    pub on_background: bool,
}

/// The characters of an optional string.
pub open spec fn opt_chars(o: Option<String>) -> Option<Seq<char>> {
    match o {
        Some(s) => Some(s@),
        None => None,
    }
}

/// The characters of each string of `v`.
pub open spec fn strings_view(v: Seq<String>) -> Seq<Seq<char>> {
    v.map_values(|s: String| s@)
}

impl CmdType {
    pub open spec fn kind(&self) -> CmdKind {
        match self {
            CmdType::Builtin(_) => CmdKind::Builtin,
            CmdType::Outer(_) => CmdKind::Outer,
            CmdType::SpecExe(_) => CmdKind::SpecExe,
        }
    }

    pub open spec fn name(&self) -> Seq<char> {
        match self {
            CmdType::Builtin(s) => s@,
            CmdType::Outer(s) => s@,
            CmdType::SpecExe(s) => s@,
        }
    }

    /// The name of the command.
    pub fn name_str(&self) -> (r: &String)
        ensures
            r@ == self.name(),
    {
        match self {
            CmdType::Builtin(s) => s,
            CmdType::Outer(s) => s,
            CmdType::SpecExe(s) => s,
        }
    }

    /// A command type of the same kind and name.
    pub fn duplicate(&self) -> (r: CmdType)
        ensures
            r.kind() == self.kind(),
            r.name() == self.name(),
    {
        match self {
            CmdType::Builtin(s) => CmdType::Builtin(copy_string(s)),
            CmdType::Outer(s) => CmdType::Outer(copy_string(s)),
            CmdType::SpecExe(s) => CmdType::SpecExe(copy_string(s)),
        }
    }
}

impl View for Command {
    type V = CommandV;

    open spec fn view(&self) -> CommandV {
        CommandV {
            kind: self.cmd_type.kind(),
            name: self.cmd_type.name(),
            args: strings_view(self.args@),
            redirect_in: opt_chars(self.redirect_in),
            redirect_out: opt_chars(self.redirect_out),
        }
    }
}

/// The abstract values of a sequence of commands.
pub open spec fn commands_view(v: Seq<Command>) -> Seq<CommandV> {
    v.map_values(|c: Command| c@)
}

impl View for CommandGroup {
    type V = GroupV;

    open spec fn view(&self) -> GroupV {
        GroupV { commands: commands_view(self.commands@), on_background: self.on_background }
    }
}

/// `!!`: run the most recent command group again.
pub open spec fn bang_bang() -> Seq<char> {
    seq!['!', '!']
}

/// `! n`: run the command group `n` steps back in the history.
pub open spec fn bang() -> Seq<char> {
    seq!['!']
}

/// Whether `c` refers to an entry of the history.
pub open spec fn is_history_ref(c: CommandV) -> bool {
    c.kind == CmdKind::Builtin && (c.name == bang_bang() || c.name == bang())
}

/// Whether a history reference of `c` can be resolved to a number: `! n`
/// needs a first argument that parses as a `usize`.
pub open spec fn history_arg_ok(c: CommandV) -> bool {
    c.kind == CmdKind::Builtin && c.name == bang() ==> c.args.len() >= 1 && parsed_usize(
        c.args[0],
    ) is Some
}

/// The history entry that `c` refers to: 0 for `!!`, `n` for `! n`.
pub open spec fn history_number(c: CommandV) -> Option<usize> {
    if c.kind == CmdKind::Builtin && c.name == bang_bang() {
        Some(0)
    } else if c.kind == CmdKind::Builtin && c.name == bang() {
        parsed_usize(c.args[0])
    } else {
        None
    }
}

/// Whether `c` redirects its input or its output.
pub open spec fn has_redirect(c: CommandV) -> bool {
    c.redirect_in is Some || c.redirect_out is Some
}

/// ` "a"`: an argument as a command's text shows it.
pub open spec fn quoted_arg(a: Seq<char>) -> Seq<char> {
    seq![' ', '"'] + a + seq!['"']
}

/// The arguments as a command's text shows them, each quoted.
pub open spec fn args_text(args: Seq<Seq<char>>) -> Seq<char>
    decreases args.len(),
{
    if args.len() == 0 {
        Seq::empty()
    } else {
        args_text(args.drop_last()) + quoted_arg(args.last())
    }
}

/// ` < p` or ` > p` for a redirection to `p`, nothing without one.
pub open spec fn redirect_text(arrow: char, p: Option<Seq<char>>) -> Seq<char> {
    match p {
        Some(path) => seq![' ', arrow, ' '] + path,
        None => Seq::empty(),
    }
}

/// The text of a command: its name, its quoted arguments, then its redirections.
pub open spec fn command_text(c: CommandV) -> Seq<char> {
    c.name + args_text(c.args) + redirect_text('<', c.redirect_in) + redirect_text(
        '>',
        c.redirect_out,
    )
}

/// The text of a pipeline: the commands' texts joined by ` | `.
pub open spec fn pipeline_text(cs: Seq<CommandV>) -> Seq<char>
    decreases cs.len(),
{
    if cs.len() == 0 {
        Seq::empty()
    } else if cs.len() == 1 {
        command_text(cs[0])
    } else {
        pipeline_text(cs.drop_last()) + seq![' ', '|', ' '] + command_text(cs.last())
    }
}

/// The text of a command group: its pipeline, then ` &` when it runs in the background.
pub open spec fn group_text(g: GroupV) -> Seq<char> {
    pipeline_text(g.commands) + if g.on_background {
        seq![' ', '&']
    } else {
        Seq::empty()
    }
}

/// Whether some history reference of the pipeline has a redirection.
pub open spec fn has_redirected_ref(cs: Seq<CommandV>) -> bool {
    exists|j: int| 0 <= j < cs.len() && is_history_ref(#[trigger] cs[j]) && has_redirect(cs[j])
}

/// Whether the pipeline holds a history reference.
pub open spec fn has_ref(cs: Seq<CommandV>) -> bool {
    exists|j: int| 0 <= j < cs.len() && is_history_ref(#[trigger] cs[j])
}

/// The position of the last history reference of the pipeline.
pub open spec fn last_ref(cs: Seq<CommandV>) -> int
    decreases cs.len(),
{
    if cs.len() == 0 {
        -1
    } else if is_history_ref(cs.last()) {
        cs.len() - 1
    } else {
        last_ref(cs.drop_last())
    }
}

/// Whether each `! n` of the pipeline that the check reaches has a number:
/// the check stops at the first history reference with a redirection.
pub open spec fn group_history_args_ok(cs: Seq<CommandV>) -> bool {
    forall|i: int|
        0 <= i < cs.len() && !history_arg_ok(#[trigger] cs[i]) ==> exists|j: int|
            0 <= j < i && is_history_ref(#[trigger] cs[j]) && has_redirect(cs[j])
}

/// Which history entry a command group stands for. `None`: it holds no history
/// reference. `Some(Err)`: it does, but not alone (a history reference must be the
/// only command, without redirection, not in the background). `Some(Ok(n))`:
/// it is `!!` or `! n` alone; `n` goes through `i32` as the shell stores it.
pub open spec fn group_history(g: GroupV) -> Option<Result<usize, ()>> {
    let cs = g.commands;
    if has_redirected_ref(cs) {
        Some(Err(()))
    } else if !has_ref(cs) || (last_ref(cs) as i32) == -1 {
        None
    } else if last_ref(cs) == 0 && cs.len() == 1 && !g.on_background {
        Some(Ok(((history_number(cs[0])->0 as i32) as usize)))
    } else {
        Some(Err(()))
    }
}

/// A command group stands for a history entry only when it is a single `!!`
/// or `!` command, without redirection, in the foreground: a pipeline of
/// several commands (`!! | wc`), a redirected reference or one in the
/// background never picks an entry. `!!` picks the latest entry.
pub proof fn law_history_ref_alone(g: GroupV)
    ensures
        group_history(g) matches Some(Ok(n)) ==> {
            &&& g.commands.len() == 1
            &&& !g.on_background
            &&& g.commands[0].kind == CmdKind::Builtin
            &&& (g.commands[0].name == seq!['!', '!'] || g.commands[0].name == seq!['!'])
            &&& g.commands[0].redirect_in is None
            &&& g.commands[0].redirect_out is None
            &&& (g.commands[0].name == seq!['!', '!'] ==> n == 0)
        },
{
    let cs = g.commands;
    if group_history(g) matches Some(Ok(n)) {
        assert(cs.len() == 1);
        assert(cs.drop_last().len() == 0);
        assert(last_ref(cs.drop_last()) == -1);
        assert(is_history_ref(cs[0]));
        assert(!has_redirect(cs[0]));
        assert((0int as i32) as usize == 0) by (bit_vector);
    }
}

/// Whether `a` and `b` hold the same characters.
pub fn chars_equal(a: &Vec<char>, b: &Vec<char>) -> (r: bool)
    ensures
        r == (a@ == b@),
{
    if a.len() != b.len() {
        return false;
    }
    let mut i: usize = 0;
    while i < a.len()
        invariant
            a.len() == b.len(),
            i <= a.len(),
            forall|k: int| 0 <= k < i ==> a@[k] == b@[k],
        decreases a.len() - i,
    {
        if a[i] != b[i] {
            return false;
        }
        i += 1;
    }
    assert(a@ == b@);
    true
}

/// Whether the string `s` is `!!`.
pub fn is_bang_bang(s: &String) -> (r: bool)
    ensures
        r == (s@ == bang_bang()),
{
    let c = chars_of(s.as_str());
    if c.len() == 2 && c[0] == '!' && c[1] == '!' {
        assert(c@ =~= bang_bang());
        true
    } else {
        false
    }
}

/// Whether the string `s` is `!`.
pub fn is_bang(s: &String) -> (r: bool)
    ensures
        r == (s@ == bang()),
{
    let c = chars_of(s.as_str());
    if c.len() == 1 && c[0] == '!' {
        assert(c@ =~= bang());
        true
    } else {
        false
    }
}

/// Appends the characters of `t` to `s`.
pub(crate) fn push_str(s: &mut String, t: &str)
    ensures
        final(s)@ == old(s)@ + t@,
{
    let c = chars_of(t);
    let mut i: usize = 0;
    while i < c.len()
        invariant
            i <= c.len(),
            c@ == t@,
            s@ == old(s)@ + c@.take(i as int),
        decreases c.len() - i,
    {
        push_char(s, c[i]);
        i += 1;
        assert(c@.take(i as int) == c@.take(i - 1 as int).push(c@[i - 1]));
    }
    assert(c@.take(c.len() as int) == c@);
}

/// Appends each argument of `args`, quoted, to `s`.
pub(crate) fn push_args(s: &mut String, args: &Vec<String>)
    ensures
        final(s)@ == old(s)@ + args_text(strings_view(args@)),
{
    let mut i: usize = 0;
    while i < args.len()
        invariant
            i <= args.len(),
            s@ == old(s)@ + args_text(strings_view(args@.take(i as int))),
        decreases args.len() - i,
    {
        let ghost before = s@;
        push_char(s, ' ');
        push_char(s, '"');
        push_str(s, args[i].as_str());
        push_char(s, '"');
        let ghost t = strings_view(args@.take(i + 1 as int));
        assert(t.drop_last() == strings_view(args@.take(i as int)));
        assert(t.last() == args@[i as int]@);
        assert(s@ == before + quoted_arg(args@[i as int]@));
        i += 1;
    }
    assert(args@.take(args.len() as int) == args@);
}

/// Appends ` < p` (or ` > p`) to `s` for a redirection to `p`.
fn push_redirect(s: &mut String, arrow: char, p: &Option<String>)
    ensures
        final(s)@ == old(s)@ + redirect_text(arrow, opt_chars(*p)),
{
    match p {
        Some(path) => {
            push_char(s, ' ');
            push_char(s, arrow);
            push_char(s, ' ');
            push_str(s, path.as_str());
            assert(s@ == old(s)@ + (seq![' ', arrow, ' '] + path@));
        },
        None => {
            assert(s@ == old(s)@ + Seq::<char>::empty());
        },
    }
}

impl Command {
    /// The history entry this command refers to: `Some(0)` for `!!`, `Some(n)`
    /// for `! n`, `None` for any other command.
    pub fn to_history_number(&self) -> (r: Option<usize>)
        requires
            history_arg_ok(self@),
        ensures
            r == history_number(self@),
    {
        if let CmdType::Builtin(cmd) = &self.cmd_type {
            if is_bang_bang(cmd) {
                Some(0)
            } else if is_bang(cmd) {
                parse_usize(self.args[0].as_str())
            } else {
                None
            }
        } else {
            None
        }
    }

    /// The command as text: `name "arg1" "arg2" < in > out`.
    pub fn to_string(&self) -> (r: String)
        ensures
            r@ == command_text(self@),
    {
        let mut s = String::new();
        push_str(&mut s, self.cmd_type.name_str().as_str());
        push_args(&mut s, &self.args);
        push_redirect(&mut s, '<', &self.redirect_in);
        push_redirect(&mut s, '>', &self.redirect_out);
        s
    }

    /// A command with the same abstract value.
    pub fn duplicate(&self) -> (r: Command)
        ensures
            r@ == self@,
    {
        let args = copy_strings(&self.args);
        assert(strings_view(args@) == strings_view(self.args@));
        Command {
            cmd_type: self.cmd_type.duplicate(),
            args,
            redirect_in: match &self.redirect_in {
                Some(p) => Some(copy_string(p)),
                None => None,
            },
            redirect_out: match &self.redirect_out {
                Some(p) => Some(copy_string(p)),
                None => None,
            },
        }
    }

    /// Whether this command is `!!` or `! ...`.
    pub fn is_history_reference(&self) -> (r: bool)
        ensures
            r == is_history_ref(self@),
    {
        match &self.cmd_type {
            CmdType::Builtin(cmd) => is_bang_bang(cmd) || is_bang(cmd),
            _ => false,
        }
    }

    /// Whether a history reference of this command can be resolved to a number.
    pub fn history_arg_valid(&self) -> (r: bool)
        ensures
            r == history_arg_ok(self@),
    {
        match &self.cmd_type {
            CmdType::Builtin(cmd) => {
                if is_bang(cmd) {
                    self.args.len() >= 1 && parse_usize(self.args[0].as_str()).is_some()
                } else {
                    true
                }
            },
            _ => true,
        }
    }
}

impl CommandGroup {
    /// An empty group that runs in the foreground.
    pub fn new() -> (r: CommandGroup)
        ensures
            r@.commands.len() == 0,
            !r@.on_background,
    {
        CommandGroup { commands: Vec::new(), on_background: false }
    }

    /// The group as text: the commands joined by ` | `, then ` &` for the background.
    pub fn to_string(&self) -> (r: String)
        ensures
            r@ == group_text(self@),
    {
        let mut res = String::new();
        let mut i: usize = 0;
        while i < self.commands.len()
            invariant
                i <= self.commands.len(),
                res@ == pipeline_text(commands_view(self.commands@.take(i as int))),
            decreases self.commands.len() - i,
        {
            let ghost cs = commands_view(self.commands@.take(i + 1 as int));
            assert(cs.drop_last() == commands_view(self.commands@.take(i as int)));
            assert(cs.last() == self.commands@[i as int]@);
            if i > 0 {
                push_str(&mut res, " | ");
                proof {
                    reveal_strlit(" | ");
                }
            }
            let t = self.commands[i].to_string();
            push_str(&mut res, t.as_str());
            i += 1;
        }
        assert(self.commands@.take(self.commands.len() as int) == self.commands@);
        if self.on_background {
            push_str(&mut res, " &");
            proof {
                reveal_strlit(" &");
            }
        } else {
            assert(res@ == res@ + Seq::<char>::empty());
        }
        res
    }

    /// Whether the group has no command.
    pub fn is_empty(&self) -> (r: bool)
        ensures
            r == (self@.commands.len() == 0),
    {
        self.commands.len() == 0
    }

    /// Which history entry this group stands for; see `group_history`.
    pub fn to_history_number(&self) -> (r: Option<Result<usize, &'static str>>)
        requires
            group_history_args_ok(self@.commands),
        ensures
            match group_history(self@) {
                None => r is None,
                Some(Ok(n)) => r == Some(Ok::<usize, &'static str>(n)),
                Some(Err(_)) => r matches Some(Err(e)) && e@.len() == 0,
            },
    {
        let ghost cs = self@.commands;
        let mut lst_idx: i32 = -1;
        let mut lst_history_idx: i32 = -1;
        let mut idx: usize = 0;
        while idx < self.commands.len()
            invariant
                cs == self@.commands,
                group_history_args_ok(cs),
                idx <= cs.len(),
                forall|j: int| 0 <= j < idx ==> !(is_history_ref(#[trigger] cs[j]) && has_redirect(cs[j])),
                forall|j: int| 0 <= j < idx ==> history_arg_ok(#[trigger] cs[j]),
                !has_ref(cs.take(idx as int)) ==> lst_idx == -1,
                has_ref(cs.take(idx as int)) ==> lst_idx == (last_ref(cs.take(idx as int)) as i32)
                    && lst_history_idx == (history_number(cs[last_ref(cs.take(idx as int))])->0 as i32),
            decreases self.commands.len() - idx,
        {
            let cmd = &self.commands[idx];
            assert(cmd@ == cs[idx as int]);
            let ghost pre = cs.take(idx as int);
            let ghost next = cs.take(idx + 1 as int);
            assert(next.drop_last() == pre);
            assert(next.last() == cs[idx as int]);
            assert(history_arg_ok(cs[idx as int]));
            if let Some(history_idx) = cmd.to_history_number() {
                if cmd.redirect_in.is_some() || cmd.redirect_out.is_some() {
                    assert(has_redirected_ref(cs));
                    proof {
                        reveal_strlit("");
                    }
                    return Some(Err(""));
                }
                lst_idx = idx as i32;
                lst_history_idx = history_idx as i32;
                assert(has_ref(next));
                assert(last_ref(next) == idx);
            } else {
                assert(has_ref(next) == has_ref(pre)) by {
                    if has_ref(next) {
                        let j = choose|j: int| 0 <= j < next.len() && is_history_ref(#[trigger] next[j]);
                        assert(pre[j] == next[j]);
                    }
                    if has_ref(pre) {
                        let j = choose|j: int| 0 <= j < pre.len() && is_history_ref(#[trigger] pre[j]);
                        assert(pre[j] == next[j]);
                    }
                }
                assert(last_ref(next) == last_ref(pre));
            }
            idx += 1;
        }
        assert(cs.take(idx as int) == cs);
        assert(!has_redirected_ref(cs));
        proof {
            if has_ref(cs) {
                lemma_last_ref_bounds(cs);
            }
        }
        if lst_idx == -1 {
            None
        } else if lst_idx == 0 && self.commands.len() == 1 && !self.on_background {
            Some(Ok(lst_history_idx as usize))
        } else {
            proof {
                if last_ref(cs) == 0 && cs.len() == 1 && !self.on_background {
                    assert((0int as i32) == 0);
                }
                reveal_strlit("");
            }
            Some(Err(""))
        }
    }

    /// Whether each `! n` that `to_history_number` reaches has a number.
    pub fn history_args_valid(&self) -> (r: bool)
        ensures
            r == group_history_args_ok(self@.commands),
    {
        let ghost cs = self@.commands;
        let mut i: usize = 0;
        while i < self.commands.len()
            invariant
                cs == self@.commands,
                i <= cs.len(),
                forall|j: int| 0 <= j < i ==> !(is_history_ref(#[trigger] cs[j]) && has_redirect(cs[j])),
                forall|j: int| 0 <= j < i ==> history_arg_ok(#[trigger] cs[j]),
            decreases cs.len() - i,
        {
            let cmd = &self.commands[i];
            assert(cmd@ == cs[i as int]);
            if !cmd.history_arg_valid() {
                return false;
            }
            if cmd.is_history_reference() && (cmd.redirect_in.is_some() || cmd.redirect_out.is_some()) {
                assert forall|k: int| 0 <= k < cs.len() && !history_arg_ok(#[trigger] cs[k]) implies exists|j: int|
                    0 <= j < k && is_history_ref(#[trigger] cs[j]) && has_redirect(cs[j]) by {
                    assert(is_history_ref(cs[i as int]) && has_redirect(cs[i as int]));
                }
                return true;
            }
            i += 1;
        }
        true
    }

    /// A group with the same abstract value.
    pub fn duplicate(&self) -> (r: CommandGroup)
        ensures
            r@ == self@,
    {
        let mut commands: Vec<Command> = Vec::new();
        let mut i: usize = 0;
        while i < self.commands.len()
            invariant
                i <= self.commands.len(),
                commands@.len() == i,
                forall|k: int| 0 <= k < i ==> #[trigger] commands@[k]@ == self.commands@[k]@,
            decreases self.commands.len() - i,
        {
            commands.push(self.commands[i].duplicate());
            i += 1;
        }
        assert(commands_view(commands@) == commands_view(self.commands@));
        CommandGroup { commands, on_background: self.on_background }
    }
}

proof fn lemma_last_ref_bounds(cs: Seq<CommandV>)
    requires
        has_ref(cs),
    ensures
        0 <= last_ref(cs) < cs.len(),
        is_history_ref(cs[last_ref(cs)]),
    decreases cs.len(),
{
    if !is_history_ref(cs.last()) {
        let j = choose|j: int| 0 <= j < cs.len() && is_history_ref(#[trigger] cs[j]);
        assert(cs.drop_last()[j] == cs[j]);
        lemma_last_ref_bounds(cs.drop_last());
    }
}

} // verus!
