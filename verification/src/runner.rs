//! How the shell runs a command group: what to run where, what the builtin
//! commands do, where an executable is looked for, and how the processes of
//! a pipeline are wired. Creating processes and changing file descriptors is
//! left to the program around the library, which follows these plans.
use vstd::prelude::*;
use crate::command::{
    commands_view, group_text, push_str, strings_view, Command, CommandGroup, CommandV, GroupV,
};
use crate::kernel::{vars_view, Kernel};
use crate::lsh_parser::sub_chars;
use crate::text::{
    chars_of, copy_string, decimal_text, parsed_i32, parse_i32, push_char, split_chars, split_on,
    string_of, usize_text,
};

verus! {

broadcast use vstd::string::group_string_axioms;

/// How a command group is run.
pub enum RunPlan {
    /// The group is empty: nothing runs.
    Nothing,
    /// A single command in the foreground; a builtin runs in the shell itself.
    Foreground(Command),
    /// A single command in a child process that the shell does not wait for.
    Background(Command),
    /// Several commands connected by pipes, each in its own process; the shell
    /// waits for them when `wait_for_end` holds.
    Pipeline { commands: Vec<Command>, wait_for_end: bool },
}

/// The abstract value of a run plan.
pub enum RunPlanV {
    Nothing,
    Foreground(CommandV),
    Background(CommandV),
    Pipeline(Seq<CommandV>, bool),
}

impl View for RunPlan {
    type V = RunPlanV;

    open spec fn view(&self) -> RunPlanV {
        match self {
            RunPlan::Nothing => RunPlanV::Nothing,
            RunPlan::Foreground(c) => RunPlanV::Foreground(c@),
            RunPlan::Background(c) => RunPlanV::Background(c@),
            RunPlan::Pipeline { commands, wait_for_end } => RunPlanV::Pipeline(
                commands_view(commands@),
                *wait_for_end,
            ),
        }
    }
}

/// How the group `g` is run.
pub open spec fn run_plan(g: GroupV) -> RunPlanV {
    if g.commands.len() == 0 {
        RunPlanV::Nothing
    } else if g.commands.len() == 1 {
        if g.on_background {
            RunPlanV::Background(g.commands[0])
        } else {
            RunPlanV::Foreground(g.commands[0])
        }
    } else {
        RunPlanV::Pipeline(g.commands, !g.on_background)
    }
}

/// Decides how a command group runs: nothing for an empty group, a single
/// command in the foreground or in the background, or a pipeline that is
/// waited for unless it runs in the background.
pub fn run(kernel: &Kernel, commands: CommandGroup) -> (r: RunPlan)
    ensures
        r@ == run_plan(commands@),
{
    let on_background = commands.on_background;
    let mut cmds = commands.commands;
    let ghost cs = commands_view(cmds@);
    if cmds.len() == 0 {
        RunPlan::Nothing
    } else if cmds.len() == 1 {
        let command = cmds.pop().unwrap();
        assert(command@ == cs[0]);
        if on_background {
            RunPlan::Background(command)
        } else {
            RunPlan::Foreground(command)
        }
    } else {
        RunPlan::Pipeline { commands: cmds, wait_for_end: !on_background }
    }
}

/// What a builtin command does.
pub enum BuiltinAction {
    /// Change the working directory.
    ChangeDir(String),
    /// Print the working directory.
    PrintWorkingDir,
    /// End the shell with this exit code.
    Exit(i32),
    /// Print this line.
    Echo(String),
    /// Send SIGKILL to this process.
    Kill(i32),
    /// Print these lines, one per history entry.
    ShowHistory(Vec<String>),
    /// Replace the shell by the program `name` run with `args`: searched in
    /// `$PATH` when `search_path` holds, else `name` is its path.
    Exec { name: String, args: Vec<String>, search_path: bool },
    /// Nothing to do (`exec` without a program).
    NoEffect,
    /// Run the commands written in this file, line by line, in the shell itself.
    Source(String),
    /// `.` without a file.
    MissingOperand,
    /// Set these environment variables, each to its value.
    Export(Vec<(String, String)>),
    /// Print the environment (`export` without arguments).
    ShowEnvironment,
    /// `export` with an assignment whose name is empty, or whose name or
    /// value holds a NUL character.
    BadVariable,
    /// `cd` without argument while `$HOME` is not set.
    MissingHome,
    /// `exit` or `kill` with an argument that is not an `i32`.
    BadNumber,
    /// A builtin name that has no action here (`!!` and `!` are resolved
    /// from the history before a group runs).
    Unsupported(String),
}

/// The abstract value of a builtin action.
pub enum BuiltinActionV {
    ChangeDir(Seq<char>),
    PrintWorkingDir,
    Exit(i32),
    Echo(Seq<char>),
    Kill(i32),
    ShowHistory(Seq<Seq<char>>),
    Exec(Seq<char>, Seq<Seq<char>>, bool),
    NoEffect,
    Source(Seq<char>),
    MissingOperand,
    Export(Seq<(Seq<char>, Seq<char>)>),
    ShowEnvironment,
    BadVariable,
    MissingHome,
    BadNumber,
    Unsupported(Seq<char>),
}

impl View for BuiltinAction {
    type V = BuiltinActionV;

    open spec fn view(&self) -> BuiltinActionV {
        match self {
            BuiltinAction::ChangeDir(d) => BuiltinActionV::ChangeDir(d@),
            BuiltinAction::PrintWorkingDir => BuiltinActionV::PrintWorkingDir,
            BuiltinAction::Exit(c) => BuiltinActionV::Exit(*c),
            BuiltinAction::Echo(l) => BuiltinActionV::Echo(l@),
            BuiltinAction::Kill(p) => BuiltinActionV::Kill(*p),
            BuiltinAction::ShowHistory(ls) => BuiltinActionV::ShowHistory(strings_view(ls@)),
            BuiltinAction::Exec { name, args, search_path } => BuiltinActionV::Exec(
                name@,
                strings_view(args@),
                *search_path,
            ),
            BuiltinAction::NoEffect => BuiltinActionV::NoEffect,
            BuiltinAction::Source(f) => BuiltinActionV::Source(f@),
            BuiltinAction::MissingOperand => BuiltinActionV::MissingOperand,
            BuiltinAction::Export(ps) => BuiltinActionV::Export(vars_view(ps@)),
            BuiltinAction::ShowEnvironment => BuiltinActionV::ShowEnvironment,
            BuiltinAction::BadVariable => BuiltinActionV::BadVariable,
            BuiltinAction::MissingHome => BuiltinActionV::MissingHome,
            BuiltinAction::BadNumber => BuiltinActionV::BadNumber,
            BuiltinAction::Unsupported(n) => BuiltinActionV::Unsupported(n@),
        }
    }
}

/// What `echo` prints: each argument followed by a space.
pub open spec fn echo_text(args: Seq<Seq<char>>) -> Seq<char>
    decreases args.len(),
{
    if args.len() == 0 {
        Seq::empty()
    } else {
        echo_text(args.drop_last()) + args.last().push(' ')
    }
}

/// The line that `history` prints for entry `i`: `i : text`.
pub open spec fn history_line(i: nat, g: GroupV) -> Seq<char> {
    decimal_text(i) + seq![' ', ':', ' '] + group_text(g)
}

/// The lines that `history` prints: the oldest entry first, each with its position.
pub open spec fn history_lines(h: Seq<GroupV>) -> Seq<Seq<char>> {
    Seq::new(h.len(), |k: int| history_line((h.len() - 1 - k) as nat, h[h.len() - 1 - k]))
}

/// A number argument of `exit` or `kill`: 0 without argument.
pub open spec fn number_arg(args: Seq<Seq<char>>) -> Option<i32> {
    if args.len() == 0 {
        Some(0)
    } else {
        parsed_i32(args[0])
    }
}

/// The position of the first `=` in `a` at or after `i`.
pub open spec fn first_eq(a: Seq<char>, i: int) -> Option<int>
    decreases a.len() - i,
{
    if i >= a.len() {
        None
    } else if a[i] == '=' {
        Some(i)
    } else {
        first_eq(a, i + 1)
    }
}

/// The name and the value of the assignment `NAME=VALUE` in the `export`
/// argument `a`, split at its first `=`; `None` when `a` has no `=`.
pub open spec fn assignment(a: Seq<char>) -> Option<(Seq<char>, Seq<char>)> {
    match first_eq(a, 0) {
        None => None,
        Some(p) => Some((a.take(p), a.skip(p + 1))),
    }
}

/// Whether the environment can take the `export` argument `a`: an assignment
/// needs a name that is not empty and no NUL character in its name or value;
/// an argument without `=` names a variable that stays as it is.
pub open spec fn valid_assignment(a: Seq<char>) -> bool {
    match assignment(a) {
        None => true,
        Some((n, v)) => n.len() > 0 && !n.contains('\0') && !v.contains('\0'),
    }
}

/// The assignments among the `export` arguments `args`, in order.
pub open spec fn assignments(args: Seq<Seq<char>>) -> Seq<(Seq<char>, Seq<char>)>
    decreases args.len(),
{
    if args.len() == 0 {
        Seq::empty()
    } else {
        assignments(args.drop_last()) + match assignment(args.last()) {
            None => Seq::empty(),
            Some(p) => seq![p],
        }
    }
}

/// What the builtin `name` does with the arguments `args`, the history `h` and
/// the value of `$HOME`.
pub open spec fn builtin_plan(
    name: Seq<char>,
    args: Seq<Seq<char>>,
    h: Seq<GroupV>,
    home: Option<Seq<char>>,
) -> BuiltinActionV {
    if name == seq!['c', 'd'] {
        if args.len() > 0 {
            BuiltinActionV::ChangeDir(args[0])
        } else {
            match home {
                Some(d) => BuiltinActionV::ChangeDir(d),
                None => BuiltinActionV::MissingHome,
            }
        }
    } else if name == seq!['p', 'w', 'd'] {
        BuiltinActionV::PrintWorkingDir
    } else if name == seq!['e', 'x', 'i', 't'] {
        match number_arg(args) {
            Some(c) => BuiltinActionV::Exit(c),
            None => BuiltinActionV::BadNumber,
        }
    } else if name == seq!['e', 'x', 'e', 'c'] {
        if args.len() > 0 {
            BuiltinActionV::Exec(args[0], args.drop_first(), !args[0].contains('/'))
        } else {
            BuiltinActionV::NoEffect
        }
    } else if name == seq!['.'] {
        if args.len() > 0 {
            BuiltinActionV::Source(args[0])
        } else {
            BuiltinActionV::MissingOperand
        }
    } else if name == seq!['e', 'x', 'p', 'o', 'r', 't'] {
        if args.len() == 0 {
            BuiltinActionV::ShowEnvironment
        } else if forall|k: int| 0 <= k < args.len() ==> valid_assignment(#[trigger] args[k]) {
            BuiltinActionV::Export(assignments(args))
        } else {
            BuiltinActionV::BadVariable
        }
    } else if name == seq!['e', 'c', 'h', 'o'] {
        BuiltinActionV::Echo(echo_text(args))
    } else if name == seq!['k', 'i', 'l', 'l'] {
        match number_arg(args) {
            Some(p) => BuiltinActionV::Kill(p),
            None => BuiltinActionV::BadNumber,
        }
    } else if name == seq!['h', 'i', 's', 't', 'o', 'r', 'y'] {
        BuiltinActionV::ShowHistory(history_lines(h))
    } else {
        BuiltinActionV::Unsupported(name)
    }
}

fn number_argument(args: &Vec<String>) -> (r: Option<i32>)
    ensures
        r == number_arg(strings_view(args@)),
{
    if args.len() == 0 {
        Some(0)
    } else {
        parse_i32(args[0].as_str())
    }
}

fn has_char(a: &Vec<char>, c: char) -> (r: bool)
    ensures
        r == a@.contains(c),
{
    let mut k: usize = 0;
    while k < a.len()
        invariant
            k <= a.len(),
            forall|j: int| 0 <= j < k ==> a@[j] != c,
        decreases a.len() - k,
    {
        if a[k] == c {
            assert(a@[k as int] == c);
            return true;
        }
        k += 1;
    }
    false
}

/// The name and the value of the assignment in the `export` argument `a`.
fn assignment_of(a: &Vec<char>) -> (r: Option<(Vec<char>, Vec<char>)>)
    ensures
        match assignment(a@) {
            None => r is None,
            Some((n, v)) => r matches Some((x, y)) && x@ == n && y@ == v,
        },
{
    let mut k: usize = 0;
    while k < a.len()
        invariant
            k <= a.len(),
            first_eq(a@, 0) == first_eq(a@, k as int),
        decreases a.len() - k,
    {
        if a[k] == '=' {
            let n = sub_chars(a, 0, k);
            let v = sub_chars(a, k + 1, a.len());
            assert(n@ == a@.take(k as int));
            assert(v@ == a@.skip(k + 1));
            return Some((n, v));
        }
        k += 1;
    }
    None
}

/// What `export` does with its arguments `args` (at least one).
fn export_action(args: &Vec<String>) -> (r: BuiltinAction)
    requires
        args.len() > 0,
    ensures
        r@ == if forall|k: int|
            0 <= k < args.len() ==> valid_assignment(#[trigger] strings_view(args@)[k]) {
            BuiltinActionV::Export(assignments(strings_view(args@)))
        } else {
            BuiltinActionV::BadVariable
        },
{
    let ghost sv = strings_view(args@);
    let mut pairs: Vec<(String, String)> = Vec::new();
    let mut k: usize = 0;
    while k < args.len()
        invariant
            k <= args.len(),
            sv == strings_view(args@),
            vars_view(pairs@) == assignments(sv.take(k as int)),
            forall|j: int| 0 <= j < k ==> valid_assignment(#[trigger] sv[j]),
        decreases args.len() - k,
    {
        let a = chars_of(args[k].as_str());
        let ghost t = sv.take(k + 1 as int);
        assert(t.drop_last() == sv.take(k as int));
        assert(t.last() == a@);
        match assignment_of(&a) {
            None => {
                assert(assignments(t) =~= assignments(sv.take(k as int)));
            },
            Some((n, v)) => {
                if n.len() == 0 || has_char(&n, '\0') || has_char(&v, '\0') {
                    assert(!valid_assignment(sv[k as int]));
                    return BuiltinAction::BadVariable;
                }
                let ghost before = vars_view(pairs@);
                let name = string_of(&n);
                let value = string_of(&v);
                let ghost pv = (name@, value@);
                pairs.push((name, value));
                assert(vars_view(pairs@) =~= before.push(pv));
                assert(assignments(t) =~= assignments(sv.take(k as int)).push(pv));
            },
        }
        k += 1;
    }
    assert(sv.take(args.len() as int) == sv);
    BuiltinAction::Export(pairs)
}

fn name_is(name: &Vec<char>, lit: &[char]) -> (r: bool)
    ensures
        r == (name@ == lit@),
{
    crate::text::chars_match(name, lit)
}

/// What the builtin command `cmd_name` does, given its arguments, the shell's
/// history and the value of `$HOME` (`None` when it is not set).
pub fn builtin_action(
    kernel: &Kernel,
    cmd_name: &String,
    args: &Vec<String>,
    home: Option<String>,
) -> (r: BuiltinAction)
    ensures
        r@ == builtin_plan(cmd_name@, strings_view(args@), kernel.history@, match home {
            Some(d) => Some(d@),
            None => None,
        }),
{
    let name = chars_of(cmd_name.as_str());
    if name_is(&name, &['c', 'd']) {
        if args.len() > 0 {
            BuiltinAction::ChangeDir(copy_string(&args[0]))
        } else {
            match home {
                Some(d) => BuiltinAction::ChangeDir(d),
                None => BuiltinAction::MissingHome,
            }
        }
    } else if name_is(&name, &['p', 'w', 'd']) {
        BuiltinAction::PrintWorkingDir
    } else if name_is(&name, &['e', 'x', 'i', 't']) {
        match number_argument(args) {
            Some(c) => BuiltinAction::Exit(c),
            None => BuiltinAction::BadNumber,
        }
    } else if name_is(&name, &['e', 'x', 'e', 'c']) {
        if args.len() > 0 {
            let program = chars_of(args[0].as_str());
            let search_path = !has_char(&program, '/');
            let mut rest: Vec<String> = Vec::new();
            let mut k: usize = 1;
            while k < args.len()
                invariant
                    1 <= k <= args.len(),
                    strings_view(rest@) == strings_view(args@).subrange(1, k as int),
                decreases args.len() - k,
            {
                let ghost before = strings_view(rest@);
                let a = copy_string(&args[k]);
                let ghost av = a@;
                rest.push(a);
                assert(strings_view(rest@) =~= before.push(av));
                assert(strings_view(args@).subrange(1, k + 1 as int) =~= strings_view(
                    args@,
                ).subrange(1, k as int).push(av));
                k += 1;
            }
            assert(strings_view(args@).subrange(1, args.len() as int) =~= strings_view(
                args@,
            ).drop_first());
            BuiltinAction::Exec { name: copy_string(&args[0]), args: rest, search_path }
        } else {
            BuiltinAction::NoEffect
        }
    } else if name.len() == 1 && name[0] == '.' {
        assert(name@ =~= seq!['.']);
        if args.len() > 0 {
            BuiltinAction::Source(copy_string(&args[0]))
        } else {
            BuiltinAction::MissingOperand
        }
    } else if name_is(&name, &['e', 'x', 'p', 'o', 'r', 't']) {
        if args.len() > 0 {
            export_action(args)
        } else {
            BuiltinAction::ShowEnvironment
        }
    } else if name_is(&name, &['e', 'c', 'h', 'o']) {
        let mut buf = String::new();
        let mut i: usize = 0;
        while i < args.len()
            invariant
                i <= args.len(),
                buf@ == echo_text(strings_view(args@).take(i as int)),
            decreases args.len() - i,
        {
            let ghost t = strings_view(args@).take(i + 1 as int);
            assert(t.drop_last() == strings_view(args@).take(i as int));
            push_str(&mut buf, args[i].as_str());
            push_char(&mut buf, ' ');
            i += 1;
        }
        assert(strings_view(args@).take(args.len() as int) == strings_view(args@));
        BuiltinAction::Echo(buf)
    } else if name_is(&name, &['k', 'i', 'l', 'l']) {
        match number_argument(args) {
            Some(p) => BuiltinAction::Kill(p),
            None => BuiltinAction::BadNumber,
        }
    } else if name_is(&name, &['h', 'i', 's', 't', 'o', 'r', 'y']) {
        let entries = kernel.history.all_history();
        let mut lines: Vec<String> = Vec::new();
        let ghost h = kernel.history@;
        let mut k: usize = 0;
        while k < entries.len()
            invariant
                k <= entries@.len(),
                entries@.len() == h.len(),
                forall|j: int|
                    0 <= j < entries@.len() ==> (#[trigger] entries@[j]).0 == h.len() - 1 - j
                        && entries@[j].1@ == h[h.len() - 1 - j],
                lines@.len() == k,
                forall|j: int| 0 <= j < k ==> #[trigger] lines@[j]@ == history_lines(h)[j],
            decreases entries.len() - k,
        {
            let (i, g) = entries[k];
            let mut line = string_of(&usize_text(i));
            push_str(&mut line, " : ");
            proof {
                reveal_strlit(" : ");
            }
            let t = g.to_string();
            push_str(&mut line, t.as_str());
            lines.push(line);
            k += 1;
        }
        assert(strings_view(lines@) =~= history_lines(h));
        BuiltinAction::ShowHistory(lines)
    } else {
        BuiltinAction::Unsupported(copy_string(cmd_name))
    }
}

/// The lines that `.` runs from a script file: the pieces of its text
/// between newlines, in order.
pub fn script_lines(contents: &str) -> (r: Vec<String>)
    ensures
        strings_view(r@) == split_on(contents@, seq!['\n']),
{
    let seps: [char; 1] = ['\n'];
    let pieces = split_chars(&chars_of(contents), &seps);
    assert(seps@ =~= seq!['\n']);
    let ghost ps = split_on(contents@, seq!['\n']);
    let mut r: Vec<String> = Vec::new();
    let mut k: usize = 0;
    while k < pieces.len()
        invariant
            k <= pieces@.len(),
            pieces@.len() == ps.len(),
            forall|j: int| 0 <= j < pieces@.len() ==> #[trigger] pieces@[j]@ == ps[j],
            strings_view(r@) == ps.take(k as int),
        decreases pieces.len() - k,
    {
        let ghost before = strings_view(r@);
        let line = string_of(&pieces[k]);
        let ghost lv = line@;
        r.push(line);
        assert(strings_view(r@) =~= before.push(lv));
        assert(ps.take(k + 1 as int) =~= ps.take(k as int).push(lv));
        k += 1;
    }
    assert(ps.take(pieces.len() as int) == ps);
    r
}

/// The full paths where a command named `cmd_name` is looked for: each
/// directory of `path_var` (separated by `:`) followed by `/` and the name.
pub open spec fn candidate_paths(path_var: Seq<char>, cmd_name: Seq<char>) -> Seq<Seq<char>> {
    split_on(path_var, seq![':']).map_values(|dir: Seq<char>| dir.push('/') + cmd_name)
}

/// The paths to try, in order, for a command searched in `$PATH`.
pub fn command_candidates(path_var: &str, cmd_name: &str) -> (r: Vec<String>)
    ensures
        strings_view(r@) == candidate_paths(path_var@, cmd_name@),
{
    let seps: [char; 1] = [':'];
    let dirs = split_chars(&chars_of(path_var), &seps);
    assert(seps@ =~= seq![':']);
    let mut r: Vec<String> = Vec::new();
    let mut k: usize = 0;
    while k < dirs.len()
        invariant
            k <= dirs@.len(),
            dirs@.len() == split_on(path_var@, seq![':']).len(),
            forall|j: int| 0 <= j < dirs@.len() ==> #[trigger] dirs@[j]@ == split_on(path_var@, seq![':'])[j],
            strings_view(r@) == candidate_paths(path_var@, cmd_name@).take(k as int),
        decreases dirs.len() - k,
    {
        let mut p = string_of(&dirs[k]);
        push_char(&mut p, '/');
        push_str(&mut p, cmd_name);
        let ghost before = strings_view(r@);
        let ghost pv = p@;
        r.push(p);
        assert(strings_view(r@) =~= before.push(pv));
        assert(candidate_paths(path_var@, cmd_name@).take(k + 1 as int) =~= candidate_paths(
            path_var@,
            cmd_name@,
        ).take(k as int).push(pv));
        k += 1;
    }
    assert(candidate_paths(path_var@, cmd_name@).take(dirs.len() as int) == candidate_paths(
        path_var@,
        cmd_name@,
    ));
    r
}

/// Which candidate path a command runs from: the first whose file exists,
/// given whether each candidate exists (in the order of the candidates).
pub fn first_existing(exists: &Vec<bool>) -> (r: Option<usize>)
    ensures
        match r {
            Some(k) => k < exists@.len() && exists@[k as int] && forall|j: int|
                0 <= j < k ==> !exists@[j],
            None => forall|j: int| 0 <= j < exists@.len() ==> !exists@[j],
        },
{
    let mut k: usize = 0;
    while k < exists.len()
        invariant
            k <= exists@.len(),
            forall|j: int| 0 <= j < k ==> !exists@[j],
        decreases exists.len() - k,
    {
        if exists[k] {
            return Some(k);
        }
        k += 1;
    }
    None
}

/// The path of an executable named by a path: an absolute name as it is, a
/// relative one appended to the working directory `cwd` (with a `/` between
/// them unless `cwd` is empty or already ends with one).
pub open spec fn exe_path(cwd: Seq<char>, name: Seq<char>) -> Seq<char> {
    if name.len() > 0 && name[0] == '/' {
        name
    } else if cwd.len() > 0 && cwd.last() != '/' {
        cwd.push('/') + name
    } else {
        cwd + name
    }
}

/// The path to run for a command whose name is a path.
pub fn spec_exe_path(cwd: &str, cmd_name: &str) -> (r: String)
    ensures
        r@ == exe_path(cwd@, cmd_name@),
{
    let name = chars_of(cmd_name);
    if name.len() > 0 && name[0] == '/' {
        return string_of(&name);
    }
    let c = chars_of(cwd);
    let mut p = string_of(&c);
    if c.len() > 0 && c[c.len() - 1] != '/' {
        push_char(&mut p, '/');
    }
    push_str(&mut p, cmd_name);
    p
}

/// The argument vector of an executed program: its path, then the arguments.
pub fn exec_argv(exe: &String, args: &Vec<String>) -> (r: Vec<String>)
    ensures
        strings_view(r@) == seq![exe@] + strings_view(args@),
{
    let mut r: Vec<String> = Vec::new();
    r.push(copy_string(exe));
    let mut k: usize = 0;
    while k < args.len()
        invariant
            k <= args.len(),
            strings_view(r@) == seq![exe@] + strings_view(args@).take(k as int),
        decreases args.len() - k,
    {
        let ghost before = strings_view(r@);
        let a = copy_string(&args[k]);
        let ghost av = a@;
        r.push(a);
        assert(strings_view(r@) =~= before.push(av));
        assert(strings_view(args@).take(k + 1 as int) =~= strings_view(args@).take(k as int).push(
            av,
        ));
        assert(seq![exe@] + strings_view(args@).take(k + 1 as int) =~= (seq![exe@] + strings_view(
            args@,
        ).take(k as int)).push(av));
        k += 1;
    }
    assert(strings_view(args@).take(args.len() as int) == strings_view(args@));
    r
}

/// A change to the file descriptors of a process.
#[derive(PartialEq, Eq, Structural, Clone, Copy, Debug)]
pub enum FdAction {
    /// Close the descriptor.
    Close(i32),
    /// Make the second descriptor a copy of the first (`dup2(from, to)`).
    Dup2(i32, i32),
}

/// What the child and the parent do with their descriptors when one command
/// of a pipeline starts.
pub struct StagePlan {
    /// Done by the child before it runs the command.
    pub child: Vec<FdAction>,
    /// Done by the shell after it started the child.
    pub parent: Vec<FdAction>,
    /// The read end that the next command takes as its input.
    pub next_input: i32,
}

/// Plans one stage of a pipeline. `pre_out` is the read end of the previous
/// pipe (0, standard input, for the first command); `pipe_fds` is the new
/// pipe `(read, write)` for every command but the last, `None` for the last.
/// The child reads from `pre_out` and writes to the new pipe; the shell closes
/// the write end and the previous read end, and keeps the new read end.
pub fn pipeline_stage(pre_out: i32, pipe_fds: Option<(i32, i32)>) -> (r: StagePlan)
    ensures
        match pipe_fds {
            None => r.child@ == seq![FdAction::Dup2(pre_out, 0)] && r.parent@ == seq![
                FdAction::Close(pre_out),
            ] && r.next_input == pre_out,
            Some((rd, wr)) => r.child@ == seq![
                FdAction::Close(rd),
                FdAction::Dup2(pre_out, 0),
                FdAction::Dup2(wr, 1),
            ] && r.parent@ == (if pre_out != 0 {
                seq![FdAction::Close(wr), FdAction::Close(pre_out)]
            } else {
                seq![FdAction::Close(wr)]
            }) && r.next_input == rd,
        },
{
    let mut child: Vec<FdAction> = Vec::new();
    let mut parent: Vec<FdAction> = Vec::new();
    match pipe_fds {
        None => {
            child.push(FdAction::Dup2(pre_out, 0));
            parent.push(FdAction::Close(pre_out));
            assert(child@ =~= seq![FdAction::Dup2(pre_out, 0)]);
            assert(parent@ =~= seq![FdAction::Close(pre_out)]);
            StagePlan { child, parent, next_input: pre_out }
        },
        Some((rd, wr)) => {
            child.push(FdAction::Close(rd));
            child.push(FdAction::Dup2(pre_out, 0));
            child.push(FdAction::Dup2(wr, 1));
            parent.push(FdAction::Close(wr));
            if pre_out != 0 {
                parent.push(FdAction::Close(pre_out));
            }
            assert(child@ =~= seq![
                FdAction::Close(rd),
                FdAction::Dup2(pre_out, 0),
                FdAction::Dup2(wr, 1),
            ]);
            proof {
                if pre_out != 0 {
                    assert(parent@ =~= seq![FdAction::Close(wr), FdAction::Close(pre_out)]);
                } else {
                    assert(parent@ =~= seq![FdAction::Close(wr)]);
                }
            }
            StagePlan { child, parent, next_input: rd }
        },
    }
}

} // verus!
