use os_projects::command::{CmdType, Command, CommandGroup};
use os_projects::history::{History, HISTORY_NUMBER};
use os_projects::kernel::{Kernel, WorkError};
use os_projects::lsh_parser::{self, parse_string, LSHParser};
use os_projects::runner::{
    builtin_action, command_candidates, exec_argv, first_existing, pipeline_stage, run,
    script_lines, spec_exe_path, BuiltinAction, FdAction, RunPlan,
};
use os_projects::text::chars_of;

fn s(x: &str) -> String {
    x.to_string()
}

fn outer(name: &str, args: &[&str]) -> Command {
    Command {
        cmd_type: CmdType::Outer(s(name)),
        args: args.iter().map(|a| s(a)).collect(),
        redirect_in: None,
        redirect_out: None,
    }
}

fn builtin(name: &str, args: &[&str]) -> Command {
    Command {
        cmd_type: CmdType::Builtin(s(name)),
        args: args.iter().map(|a| s(a)).collect(),
        redirect_in: None,
        redirect_out: None,
    }
}

fn group(commands: Vec<Command>, on_background: bool) -> CommandGroup {
    CommandGroup { commands, on_background }
}

fn name_of(c: &Command) -> (&'static str, String) {
    match &c.cmd_type {
        CmdType::Builtin(n) => ("builtin", n.clone()),
        CmdType::Outer(n) => ("outer", n.clone()),
        CmdType::SpecExe(n) => ("spec", n.clone()),
    }
}

#[test]
fn command_text_quotes_args_and_shows_redirections() {
    let mut c = outer("grep", &["pest"]);
    c.redirect_in = Some(s("Cargo.lock"));
    c.redirect_out = Some(s("buffer.txt"));
    assert_eq!(c.to_string(), "grep \"pest\" < Cargo.lock > buffer.txt");
    assert_eq!(outer("ls", &[]).to_string(), "ls");
}

#[test]
fn group_text_joins_with_pipes_and_marks_background() {
    let mut sort = outer("sort", &[]);
    sort.redirect_out = Some(s("buffer.txt"));
    let g = group(vec![outer("ls", &["-a"]), outer("grep", &["a"]), sort], false);
    assert_eq!(g.to_string(), "ls \"-a\" | grep \"a\" | sort > buffer.txt");
    let g = group(vec![outer("tree", &["/"])], true);
    assert_eq!(g.to_string(), "tree \"/\" &");
    assert_eq!(CommandGroup::new().to_string(), "");
    let empty_bg = group(vec![], true);
    assert_eq!(empty_bg.to_string(), " &");
}

#[test]
fn new_group_is_empty_foreground() {
    let g = CommandGroup::new();
    assert!(g.is_empty());
    assert!(!g.on_background);
    assert!(!group(vec![outer("ls", &[])], false).is_empty());
}

#[test]
fn command_history_numbers() {
    assert_eq!(builtin("!!", &[]).to_history_number(), Some(0));
    assert_eq!(builtin("!", &["6"]).to_history_number(), Some(6));
    assert_eq!(builtin("!", &["+6"]).to_history_number(), Some(6));
    assert_eq!(builtin("cd", &[]).to_history_number(), None);
    assert_eq!(outer("!!", &[]).to_history_number(), None);
}

#[test]
fn group_history_numbers() {
    assert_eq!(group(vec![builtin("!!", &[])], false).to_history_number(), Some(Ok(0)));
    assert_eq!(group(vec![builtin("!", &["3"])], false).to_history_number(), Some(Ok(3)));
    assert_eq!(group(vec![outer("ls", &[])], false).to_history_number(), None);
    assert_eq!(CommandGroup::new().to_history_number(), None);
    // not alone, in the background, or redirected
    assert_eq!(
        group(vec![outer("ls", &[]), builtin("!!", &[])], false).to_history_number(),
        Some(Err(""))
    );
    assert_eq!(group(vec![builtin("!!", &[])], true).to_history_number(), Some(Err("")));
    let mut r = builtin("!!", &[]);
    r.redirect_out = Some(s("f"));
    assert_eq!(group(vec![r], false).to_history_number(), Some(Err("")));
    // a redirected reference stops the check before a later `!` without number
    let mut r = builtin("!!", &[]);
    r.redirect_in = Some(s("f"));
    assert_eq!(group(vec![r, builtin("!", &[])], false).to_history_number(), Some(Err("")));
}

#[test]
fn group_history_number_goes_through_i32() {
    if usize::BITS == 64 {
        let g = group(vec![builtin("!", &["4294967295"])], false);
        assert_eq!(g.to_history_number(), Some(Ok(usize::MAX)));
        let g = group(vec![builtin("!", &["4294967296"])], false);
        assert_eq!(g.to_history_number(), Some(Ok(0)));
    }
}

#[test]
fn group_history_args_validity() {
    assert!(group(vec![builtin("!", &["1"])], false).history_args_valid());
    assert!(!group(vec![builtin("!", &[])], false).history_args_valid());
    assert!(!group(vec![builtin("!", &["x"])], false).history_args_valid());
    assert!(!group(vec![builtin("!", &["-1"])], false).history_args_valid());
}

#[test]
fn parse_pipeline_with_redirection() {
    let g = parse_string("ls -a | grep \"a\" | sort > buffer.txt").unwrap();
    assert!(!g.on_background);
    assert_eq!(g.commands.len(), 3);
    assert_eq!(name_of(&g.commands[0]), ("outer", s("ls")));
    assert_eq!(g.commands[0].args, vec![s("-a")]);
    assert_eq!(g.commands[1].args, vec![s("a")]);
    assert_eq!(name_of(&g.commands[2]), ("outer", s("sort")));
    assert_eq!(g.commands[2].redirect_out, Some(s("buffer.txt")));
    assert_eq!(g.commands[2].redirect_in, None);
    assert_eq!(g.to_string(), "ls \"-a\" | grep \"a\" | sort > buffer.txt");
}

#[test]
fn parse_both_redirections() {
    let g = parse_string("grep \"pest\" < Cargo.lock > buffer.txt").unwrap();
    assert_eq!(g.commands.len(), 1);
    let c = &g.commands[0];
    assert_eq!(c.redirect_in, Some(s("Cargo.lock")));
    assert_eq!(c.redirect_out, Some(s("buffer.txt")));
    let g = parse_string("cat > a > b").unwrap();
    assert_eq!(g.commands[0].redirect_out, Some(s("b")));
}

#[test]
fn parse_background_and_kinds() {
    let g = parse_string("tree / | grep \"admin\" > buffer.txt &").unwrap();
    assert!(g.on_background);
    assert_eq!(g.commands.len(), 2);
    let g = parse_string("./run.sh x").unwrap();
    assert_eq!(name_of(&g.commands[0]), ("spec", s("./run.sh")));
    let g = parse_string("cd ..").unwrap();
    assert_eq!(name_of(&g.commands[0]), ("builtin", s("cd")));
    assert_eq!(g.commands[0].args, vec![s("..")]);
    let g = parse_string("! 6").unwrap();
    assert_eq!(name_of(&g.commands[0]), ("builtin", s("!")));
    let g = parse_string("!!").unwrap();
    assert_eq!(name_of(&g.commands[0]), ("builtin", s("!!")));
    let g = parse_string("history").unwrap();
    assert_eq!(name_of(&g.commands[0]), ("builtin", s("history")));
    let g = parse_string("/bin/ls").unwrap();
    assert_eq!(name_of(&g.commands[0]), ("spec", s("/bin/ls")));
}

#[test]
fn parse_quoted_arguments() {
    let g = parse_string("echo \"a b\"\t\"c\\\"d\"").unwrap();
    assert_eq!(g.commands[0].args, vec![s("a b"), s("c\\\"d")]);
    let g = parse_string("echo \"\"").unwrap();
    assert_eq!(g.commands[0].args, vec![s("")]);
}

#[test]
fn parse_empty_line() {
    let g = parse_string("").unwrap();
    assert!(g.is_empty());
    assert!(!g.on_background);
    assert!(parse_string("   ").unwrap().is_empty());
}

#[test]
fn parse_rejects_ill_formed_lines() {
    assert!(parse_string("ls |").is_none());
    assert!(parse_string("| ls").is_none());
    assert!(parse_string("echo \"abc").is_none());
    assert!(parse_string("echo \"abc\\\"").is_none());
    assert!(parse_string("& ls").is_none());
    assert!(parse_string("&").is_none());
    assert!(parse_string("ls > ").is_none());
    assert!(parse_string("ls < \"f\"").is_none());
    assert!(parse_string("ls > f -a").is_none());
    assert!(parse_string("\"ls\"").is_none());
    assert!(parse_string("ls & | wc").is_none());
}

#[test]
fn parser_stages() {
    let toks = LSHParser::tokenize(&chars_of("ls|wc&")).unwrap();
    assert_eq!(toks.len(), 4);
    let g = LSHParser::parse(&toks).unwrap();
    assert_eq!(g.commands.len(), 2);
    assert!(g.on_background);
    assert!(LSHParser::tokenize(&chars_of("\"")).is_none());
}

#[test]
fn parser_command_texts() {
    let c = lsh_parser::Command {
        cmd_type: lsh_parser::CmdType::Outer(s("grep")),
        args: vec![s("a"), s("b c")],
        redirect_in: Some(s("in")),
        redirect_out: None,
    };
    assert_eq!(c.to_string(), "grep \"a\" \"b c\"");
    assert_eq!(c.to_history(), None);
    let c = lsh_parser::Command {
        cmd_type: lsh_parser::CmdType::Builtin(s("!")),
        args: vec![s("12")],
        redirect_in: None,
        redirect_out: None,
    };
    assert_eq!(c.to_history(), Some(12));
    let c = lsh_parser::Command {
        cmd_type: lsh_parser::CmdType::Builtin(s("!!")),
        args: vec![],
        redirect_in: None,
        redirect_out: None,
    };
    assert_eq!(c.to_history(), Some(0));
}

#[test]
fn history_keeps_most_recent_first() {
    let mut h = History::new();
    assert!(h.get_n_history(0).is_none());
    h.add_history(group(vec![outer("a", &[])], false));
    h.add_history(group(vec![outer("b", &[])], false));
    assert_eq!(h.get_n_history(0).unwrap().to_string(), "b");
    assert_eq!(h.get_n_history(1).unwrap().to_string(), "a");
    assert!(h.get_n_history(2).is_none());
    let all: Vec<(usize, String)> = h.all_history().iter().map(|(i, g)| (*i, g.to_string())).collect();
    assert_eq!(all, vec![(1, s("a")), (0, s("b"))]);
}

#[test]
fn history_drops_the_oldest_beyond_its_size() {
    let mut h = History::new();
    for k in 0..(HISTORY_NUMBER + 3) {
        h.add_history(group(vec![outer(&format!("c{}", k), &[])], false));
    }
    assert_eq!(h.all_history().len(), HISTORY_NUMBER + 1);
    assert_eq!(h.get_n_history(0).unwrap().to_string(), format!("c{}", HISTORY_NUMBER + 2));
    assert_eq!(h.get_n_history(HISTORY_NUMBER).unwrap().to_string(), "c2");
    assert!(h.get_n_history(HISTORY_NUMBER + 1).is_none());
}

#[test]
fn kernel_records_and_reruns() {
    let vars: Vec<(String, String)> = vec![];
    let mut k = Kernel::new();
    let g = k.work("ls -a", &vars).unwrap();
    assert_eq!(g.to_string(), "ls \"-a\"");
    assert_eq!(k.history.get_n_history(0).unwrap().to_string(), "ls \"-a\"");
    let g = k.work("echo \"a\" > buffer.txt", &vars).unwrap();
    assert_eq!(g.to_string(), "echo \"a\" > buffer.txt");
    let g = k.work("!!", &vars).unwrap();
    assert_eq!(g.to_string(), "echo \"a\" > buffer.txt");
    let g = k.work("! 2", &vars).unwrap();
    assert_eq!(g.to_string(), "ls \"-a\"");
    assert_eq!(k.history.all_history().len(), 4);
    let lines: Vec<String> = k.history.all_history().iter().map(|(_, g)| g.to_string()).collect();
    assert_eq!(
        lines,
        vec![s("ls \"-a\""), s("echo \"a\" > buffer.txt"), s("echo \"a\" > buffer.txt"), s("ls \"-a\"")]
    );
}

#[test]
fn kernel_errors_leave_history_unchanged() {
    let vars: Vec<(String, String)> = vec![];
    let mut k = Kernel::new();
    assert_eq!(k.work("!!", &vars).err(), Some(WorkError::NoSuchHistory));
    assert_eq!(k.work("ls |", &vars).err(), Some(WorkError::IllegalCommand));
    assert_eq!(k.work("! x", &vars).err(), Some(WorkError::BadHistoryNumber));
    assert_eq!(k.work("!", &vars).err(), Some(WorkError::BadHistoryNumber));
    assert_eq!(k.work("ls | !!", &vars).err(), Some(WorkError::HistoryNotAlone));
    assert_eq!(k.work("!! &", &vars).err(), Some(WorkError::HistoryNotAlone));
    assert!(k.history.get_n_history(0).is_none());
}

#[test]
fn kernel_expands_variables_and_trims() {
    let vars = vec![(s("HOME"), s("/home/lee")), (s("X"), s("1"))];
    let mut k = Kernel::new();
    let g = k.work("  cd ${HOME}/Main ${X}${X} $X \n", &vars).unwrap();
    assert_eq!(g.commands[0].args, vec![s("/home/lee/Main"), s("11"), s("$X")]);
    let g = k.work("\n", &vars).unwrap();
    assert!(g.is_empty());
}

#[test]
fn escaped_variable_is_still_expanded() {
    let vars = vec![(s("HOME"), s("/Users/lee"))];
    let mut k = Kernel::new();
    let g = k.work("echo \\${HOME}/Main", &vars).unwrap();
    assert_eq!(g.commands[0].args, vec![s("\\/Users/lee/Main")]);
}

#[test]
fn run_plans() {
    let k = Kernel::new();
    assert!(matches!(run(&k, CommandGroup::new()), RunPlan::Nothing));
    match run(&k, group(vec![outer("ls", &[])], false)) {
        RunPlan::Foreground(c) => assert_eq!(c.to_string(), "ls"),
        _ => panic!("expected a foreground command"),
    }
    match run(&k, group(vec![outer("ls", &[])], true)) {
        RunPlan::Background(c) => assert_eq!(c.to_string(), "ls"),
        _ => panic!("expected a background command"),
    }
    match run(&k, group(vec![outer("ls", &[]), outer("wc", &[])], true)) {
        RunPlan::Pipeline { commands, wait_for_end } => {
            assert_eq!(commands.len(), 2);
            assert!(!wait_for_end);
        }
        _ => panic!("expected a pipeline"),
    }
    match run(&k, group(vec![outer("ls", &[]), outer("wc", &[])], false)) {
        RunPlan::Pipeline { wait_for_end, .. } => assert!(wait_for_end),
        _ => panic!("expected a pipeline"),
    }
}

#[test]
fn builtin_actions() {
    let mut k = Kernel::new();
    let vars: Vec<(String, String)> = vec![];
    let none: Vec<String> = vec![];
    match builtin_action(&k, &s("cd"), &vec![s("..")], None) {
        BuiltinAction::ChangeDir(d) => assert_eq!(d, ".."),
        _ => panic!(),
    }
    match builtin_action(&k, &s("cd"), &none, Some(s("/home/lee"))) {
        BuiltinAction::ChangeDir(d) => assert_eq!(d, "/home/lee"),
        _ => panic!(),
    }
    assert!(matches!(builtin_action(&k, &s("cd"), &none, None), BuiltinAction::MissingHome));
    assert!(matches!(builtin_action(&k, &s("pwd"), &none, None), BuiltinAction::PrintWorkingDir));
    assert!(matches!(builtin_action(&k, &s("exit"), &none, None), BuiltinAction::Exit(0)));
    assert!(matches!(builtin_action(&k, &s("exit"), &vec![s("-3")], None), BuiltinAction::Exit(-3)));
    assert!(matches!(builtin_action(&k, &s("exit"), &vec![s("x")], None), BuiltinAction::BadNumber));
    assert!(matches!(builtin_action(&k, &s("kill"), &vec![s("42")], None), BuiltinAction::Kill(42)));
    assert!(matches!(builtin_action(&k, &s("kill"), &none, None), BuiltinAction::Kill(0)));
    assert!(matches!(builtin_action(&k, &s("kill"), &vec![s("")], None), BuiltinAction::BadNumber));
    match builtin_action(&k, &s("echo"), &vec![s("a"), s("b c")], None) {
        BuiltinAction::Echo(line) => assert_eq!(line, "a b c "),
        _ => panic!(),
    }
    match builtin_action(&k, &s("!!"), &none, None) {
        BuiltinAction::Unsupported(n) => assert_eq!(n, "!!"),
        _ => panic!(),
    }
    k.work("touch buffer.txt", &vars).unwrap();
    k.work("ls -a", &vars).unwrap();
    k.work("history", &vars).unwrap();
    match builtin_action(&k, &s("history"), &none, None) {
        BuiltinAction::ShowHistory(lines) => assert_eq!(
            lines,
            vec![s("2 : touch \"buffer.txt\""), s("1 : ls \"-a\""), s("0 : history")]
        ),
        _ => panic!(),
    }
}

#[test]
fn exec_source_and_export_builtins() {
    let k = Kernel::new();
    let none: Vec<String> = vec![];
    // the three parse as builtins
    for line in ["exec ls -a", ". script.sh", "export A=1"] {
        let g = parse_string(line).unwrap();
        assert!(matches!(g.commands[0].cmd_type, CmdType::Builtin(_)), "line {:?}", line);
    }
    match builtin_action(&k, &s("exec"), &vec![s("ls"), s("-a"), s("b")], None) {
        BuiltinAction::Exec { name, args, search_path } => {
            assert_eq!(name, "ls");
            assert_eq!(args, vec![s("-a"), s("b")]);
            assert!(search_path);
        }
        _ => panic!(),
    }
    match builtin_action(&k, &s("exec"), &vec![s("./a.out")], None) {
        BuiltinAction::Exec { name, args, search_path } => {
            assert_eq!(name, "./a.out");
            assert!(args.is_empty());
            assert!(!search_path);
        }
        _ => panic!(),
    }
    assert!(matches!(builtin_action(&k, &s("exec"), &none, None), BuiltinAction::NoEffect));
    match builtin_action(&k, &s("."), &vec![s("env.sh"), s("x")], None) {
        BuiltinAction::Source(f) => assert_eq!(f, "env.sh"),
        _ => panic!(),
    }
    assert!(matches!(builtin_action(&k, &s("."), &none, None), BuiltinAction::MissingOperand));
    match builtin_action(&k, &s("export"), &vec![s("A=1"), s("B"), s("C=x=y"), s("D=")], None) {
        BuiltinAction::Export(pairs) => assert_eq!(
            pairs,
            vec![(s("A"), s("1")), (s("C"), s("x=y")), (s("D"), s(""))]
        ),
        _ => panic!(),
    }
    assert!(matches!(builtin_action(&k, &s("export"), &none, None), BuiltinAction::ShowEnvironment));
    assert!(matches!(
        builtin_action(&k, &s("export"), &vec![s("A=1"), s("=2")], None),
        BuiltinAction::BadVariable
    ));
    assert!(matches!(
        builtin_action(&k, &s("export"), &vec![s("A=1\0")], None),
        BuiltinAction::BadVariable
    ));
    assert_eq!(script_lines("cd /\nls\n"), vec![s("cd /"), s("ls"), s("")]);
    assert_eq!(script_lines(""), vec![s("")]);
}

#[test]
fn first_existing_candidate() {
    assert_eq!(first_existing(&vec![false, true, true]), Some(1));
    assert_eq!(first_existing(&vec![true]), Some(0));
    assert_eq!(first_existing(&vec![false, false]), None);
    assert_eq!(first_existing(&vec![]), None);
}

#[test]
fn history_after_many_adds() {
    let mut h = History::new();
    let n = HISTORY_NUMBER + 5;
    for i in 0..n {
        h.add_history(parse_string(&format!("echo {}", i)).unwrap());
    }
    for i in 0..HISTORY_NUMBER + 1 {
        assert_eq!(h.get_n_history(i).unwrap().to_string(), format!("echo \"{}\"", n - 1 - i));
    }
    assert!(h.get_n_history(HISTORY_NUMBER + 1).is_none());
}

#[test]
fn executable_lookup() {
    assert_eq!(command_candidates("/bin:/usr/bin", "ls"), vec![s("/bin/ls"), s("/usr/bin/ls")]);
    assert_eq!(command_candidates("", "ls"), vec![s("/ls")]);
    assert_eq!(command_candidates("/a::/b", "x"), vec![s("/a/x"), s("/x"), s("/b/x")]);
    assert_eq!(spec_exe_path("/home/lee", "./run.sh"), "/home/lee/./run.sh");
    assert_eq!(spec_exe_path("/", "run.sh"), "/run.sh");
    assert_eq!(spec_exe_path("/home/lee", "/bin/ls"), "/bin/ls");
    assert_eq!(exec_argv(&s("/bin/ls"), &vec![s("-a"), s("b")]), vec![s("/bin/ls"), s("-a"), s("b")]);
}

#[test]
fn pipeline_stages() {
    let first = pipeline_stage(0, Some((5, 6)));
    assert_eq!(first.child, vec![FdAction::Close(5), FdAction::Dup2(0, 0), FdAction::Dup2(6, 1)]);
    assert_eq!(first.parent, vec![FdAction::Close(6)]);
    assert_eq!(first.next_input, 5);
    let middle = pipeline_stage(5, Some((7, 8)));
    assert_eq!(middle.parent, vec![FdAction::Close(8), FdAction::Close(5)]);
    assert_eq!(middle.next_input, 7);
    let last = pipeline_stage(7, None);
    assert_eq!(last.child, vec![FdAction::Dup2(7, 0)]);
    assert_eq!(last.parent, vec![FdAction::Close(7)]);
}

#[test]
fn group_text_parses_back() {
    for line in [
        "ls \"-a\" | grep \"a\" | sort > buffer.txt",
        "grep \"pest\" < Cargo.lock > buffer.txt",
        "tree \"/\" | grep \"admin\" > buffer.txt &",
        "echo \"a b\" \"c\\\"d\"",
        "./run.sh",
    ] {
        let g = parse_string(line).unwrap();
        assert_eq!(g.to_string(), line);
        let again = parse_string(&g.to_string()).unwrap();
        assert_eq!(again.to_string(), g.to_string());
        assert_eq!(again.on_background, g.on_background);
        assert_eq!(again.commands.len(), g.commands.len());
    }
}

#[test]
fn tilde_and_unknown_variables_stay() {
    let vars = vec![(s("HOME"), s("/home/lee"))];
    let mut k = Kernel::new();
    let g = k.work("cd ~ ${NOPE}", &vars).unwrap();
    assert_eq!(g.commands[0].args, vec![s("~"), s("${NOPE}")]);
}
