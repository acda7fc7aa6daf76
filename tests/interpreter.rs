use the_golden::config::compile_rules;
use the_golden::grammar::parse_int;
use the_golden::{CommandConfig, Directives, VersionCommandsConfig};
use the_golden::{
    classic_patterns, load_program, BracketsMatcher, Count, Event, Grammar, Handler, Lexer, LoopKind, Op, Parser,
    Rule, Runner, RuntimeError, Settings, Status, SyntaxErrorKind, Utils, Validator,
};

fn classic_rules() -> Vec<Rule> {
    let (patterns, ignored) = classic_patterns();
    compile_rules(&patterns, &ignored).expect("the classic patterns compile")
}

fn commands(src: &str) -> Vec<String> {
    load_program(src, "test.au", classic_rules(), classic_rules()).expect("the program is valid")
}

fn settings() -> Settings {
    Settings { sebek: [None, None, None], warn_left_edge: true, brainfuck: true }
}

fn strings(v: &[&str]) -> Vec<String> {
    v.iter().map(|s| s.to_string()).collect()
}

/// Runs a program to its end (or failure), feeding `inputs` line by line.
fn run_with(src: &str, settings: Settings, inputs: &[&str]) -> (Runner, Vec<Event>, Status) {
    let mut runner = Runner::new(commands(src), Grammar::classic(), settings).expect("brackets match");
    let mut events = Vec::new();
    let mut inputs = inputs.iter();
    for _ in 0..100_000 {
        let outcome = runner.step();
        events.extend(outcome.events);
        match outcome.status {
            Status::Running => {}
            Status::NeedInput => match inputs.next() {
                Some(line) => runner.supply_input(line.to_string()),
                None => return (runner, events, Status::NeedInput),
            },
            status => return (runner, events, status),
        }
    }
    panic!("the program did not stop");
}

fn run(src: &str) -> (Runner, Vec<Event>, Status) {
    run_with(src, settings(), &[])
}

fn tape(runner: &Runner, t: usize) -> Vec<f64> {
    runner.global().tape_values(t).into_iter().map(f64::from_bits).collect()
}

fn cell(runner: &Runner) -> f64 {
    let bank = runner.global();
    let t = bank.active_tape();
    f64::from_bits(bank.tape_values(t)[bank.pointer_of(t)])
}

#[test]
fn increment_then_end_sets_cell_to_one() {
    let (runner, _, status) = run("!:");
    assert!(matches!(status, Status::Finished));
    assert_eq!(cell(&runner), 1.0);
}

#[test]
fn increments_and_move_right_fill_two_cells() {
    let (runner, _, status) = run("!!!>!!:");
    assert!(matches!(status, Status::Finished));
    assert_eq!(tape(&runner, 0), vec![3.0, 2.0]);
    assert_eq!(runner.global().pointer_of(0), 1);
}

#[test]
fn while_loop_counts_down_to_zero() {
    let (runner, _, status) = run("!!![~]:");
    assert!(matches!(status, Status::Finished));
    assert_eq!(cell(&runner), 0.0);
    assert!(runner.loops().is_empty());
}

#[test]
fn division_by_zero_without_fallback_fails() {
    let (runner, _, status) = run("|5|!/!:");
    match status {
        Status::Failed(RuntimeError::DivisionByZero { dividend }) => assert_eq!(f64::from_bits(dividend), 5.0),
        other => panic!("unexpected status {:?}", other),
    }
    assert_eq!(cell(&runner), 5.0);
    assert_eq!(runner.program_pointer(), 1);
}

#[test]
fn division_by_zero_uses_positive_fallback() {
    let mut s = settings();
    s.sebek = [None, None, Some(99.0f64.to_bits())];
    let (runner, _, status) = run_with("|5|!/:", s, &[]);
    assert!(matches!(status, Status::Finished));
    assert_eq!(cell(&runner), 99.0);
    let (runner, _, status) = run_with("|5|!/!:", s, &[]);
    assert!(matches!(status, Status::Finished));
    assert_eq!(cell(&runner), 100.0);
}

#[test]
fn division_by_zero_picks_fallback_by_sign() {
    let mut s = settings();
    s.sebek = [Some(1.5f64.to_bits()), Some(2.5f64.to_bits()), None];
    let (runner, _, _) = run_with("~/:", s, &[]);
    assert_eq!(cell(&runner), 1.5);
    let (runner, _, _) = run_with("/:", s, &[]);
    assert_eq!(cell(&runner), 2.5);
}

#[test]
fn move_left_at_start_grows_tape_and_warns_once() {
    let (runner, events, _) = run("<:");
    assert_eq!(tape(&runner, 0), vec![0.0, 0.0]);
    assert_eq!(runner.global().pointer_of(0), 0);
    assert_eq!(events, vec![Event::LeftEdge]);
    let (runner, events, _) = run("<<:");
    assert_eq!(tape(&runner, 0), vec![0.0, 0.0, 0.0]);
    assert_eq!(events, vec![Event::LeftEdge]);
}

#[test]
fn move_left_warning_can_be_suppressed() {
    let mut s = settings();
    s.warn_left_edge = false;
    let (runner, events, _) = run_with("<<:", s, &[]);
    assert_eq!(tape(&runner, 0), vec![0.0, 0.0, 0.0]);
    assert!(events.is_empty());
}

#[test]
fn interleaved_categories_are_matched_separately() {
    let mut m = BracketsMatcher::new();
    m.match_brackets(&strings(&["[", "[@", "]", "@]"]));
    assert_eq!(m.pairs(LoopKind::While).get(&0), Some(&2));
    assert_eq!(m.pairs(LoopKind::While).get(&2), Some(&0));
    assert_eq!(m.pairs(LoopKind::DoWhile).get(&1), Some(&3));
    assert_eq!(m.pairs(LoopKind::DoWhile).get(&3), Some(&1));
    assert_eq!(m.jumps().len(), 4);
    let mut m = BracketsMatcher::new();
    m.match_brackets(&strings(&["'[", "[", "!", "']", "]"]));
    assert_eq!(m.pairs(LoopKind::WhileLocal).get(&0), Some(&3));
    assert_eq!(m.pairs(LoopKind::While).get(&1), Some(&4));
    assert_eq!(m.dangling(), None);
}

#[test]
fn nested_loops_pair_inner_with_inner() {
    let mut m = BracketsMatcher::new();
    m.match_brackets(&strings(&["[", "!", "[", "~", "]", "]"]));
    assert_eq!(m.jumps().get(&0), Some(&5));
    assert_eq!(m.jumps().get(&2), Some(&4));
    assert_eq!(m.jumps().get(&5), Some(&0));
    assert_eq!(m.jumps().get(&4), Some(&2));
    assert!(m.jumps().get(&1).is_none());
}

#[test]
fn dangling_opening_is_reported() {
    let mut m = BracketsMatcher::new();
    m.match_brackets(&strings(&["!", "[", "[", "]"]));
    assert_eq!(m.dangling(), Some(1));
    match Runner::new(strings(&["!", "[", "[", "]"]), Grammar::classic(), settings()) {
        Err(RuntimeError::UnbalancedDelimiter { index }) => assert_eq!(index, 1),
        _ => panic!("expected an unbalanced delimiter"),
    }
}

#[test]
fn extraction_drops_comments_and_terminators() {
    let cmds = commands("! \"a comment\" ~:\n>:");
    assert_eq!(cmds, strings(&["!", "~", ">"]));
}

#[test]
fn extraction_keeps_token_positions() {
    let mut parser = Parser::new();
    let lexer = Lexer::new("!:\n ~:".to_string(), classic_rules(), "p.au".to_string());
    assert!(parser.run(lexer).is_ok());
    assert_eq!(parser.commands, strings(&["!", "~"]));
    assert_eq!((parser.commands_info[0].line, parser.commands_info[0].column), (1, 1));
    assert_eq!((parser.commands_info[1].line, parser.commands_info[1].column), (2, 2));
}

#[test]
fn validating_twice_gives_the_same_verdict() {
    for src in ["!:", "!", "!x:"] {
        let a = Validator::run(Lexer::new(src.to_string(), classic_rules(), "v.au".to_string()));
        let b = Validator::run(Lexer::new(src.to_string(), classic_rules(), "v.au".to_string()));
        match (a, b) {
            (Ok(x), Ok(y)) => assert_eq!(x, y),
            (Err(x), Err(y)) => assert_eq!((x.line, x.column, x.kind), (y.line, y.column, y.kind)),
            _ => panic!("verdicts differ"),
        }
    }
}

#[test]
fn missing_terminator_is_a_syntax_error() {
    match Validator::run(Lexer::new("!!".to_string(), classic_rules(), "v.au".to_string())) {
        Err(e) => {
            assert_eq!(e.kind, SyntaxErrorKind::TerminatorExpected);
            assert_eq!((e.line, e.column), (1, 2));
            assert_eq!(e.source, "v.au");
        }
        Ok(_) => panic!("expected an error"),
    }
    match Validator::run(Lexer::new(String::new(), classic_rules(), "v.au".to_string())) {
        Err(e) => assert_eq!(e.kind, SyntaxErrorKind::TerminatorExpected),
        Ok(_) => panic!("expected an error"),
    }
}

#[test]
fn unknown_text_is_a_syntax_error() {
    match load_program("!:\n!x:", "v.au", classic_rules(), classic_rules()) {
        Err(e) => {
            assert_eq!(e.kind, SyntaxErrorKind::NoRuleMatches);
            assert_eq!((e.line, e.column), (2, 2));
        }
        Ok(_) => panic!("expected an error"),
    }
}

#[test]
fn unterminated_quote_at_end_ends_the_scan() {
    let mut lexer = Lexer::new("!\"".to_string(), classic_rules(), "c.au".to_string());
    assert_eq!(lexer.next().unwrap().unwrap().text, "!");
    assert!(lexer.next().unwrap().is_none());
}

#[test]
fn reads_number_then_character_from_one_line() {
    let (runner, _, status) = run_with("$.>$,:", settings(), &["12.5abc\n"]);
    assert!(matches!(status, Status::Finished));
    assert_eq!(tape(&runner, 0), vec![12.5, 97.0]);
}

#[test]
fn unparsable_number_fails_the_run() {
    let (_, _, status) = run_with("$.:", settings(), &["abc\n"]);
    match status {
        Status::Failed(RuntimeError::InputParse { raw }) => assert_eq!(raw, ""),
        other => panic!("unexpected status {:?}", other),
    }
}

#[test]
fn reads_wait_for_input() {
    let (runner, _, status) = run_with("$,:", settings(), &[]);
    assert!(matches!(status, Status::NeedInput));
    assert_eq!(runner.program_pointer(), 0);
}

#[test]
fn writes_numbers_and_characters() {
    let (_, events, status) = run("|72|!\\,\\.:");
    assert!(matches!(status, Status::Finished));
    assert_eq!(events, vec![Event::Char(72), Event::Number(72.0f64.to_bits())]);
}

#[test]
fn surrogate_is_no_character() {
    let (_, _, status) = run("|55296|!\\,:");
    match status {
        Status::Failed(RuntimeError::InvalidCharacter { value }) => assert_eq!(f64::from_bits(value), 55296.0),
        other => panic!("unexpected status {:?}", other),
    }
}

#[test]
fn floor_and_ceil_round_the_cell() {
    let (runner, _, _) = run_with("$._:", settings(), &["2.5\n"]);
    assert_eq!(cell(&runner), 2.0);
    let (runner, _, _) = run_with("$.&:", settings(), &["2.25\n"]);
    assert_eq!(cell(&runner), 3.0);
}

#[test]
fn arithmetic_uses_the_other_bank() {
    // the local bank's cell is 0 at first; `;` swaps the two banks' cells
    let (runner, _, _) = run("|3|!;|2|!+:");
    assert_eq!(cell(&runner), 5.0);
    assert_eq!(f64::from_bits(runner.local().tape_values(0)[0]), 3.0);
    let (runner, _, _) = run("|3|!;|2|!*:");
    assert_eq!(cell(&runner), 6.0);
    let (runner, _, _) = run("|3|!;|2|!-:");
    assert_eq!(cell(&runner), -1.0);
}

#[test]
fn local_prefix_addresses_the_local_bank() {
    let (runner, _, _) = run("'|4|!'+!:");
    assert_eq!(f64::from_bits(runner.local().tape_values(0)[0]), 4.0);
    assert_eq!(cell(&runner), 1.0);
}

#[test]
fn negative_count_runs_the_opposite() {
    let (runner, _, _) = run("|-3|!:");
    assert_eq!(cell(&runner), -3.0);
    let (runner, _, _) = run("|2|>|-1|>:");
    assert_eq!(runner.global().pointer_of(0), 1);
    let (runner, _, _) = run("|3|!||~:");
    assert_eq!(cell(&runner), 0.0);
}

#[test]
fn switch_tape_reads_the_seeded_cell() {
    let (runner, _, _) = run("^!:");
    assert_eq!(runner.global().active_tape(), 1);
    assert_eq!(tape(&runner, 1), vec![2.0]);
    let mut s = settings();
    s.brainfuck = false;
    let (runner, _, _) = run_with("^!:", s, &[]);
    assert_eq!(tape(&runner, 1), vec![1.0]);
}

#[test]
fn break_leaves_the_innermost_loop() {
    let (runner, _, status) = run("|3|![~?=~]:");
    assert!(matches!(status, Status::Finished));
    assert_eq!(cell(&runner), 0.0);
    assert!(runner.loops().is_empty());
}

#[test]
fn do_while_body_runs_once_on_zero() {
    let (runner, _, status) = run("[@!~@]>!:");
    assert!(matches!(status, Status::Finished));
    assert_eq!(tape(&runner, 0), vec![0.0, 1.0]);
}

#[test]
fn random_fill_is_in_unit_interval() {
    for _ in 0..20 {
        let (runner, _, _) = run("`:");
        let v = cell(&runner);
        assert!((0.0..1.0).contains(&v));
    }
}

#[test]
fn modern_grammar_toggles_locality() {
    let cmds = strings(&["!", "'", "!", "!", "'", "$."]);
    let mut runner = Runner::new(cmds, Grammar::modern(), settings()).unwrap();
    let mut events = Vec::new();
    while !runner.is_finished() {
        let o = runner.step();
        events.extend(o.events);
    }
    assert_eq!(f64::from_bits(runner.local().tape_values(0)[0]), 2.0);
    assert_eq!(events, vec![Event::Number(1.0f64.to_bits())]);
}

#[test]
fn decode_reads_prefix_count_and_operation() {
    let g = Grammar::classic();
    let i = g.decode("'|-3|!");
    assert!(i.local);
    assert_eq!(i.count, Count::Fixed(-3));
    assert_eq!(i.op, Some(Op::Increment));
    let i = g.decode("||>");
    assert_eq!(i.count, Count::FromCell);
    assert_eq!(i.op, Some(Op::MoveRight));
    let i = g.decode("|x|<");
    assert_eq!(i.count, Count::Fixed(1));
    assert_eq!(g.decode("?"), the_golden::Instr { local: false, count: Count::Fixed(1), op: None });
}

#[test]
fn parse_int_follows_rust_integers() {
    assert_eq!(parse_int("42"), Some(42));
    assert_eq!(parse_int("-17"), Some(-17));
    assert_eq!(parse_int("+5"), Some(5));
    assert_eq!(parse_int("-"), None);
    assert_eq!(parse_int(""), None);
    assert_eq!(parse_int("1a"), None);
    assert_eq!(parse_int("-170141183460469231731687303715884105728"), Some(i128::MIN));
    assert_eq!(parse_int("170141183460469231731687303715884105728"), None);
}

#[test]
fn numeric_part_end_stops_at_second_point() {
    assert_eq!(Utils::numeric_part_end("12.3.4"), 4);
    assert_eq!(Utils::numeric_part_end("abc"), 0);
    assert_eq!(Utils::numeric_part_end("007"), 3);
}

#[test]
fn next_char_splits_first_character() {
    assert_eq!(Utils::next_char("héllo"), ('h', "éllo"));
    assert_eq!(Utils::next_char("é!"), ('é', "!"));
    assert_eq!(Utils::next_char(""), ('\0', ""));
}

#[test]
fn ansi_escape_text_pads_and_colours() {
    assert_eq!(Utils::ansi_escape_text("91", "ERROR", 12, true), "\x1b[91mERROR       \x1b[0m");
    assert_eq!(Utils::ansi_escape_text("91", "ERROR", 7, false), "ERROR  ");
    assert_eq!(Utils::ansi_escape_text("94", "DEBUGGING", 3, false), "DEBUGGING");
}

#[test]
fn bad_pattern_is_refused() {
    match Rule::new("(", false) {
        Err(e) => assert_eq!(e.pattern, "("),
        Ok(_) => panic!("the pattern should be refused"),
    }
    assert!(Rule::new("^!", true).is_ok());
}

#[test]
fn versions_resolve_to_known_ones() {
    let h = Handler::new();
    assert_eq!(h.parse_version("0.1.0"), "0.1.0");
    assert_eq!(h.parse_version("0.2.0"), "0.2.0");
    assert_eq!(h.parse_version("latest"), "0.4.0");
    assert_eq!(h.parse_version("LaTeSt"), "0.4.0");
    assert_eq!(h.parse_version("0.9"), "0.4.0");
    assert_eq!(h.parse_version("0.9.1"), "0.4.0");
    assert_eq!(h.parse_version("0.1"), "0.1.0");
    assert_eq!(h.parse_version("0.5.0"), "0.4.0");
    assert_eq!(h.parse_version("1.2.3"), "0.2.0");
    assert_eq!(h.parse_version("0.3.0-beta+build"), "0.3.0");
    assert_eq!(h.parse_version(""), "0.4.0");
}

#[test]
fn query_pointer_reads_the_pointer() {
    let cmds = strings(&[">", ">", "??", "$."]);
    let mut runner = Runner::new(cmds, Grammar::modern(), settings()).unwrap();
    let mut events = Vec::new();
    while !runner.is_finished() {
        events.extend(runner.step().events);
    }
    assert_eq!(events, vec![Event::Number(2.0f64.to_bits())]);
}

#[test]
fn division_by_nonzero_divides() {
    let (runner, _, _) = run("|3|!;|6|!/:");
    assert_eq!(cell(&runner), 2.0);
}

#[test]
fn rule_patterns_prefix_locality_and_count() {
    let config = VersionCommandsConfig {
        chain_regex: "(\\|-?[0-9]*\\|)?".to_string(),
        local_regex: "'?".to_string(),
        commands: vec![
            CommandConfig {
                command: "increment".to_string(),
                regex: "!".to_string(),
                chainable: true,
                chain_optimisable: true,
                can_be_local: true,
            },
            CommandConfig {
                command: "end".to_string(),
                regex: ":".to_string(),
                chainable: false,
                chain_optimisable: false,
                can_be_local: false,
            },
        ],
    };
    let patterns = config.rule_patterns();
    assert_eq!(patterns[0], "^'?(\\|-?[0-9]*\\|)?!");
    assert_eq!(patterns[1], "^:");
    assert_eq!(patterns[2], the_golden::config::PREPROCESSOR_REGEX);
}

#[test]
fn directives_are_read_in_any_case() {
    let mut d = Directives::new();
    d.apply("#VERSION 0.2.0:");
    d.apply("#no-console FALSE:");
    d.apply("#Disable_Warnings too-left-pointer:");
    d.apply("#sebek 1|0|-1:");
    d.apply("#unknown thing:");
    d.apply("#version:");
    assert_eq!(d.version, Some("0.2.0".to_string()));
    assert!(!d.no_console);
    assert!(d.too_left_pointer);
    assert_eq!(d.sebek, Some("1|0|-1".to_string()));
    d.apply("#noconsole");
    assert!(d.no_console);
}

#[test]
fn extraction_keeps_tokens_holding_a_colon() {
    let rules = vec![
        Rule::new("^#[^\\n]*\\n?", false).unwrap(),
        Rule::new("^:\\r?\\n?", false).unwrap(),
        Rule::new("^!", false).unwrap(),
    ];
    let mut parser = Parser::new();
    let lexer = Lexer::new("#x:\n!:".to_string(), rules, "d.au".to_string());
    assert!(parser.run(lexer).is_ok());
    assert_eq!(parser.commands, strings(&["#x:\n", "!"]));
    assert!(parser.commands_info.iter().all(|t| t.source == "d.au"));
}

#[test]
fn numeric_read_without_digits_breaks_the_loop_in_the_latest_grammar() {
    let cmds = strings(&["!", "[", "?$,", "!", "]", "$."]);
    let mut runner = Runner::new(cmds, Grammar::modern(), settings()).unwrap();
    let mut events = Vec::new();
    let mut fed = false;
    for _ in 0..100 {
        let o = runner.step();
        events.extend(o.events);
        match o.status {
            Status::NeedInput if !fed => {
                runner.supply_input(".x\n".to_string());
                fed = true;
            }
            Status::Finished => break,
            Status::Running => {}
            other => panic!("unexpected status {:?}", other),
        }
    }
    assert_eq!(events, vec![Event::Number(1.0f64.to_bits())]);
    assert!(runner.loops().is_empty());
}

#[test]
fn comparisons_order_negative_zero_and_infinity() {
    // `?<` breaks when the cell is below the other bank's cell (0)
    let (runner, _, status) = run("~[?<!]:");
    assert!(matches!(status, Status::Finished));
    assert_eq!(cell(&runner), -1.0);
}

#[test]
fn columns_count_utf8_bytes() {
    match load_program("\"é\"!x:", "u.au", classic_rules(), classic_rules()) {
        Err(e) => {
            assert_eq!(e.kind, SyntaxErrorKind::NoRuleMatches);
            assert_eq!((e.line, e.column), (1, 6));
        }
        Ok(_) => panic!("expected an error"),
    }
    let mut parser = Parser::new();
    let lexer = Lexer::new("\"ü\n€\" !:".to_string(), classic_rules(), "u.au".to_string());
    assert!(parser.run(lexer).is_ok());
    assert_eq!((parser.commands_info[0].line, parser.commands_info[0].column), (2, 6));
}

#[test]
fn negative_cell_is_no_character() {
    let (_, events, status) = run("~\\,:");
    assert!(events.is_empty());
    match status {
        Status::Failed(RuntimeError::InvalidCharacter { value }) => assert_eq!(f64::from_bits(value), -1.0),
        other => panic!("unexpected status {:?}", other),
    }
}

#[test]
fn zero_cell_writes_the_null_character() {
    let (_, events, status) = run("\\,:");
    assert!(matches!(status, Status::Finished));
    assert_eq!(events, vec![Event::Char(0)]);
}

#[test]
fn directives_are_read_from_the_program() {
    let d = Directives::read("#version 0.1.0:\n!:\n  #sebek 1|2|3:\n#NoConsole\n");
    assert_eq!(d.version, Some("0.1.0".to_string()));
    assert_eq!(d.sebek, None);
    assert!(d.no_console);
    let d = Directives::read("!:\n#sebek 1|2|3:\n");
    assert_eq!(d.sebek, Some("1|2|3".to_string()));
}
