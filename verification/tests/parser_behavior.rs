use ish::builtin::{builtin_cd, builtin_exit, match_builtin, Builtin, CdAction};
use ish::eval::{build_argv, builtin_fast_path, not_found_message, open_plan, pipe_plan, split_path_list};
use ish::parser::{parse, ParseError};
use ish::serialize::serialize;
use ish::types::RedirectType;

fn words(ws: &[&str]) -> Vec<Vec<u8>> {
    ws.iter().map(|w| w.as_bytes().to_vec()).collect()
}

#[test]
fn parse_simple_command() {
    let p = parse(b"echo hello\n").unwrap();
    assert_eq!(p.commands.len(), 1);
    assert!(!p.is_background);
    let c = &p.commands[0];
    assert_eq!(c.name, b"echo".to_vec());
    assert_eq!(c.arguments, words(&["hello"]));
    assert!(c.redirects.is_empty());
}

#[test]
fn parse_two_stage_pipeline_with_input_redirect() {
    let p = parse(b"cat < /etc/hostname | wc -l\n").unwrap();
    assert_eq!(p.commands.len(), 2);
    assert!(!p.is_background);
    let cat = &p.commands[0];
    assert_eq!(cat.name, b"cat".to_vec());
    assert!(cat.arguments.is_empty());
    assert_eq!(cat.redirects.len(), 1);
    assert_eq!(cat.redirects[0].target, b"/etc/hostname".to_vec());
    assert_eq!(cat.redirects[0].from, 0);
    assert_eq!(cat.redirects[0].typ, RedirectType::Input);
    let wc = &p.commands[1];
    assert_eq!(wc.name, b"wc".to_vec());
    assert_eq!(wc.arguments, words(&["-l"]));
    assert!(wc.redirects.is_empty());
}

#[test]
fn parse_background_marker() {
    let p = parse(b"sleep 1 &\n").unwrap();
    assert!(p.is_background);
    assert_eq!(p.commands.len(), 1);
    assert_eq!(p.commands[0].name, b"sleep".to_vec());
    assert_eq!(p.commands[0].arguments, words(&["1"]));
}

#[test]
fn parse_redirect_defaults() {
    let p = parse(b"<in >out >>log ls\n").unwrap();
    let rs = &p.commands[0].redirects;
    assert_eq!(rs.len(), 3);
    assert_eq!(rs[0].typ, RedirectType::Input);
    assert_eq!(rs[0].from, 0);
    assert_eq!(rs[1].typ, RedirectType::Output);
    assert_eq!(rs[1].from, 1);
    assert_eq!(rs[2].typ, RedirectType::Append);
    assert_eq!(rs[2].from, 1);
}

#[test]
fn parse_numeric_descriptor_before_name() {
    let p = parse(b"2>err ls\n").unwrap();
    let c = &p.commands[0];
    assert_eq!(c.name, b"ls".to_vec());
    assert_eq!(c.redirects.len(), 1);
    assert_eq!(c.redirects[0].from, 2);
    assert_eq!(c.redirects[0].typ, RedirectType::Output);
    assert_eq!(c.redirects[0].target, b"err".to_vec());
}

#[test]
fn trailing_digits_become_an_argument() {
    // After the name, a digit run separated by a space is read as a word;
    // only the operator that follows opens a redirect, with its default.
    let p = parse(b"ls 2 >err\n").unwrap();
    let c = &p.commands[0];
    assert_eq!(c.arguments, words(&["2"]));
    assert_eq!(c.redirects.len(), 1);
    assert_eq!(c.redirects[0].from, 1);
}

#[test]
fn parse_error_on_closing_descriptor_syntax() {
    // `&-` is not recognised: the redirect after `2>` has no target word.
    let e = parse(b"ls >out 2>&-\n").unwrap_err();
    assert_eq!(e, ParseError::EmptyRedirect);
}

#[test]
fn parse_error_empty_command() {
    assert_eq!(parse(b"| x\n").unwrap_err(), ParseError::EmptyCommand);
    assert_eq!(parse(b"x |\n").unwrap_err(), ParseError::EmptyCommand);
    assert_eq!(parse(b"\n").unwrap_err(), ParseError::EmptyCommand);
}

#[test]
fn parse_error_word_after_background() {
    assert_eq!(
        parse(b"a & b\n").unwrap_err(),
        ParseError::CharAfterBackground(b'b')
    );
}

#[test]
fn parse_error_word_after_redirect() {
    // Arguments cannot follow a redirect: the word lands between commands.
    assert_eq!(
        parse(b"ls >x y\n").unwrap_err(),
        ParseError::UnknownSeparator(b'y')
    );
}

#[test]
fn parse_error_descriptor_too_large() {
    assert_eq!(
        parse(b"99999999999>x\n").unwrap_err(),
        ParseError::NumberTooLarge
    );
}

#[test]
fn round_trip_simple() {
    let p1 = parse(b"echo hello\n").unwrap();
    let rendered = serialize(&p1);
    assert_eq!(rendered, b"echo hello".to_vec());
    let p2 = parse(&rendered).unwrap();
    assert_eq!(p1, p2);
}

#[test]
fn round_trip_redirects_and_background() {
    let p1 = parse(b"cat <in | grep x >>log &\n").unwrap();
    let rendered = serialize(&p1);
    let p2 = parse(&rendered).unwrap();
    assert_eq!(p1, p2);
}

#[test]
fn round_trip_numeric_descriptor() {
    let p1 = parse(b"2>err 0<in tool a b\n").unwrap();
    let rendered = serialize(&p1);
    assert_eq!(rendered, b"2>err 0<in tool a b".to_vec());
    let p2 = parse(&rendered).unwrap();
    assert_eq!(p1, p2);
}

#[test]
fn command_order_is_source_order() {
    let p = parse(b"a one | b two | c three\n").unwrap();
    let names: Vec<Vec<u8>> = p.commands.iter().map(|c| c.name.clone()).collect();
    assert_eq!(names, words(&["a", "b", "c"]));
    assert_eq!(p.commands[0].arguments, words(&["one"]));
    assert_eq!(p.commands[1].arguments, words(&["two"]));
    assert_eq!(p.commands[2].arguments, words(&["three"]));
}

#[test]
fn whitespace_variants_are_skipped() {
    let p = parse(b"\techo\t  hello  \n").unwrap();
    assert_eq!(p.commands[0].name, b"echo".to_vec());
    assert_eq!(p.commands[0].arguments, words(&["hello"]));
}

#[test]
fn name_may_start_with_digits() {
    // A digit run not followed by an operator is rewound into a word.
    let p = parse(b"7zip x archive\n").unwrap();
    assert_eq!(p.commands[0].name, b"7zip".to_vec());
    assert_eq!(p.commands[0].arguments, words(&["x", "archive"]));
}

#[test]
fn append_redirect_needs_two_arrows() {
    let p = parse(b">>log tool\n").unwrap();
    assert_eq!(p.commands[0].redirects[0].typ, RedirectType::Append);
    let q = parse(b">log tool\n").unwrap();
    assert_eq!(q.commands[0].redirects[0].typ, RedirectType::Output);
}

#[test]
fn largest_descriptor_is_accepted() {
    let p = parse(b"2147483647>x tool\n").unwrap();
    assert_eq!(p.commands[0].redirects[0].from, 2147483647);
    assert_eq!(
        parse(b"2147483648>x tool\n").unwrap_err(),
        ParseError::NumberTooLarge
    );
}

#[test]
fn match_builtin_names() {
    assert_eq!(match_builtin(b"cd"), Some(Builtin::Cd));
    assert_eq!(match_builtin(b"exit"), Some(Builtin::Exit));
    assert_eq!(match_builtin(b"rehash"), Some(Builtin::Rehash));
    assert_eq!(match_builtin(b"ls"), None);
    assert_eq!(match_builtin(b"cdd"), None);
    assert_eq!(match_builtin(b""), None);
}

#[test]
fn fast_path_single_builtin_only() {
    let cd = parse(b"cd\n").unwrap();
    assert_eq!(builtin_fast_path(&cd), Some(Builtin::Cd));
    let redirected = parse(b"cd >x\n").unwrap();
    assert_eq!(builtin_fast_path(&redirected), None);
    let piped = parse(b"cd | cd\n").unwrap();
    assert_eq!(builtin_fast_path(&piped), None);
    let external = parse(b"ls\n").unwrap();
    assert_eq!(builtin_fast_path(&external), None);
}

#[test]
fn cd_decision_codes() {
    let home = b"/tmp".to_vec();
    assert_eq!(
        builtin_cd(&words(&[]), Some(&home)),
        CdAction::Chdir(b"/tmp".to_vec())
    );
    assert_eq!(builtin_cd(&words(&[]), None), CdAction::Code(2));
    assert_eq!(
        builtin_cd(&words(&["/usr"]), Some(&home)),
        CdAction::Chdir(b"/usr".to_vec())
    );
    assert_eq!(builtin_cd(&words(&["a", "b", "c"]), Some(&home)), CdAction::Code(1));
    assert_eq!(builtin_cd(&words(&["a", "b"]), None), CdAction::Code(1));
}

#[test]
fn exit_argument_parsing() {
    assert_eq!(builtin_exit(&words(&[])), 0);
    assert_eq!(builtin_exit(&words(&["42"])), 42);
    assert_eq!(builtin_exit(&words(&["-7"])), -7);
    assert_eq!(builtin_exit(&words(&["+5"])), 5);
    assert_eq!(builtin_exit(&words(&["2147483647"])), 2147483647);
    assert_eq!(builtin_exit(&words(&["2147483648"])), 0);
    assert_eq!(builtin_exit(&words(&["-2147483648"])), -2147483648);
    assert_eq!(builtin_exit(&words(&["abc"])), 0);
    assert_eq!(builtin_exit(&words(&[""])), 0);
    assert_eq!(builtin_exit(&words(&["007"])), 7);
    assert_eq!(builtin_exit(&words(&["9", "ignored"])), 9);
}

#[test]
fn not_found_message_bytes() {
    assert_eq!(
        not_found_message(b"nosuchprogxyz"),
        b"command not found: nosuchprogxyz\n".to_vec()
    );
}

#[test]
fn pipe_plan_topology() {
    assert_eq!(pipe_plan(1), vec![(false, false)]);
    assert_eq!(pipe_plan(2), vec![(false, true), (true, false)]);
    assert_eq!(
        pipe_plan(3),
        vec![(false, true), (true, true), (true, false)]
    );
}

#[test]
fn open_plans_per_type() {
    let input = open_plan(RedirectType::Input);
    assert!(input.read && !input.write && !input.create && !input.append && !input.truncate);
    let output = open_plan(RedirectType::Output);
    assert!(!output.read && output.write && output.create && !output.append && output.truncate);
    let append = open_plan(RedirectType::Append);
    assert!(!append.read && append.write && append.create && append.append && !append.truncate);
}

#[test]
fn argv_prepends_name() {
    let argv = build_argv(b"echo", &words(&["hello"]));
    assert_eq!(argv, words(&["echo", "hello"]));
    let argv2 = build_argv(b"true", &words(&[]));
    assert_eq!(argv2, words(&["true"]));
}

#[test]
fn path_list_splitting() {
    assert_eq!(split_path_list(b"/bin:/usr/bin"), words(&["/bin", "/usr/bin"]));
    assert_eq!(split_path_list(b""), words(&[""]));
    assert_eq!(split_path_list(b"a::b"), words(&["a", "", "b"]));
    assert_eq!(split_path_list(b"x:"), words(&["x", ""]));
}
