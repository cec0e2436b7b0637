use ajkshell::builtins::BuiltinError;
use ajkshell::command::{parse, parse_line, BuiltCommand, LineError, ParseError, ParsedCommand};
use ajkshell::parser::{lex, LexError};

fn text(bytes: &[u8]) -> String {
    String::from_utf8(bytes.to_vec()).unwrap()
}

fn stage(c: &ParsedCommand) -> (String, Vec<String>) {
    (text(c.command().as_slice()), c.args().iter().map(|a| text(a.as_slice())).collect())
}

#[test]
fn parse_splits_at_pipes() {
    let tokens = lex("cat a b | grep x | wc").unwrap();
    let stages = parse(&tokens).unwrap();
    let seen: Vec<_> = stages.iter().map(stage).collect();
    assert_eq!(
        seen,
        vec![
            ("cat".to_string(), vec!["a".to_string(), "b".to_string()]),
            ("grep".to_string(), vec!["x".to_string()]),
            ("wc".to_string(), vec![]),
        ]
    );
}

#[test]
fn parse_single_stage() {
    let tokens = lex("ls -l").unwrap();
    let stages = parse(&tokens).unwrap();
    assert_eq!(stages.len(), 1);
    assert_eq!(stage(&stages[0]), ("ls".to_string(), vec!["-l".to_string()]));
}

#[test]
fn parse_double_pipe_is_refused() {
    let tokens = lex("a | | b").unwrap();
    assert!(matches!(parse(&tokens), Err(ParseError::DoublePipe)));
}

#[test]
fn parsed_command_new_takes_a_statement() {
    let tokens = lex("echo one two").unwrap();
    let c = ParsedCommand::new(&tokens).unwrap();
    assert_eq!(stage(&c), ("echo".to_string(), vec!["one".to_string(), "two".to_string()]));
    let alone = ParsedCommand::new(&tokens[0..1]).unwrap();
    assert_eq!(stage(&alone), ("echo".to_string(), vec![]));
}

#[test]
fn parse_line_gives_stages() {
    let stages = parse_line("sort | uniq -c").unwrap();
    let seen: Vec<_> = stages.iter().map(stage).collect();
    assert_eq!(
        seen,
        vec![("sort".to_string(), vec![]), ("uniq".to_string(), vec!["-c".to_string()])]
    );
}

#[test]
fn parse_line_errors() {
    assert_eq!(parse_line("ls |").err(), Some(LineError::EndsInPipe));
    assert_eq!(parse_line("a | | b").err(), Some(LineError::Parse(ParseError::DoublePipe)));
    assert_eq!(parse_line("a\"b").err(), Some(LineError::Lex(LexError::InvalidQuotePlacement)));
    assert_eq!(
        parse_line("a|b").err(),
        Some(LineError::Lex(LexError::PipeInsideToken { column: 1 }))
    );
    assert_eq!(parse_line("echo \"\"").err(), Some(LineError::EmptyQuotedWord));
}

#[test]
fn build_external_program() {
    let stages = parse_line("echo hi there").unwrap();
    match stages[0].build() {
        BuiltCommand::External { program, args } => {
            assert_eq!(program.as_slice(), b"echo");
            let a: Vec<_> = args.iter().map(|t| text(t.as_slice())).collect();
            assert_eq!(a, vec!["hi".to_string(), "there".to_string()]);
        },
        _ => panic!("expected an outside program"),
    }
}

#[test]
fn build_cd_builtin_and_its_checks() {
    let one = parse_line("cd /tmp").unwrap();
    match one[0].build() {
        BuiltCommand::ChangeDirectory(cd) => {
            assert_eq!(cd.words().len(), 1);
            // Exactly one word is refused as a missing directory.
            assert_eq!(cd.target().err(), Some(BuiltinError::MissingDirectory));
        },
        _ => panic!("expected cd"),
    }
    let two = parse_line("cd /tmp other").unwrap();
    match two[0].build() {
        BuiltCommand::ChangeDirectory(cd) => {
            assert_eq!(cd.target().unwrap().as_slice(), b"/tmp");
        },
        _ => panic!("expected cd"),
    }
    let three = parse_line("cd a b c").unwrap();
    match three[0].build() {
        BuiltCommand::ChangeDirectory(cd) => {
            assert_eq!(cd.target().err(), Some(BuiltinError::TooManyArguments));
        },
        _ => panic!("expected cd"),
    }
}

#[test]
fn build_exit_builtin_and_its_check() {
    for (line, ok) in [("exit", true), ("exit 3", true), ("exit 3 4", false)] {
        let stages = parse_line(line).unwrap();
        match stages[0].build() {
            BuiltCommand::Exit(e) => {
                if ok {
                    assert_eq!(e.check(), Ok(()));
                } else {
                    assert_eq!(e.check(), Err(BuiltinError::UnexpectedArguments));
                }
            },
            _ => panic!("expected exit"),
        }
    }
}

#[test]
fn build_only_exact_names_are_builtins() {
    let stages = parse_line("cdx | exits").unwrap();
    assert!(matches!(stages[0].build(), BuiltCommand::External { .. }));
    assert!(matches!(stages[1].build(), BuiltCommand::External { .. }));
}

#[test]
fn parse_line_words_are_readable() {
    let stages = parse_line("a bb | ccc d  e").unwrap();
    for s in &stages {
        assert!(s.command().range_start() <= s.command().range_end());
        for a in s.args() {
            assert!(a.range_start() <= a.range_end());
            let _ = a.as_slice();
        }
    }
    assert_eq!(stage(&stages[1]), ("ccc".to_string(), vec!["d".to_string(), "e".to_string()]));
}
