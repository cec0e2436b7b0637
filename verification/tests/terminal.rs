use ajkshell::listing::{entry_ops, parse_ls_args, ActiveArgs, LsError, LsOp, TermColor};
use ajkshell::output::{prompt_column, prompt_from_output, PromptError, StdoutWriter};
use ajkshell::prompt::{prompt_text, try_prompt_text};

#[test]
fn render_adds_carriage_returns() {
    let w = StdoutWriter {};
    assert_eq!(w.render(b"a\nb\n"), b"a\n\rb\n\r".to_vec());
    assert_eq!(w.render(b"plain"), b"plain".to_vec());
    assert_eq!(w.render(b""), Vec::<u8>::new());
}

#[test]
fn render_of_pieces_is_render_of_whole() {
    let w = StdoutWriter {};
    let mut pieces = w.render(b"ab\nc");
    pieces.extend(w.render(b"\nd"));
    assert_eq!(pieces, w.render(b"ab\nc\nd"));
}

#[test]
fn prompt_column_adds_and_wraps() {
    assert_eq!(prompt_column(3, 5), 8);
    assert_eq!(prompt_column(65530, 10), 4);
}

#[test]
fn prompt_from_output_checks_streams() {
    assert_eq!(prompt_from_output(b"~/src", b""), Ok(&b"~/src"[..]));
    assert_eq!(prompt_from_output(b"~", b"oops"), Err(PromptError::ErrorOutput));
    assert_eq!(prompt_from_output(&[0x61, 0xC3, 0xA9], b""), Err(PromptError::NonAscii));
}

#[test]
fn prompt_under_home_uses_tilde() {
    assert_eq!(prompt_text("/home/u/src", Some("/home/u")), "~/src");
    assert_eq!(prompt_text("/home/u", Some("/home/u")), "~");
}

#[test]
fn prompt_elsewhere_is_the_directory() {
    assert_eq!(prompt_text("/etc", Some("/home/u")), "/etc");
    assert_eq!(prompt_text("/home/user2", Some("/home/u")), "/home/user2");
    assert_eq!(prompt_text("/home/u/x", None), "/home/u/x");
}

#[test]
fn try_prompt_text_refuses_a_cut_past_the_end() {
    assert_eq!(try_prompt_text("/home/u", Some("/home/u/")), None);
    assert_eq!(try_prompt_text("/home/u/a", Some("/home/u")), Some("~/a".to_string()));
}

fn args(v: &[&str]) -> Vec<String> {
    v.iter().map(|s| s.to_string()).collect()
}

#[test]
fn ls_alone_lists_current_directory() {
    let a = parse_ls_args(&args(&["ls"])).unwrap();
    assert_eq!(a.flags, ActiveArgs::default());
    assert!(a.dirs.is_empty());
}

#[test]
fn ls_options_and_directories() {
    let a = parse_ls_args(&args(&["ls", "-a", "src", "-l"])).unwrap();
    assert!(a.flags.show_hidden_files);
    assert!(a.flags.show_permissions);
    assert_eq!(a.dirs, vec![0, 2]);
}

#[test]
fn ls_unknown_option() {
    assert_eq!(parse_ls_args(&args(&["ls", "x", "-z", "-q"])).err(), Some(LsError::UnknownArgument(2)));
}

#[test]
fn ls_entry_steps() {
    assert_eq!(
        entry_ops(b"src", true, false, false),
        vec![
            LsOp::Foreground(TermColor::Reset),
            LsOp::Background(TermColor::Reset),
            LsOp::Foreground(TermColor::Green),
            LsOp::PrintName,
            LsOp::PrintSlash,
            LsOp::NewLine
        ]
    );
    assert_eq!(
        entry_ops(b".git", true, false, false),
        vec![LsOp::Foreground(TermColor::Reset), LsOp::Background(TermColor::Reset), LsOp::Foreground(TermColor::Green)]
    );
    assert_eq!(
        entry_ops(b".vimrc", false, true, true),
        vec![
            LsOp::Foreground(TermColor::Reset),
            LsOp::Background(TermColor::Reset),
            LsOp::Background(TermColor::DarkBlue),
            LsOp::Background(TermColor::Yellow),
            LsOp::PrintName,
            LsOp::NewLine
        ]
    );
}
