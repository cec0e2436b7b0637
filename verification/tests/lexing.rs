use ajkshell::parser::{lex, try_lex, LexError, Token};
use ajkshell::slice_tree::SliceTree;

fn word(t: &Token) -> (&'static str, Vec<u8>, usize, usize) {
    match t {
        Token::Command(s) => ("command", s.as_slice().to_vec(), s.range_start(), s.range_end()),
        Token::Argument(s) => ("argument", s.as_slice().to_vec(), s.range_start(), s.range_end()),
        Token::Pipe => ("pipe", t.as_bytes().to_vec(), 0, 0),
    }
}

#[test]
fn slice_tree_consume_views_everything() {
    let t = SliceTree::consume(String::from("hello"));
    assert_eq!(t.as_slice(), b"hello");
    assert_eq!(t.range_start(), 0);
    assert_eq!(t.range_end(), 5);
}

#[test]
fn slice_tree_subslice_views_part() {
    let t = SliceTree::consume(String::from("hello world"));
    let w = t.subslice(6..11);
    assert_eq!(w.as_slice(), b"world");
    let o = w.subslice(7..9);
    assert_eq!(o.as_slice(), b"or");
    let c = o.clone();
    assert_eq!(c.as_slice(), b"or");
    assert_eq!((c.range_start(), c.range_end()), (7, 9));
}

#[test]
fn slice_tree_over_bytes() {
    let t = SliceTree::consume(vec![1u8, 2, 3, 4]);
    assert_eq!(t.subslice(1..3).as_slice(), &[2u8, 3]);
}

#[test]
fn lex_command_and_arguments() {
    let tokens = lex("ls -a dir").unwrap();
    let words: Vec<_> = tokens.iter().map(word).collect();
    assert_eq!(words[0], ("command", b"ls".to_vec(), 0, 2));
    assert_eq!(words[1], ("argument", b"-a".to_vec(), 3, 5));
    assert_eq!(words[2], ("argument", b"dir".to_vec(), 6, 9));
    assert_eq!(words.len(), 3);
}

#[test]
fn lex_empty_line_is_one_empty_command() {
    let tokens = lex("").unwrap();
    assert_eq!(tokens.len(), 1);
    assert_eq!(word(&tokens[0]), ("command", vec![], 0, 0));
}

#[test]
fn lex_single_word_is_its_command() {
    let tokens = lex("pwd").unwrap();
    assert_eq!(tokens.len(), 1);
    assert_eq!(word(&tokens[0]), ("command", b"pwd".to_vec(), 0, 3));
}

#[test]
fn lex_pipe_starts_a_new_command() {
    let tokens = lex("cat f | wc -l").unwrap();
    let kinds: Vec<_> = tokens.iter().map(|t| word(t).0).collect();
    assert_eq!(kinds, vec!["command", "argument", "pipe", "command", "argument"]);
    assert_eq!(tokens[2].as_bytes(), b"|");
    assert_eq!(word(&tokens[3]).1, b"wc".to_vec());
}

#[test]
fn lex_leading_space_gives_empty_command() {
    let tokens = lex(" a").unwrap();
    assert_eq!(word(&tokens[0]), ("command", vec![], 0, 0));
    assert_eq!(word(&tokens[1]), ("argument", b"a".to_vec(), 1, 2));
}

#[test]
fn lex_quoted_word_keeps_spaces() {
    let tokens = lex("echo \"hello world\"").unwrap();
    let words: Vec<_> = tokens.iter().map(word).collect();
    assert_eq!(words[0], ("command", b"echo".to_vec(), 0, 4));
    assert_eq!(words[1], ("argument", b"hello world".to_vec(), 6, 17));
    // The word stays open after its closing quote and ends with the line.
    assert_eq!(words[2], ("argument", b"hello world\"".to_vec(), 6, 18));
    assert_eq!(words.len(), 3);
}

#[test]
fn lex_quote_inside_word_is_refused() {
    assert_eq!(lex("a\"b\"").err(), Some(LexError::InvalidQuotePlacement));
    assert_eq!(lex("\"x\"").err(), Some(LexError::InvalidQuotePlacement));
}

#[test]
fn lex_pipe_inside_word_is_refused() {
    assert_eq!(lex("a|b").err(), Some(LexError::PipeInsideToken { column: 1 }));
    assert_eq!(lex("|a").err(), Some(LexError::PipeInsideToken { column: 0 }));
}

#[test]
fn try_lex_empty_quoted_word_is_undefined() {
    assert!(try_lex("echo \"\"").is_none());
    assert!(try_lex("echo \"a\"").is_some());
}

#[test]
fn lex_columns_count_characters_but_end_counts_bytes() {
    // 'é' takes two bytes; word ranges use character columns, and a word
    // ending the line ends at the byte length.
    let tokens = lex("é x").unwrap();
    assert_eq!(word(&tokens[0]), ("command", vec![0xC3], 0, 1));
    assert_eq!(word(&tokens[1]), ("argument", b" x".to_vec(), 2, 4));
}

#[test]
fn lexed_words_share_the_line_bytes() {
    let tokens = lex("a bb ccc").unwrap();
    for t in &tokens {
        let (_, bytes, s, e) = word(t);
        assert_eq!(bytes, b"a bb ccc"[s..e].to_vec());
    }
}

fn lexing(src: &str) -> Result<Vec<(&'static str, Vec<u8>)>, LexError> {
    lex(src).map(|tokens| tokens.iter().map(|t| { let (k, b, _, _) = word(t); (k, b) }).collect())
}

#[test]
fn lex_extra_spaces_change_nothing() {
    let base = lexing("ls -a | wc -l").unwrap();
    assert_eq!(lexing("ls -a | wc -l ").unwrap(), base);
    assert_eq!(lexing("ls  -a | wc -l").unwrap(), base);
    assert_eq!(lexing("ls -a  | wc -l").unwrap(), base);
    assert_eq!(lexing("ls -a |  wc -l").unwrap(), base);
    assert_eq!(lexing("").unwrap(), lexing(" ").unwrap());
    assert_eq!(lexing(" a").unwrap(), lexing("  a").unwrap());
}

#[test]
fn lex_extra_spaces_keep_errors() {
    assert!(lexing("a|b").is_err());
    assert!(lexing("a|b ").is_err());
    assert!(lexing("x a|b").is_err());
    assert!(lexing("x  a|b").is_err());
}
