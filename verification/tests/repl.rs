use ttparse::repl::{is_repl_command, run_repl_command, ReplAction};

#[test]
fn commands_begin_with_a_colon() {
    assert!(is_repl_command(":parse x"));
    assert!(!is_repl_command("parse x"));
    assert!(!is_repl_command(""));
}

#[test]
fn a_command_needs_a_space() {
    assert!(run_repl_command(":q").is_none());
    assert!(run_repl_command(":quit").is_none());
}

#[test]
fn quit_commands() {
    assert!(matches!(run_repl_command(":q now"), Some(ReplAction::Quit)));
    assert!(matches!(run_repl_command(":quit "), Some(ReplAction::Quit)));
}

#[test]
fn parse_command_parses_the_trimmed_rest() {
    match run_repl_command(":parse   f : A   ") {
        Some(ReplAction::Parsed(Ok(decls))) => {
            assert_eq!(decls.len(), 1);
            assert_eq!(decls[0].span.start, 0);
        }
        _ => panic!("expected a parsed program"),
    }
    match run_repl_command(":parse x") {
        Some(ReplAction::Parsed(Err(e))) => {
            assert_eq!(e.message, "Expected ':≡', found end of file");
        }
        _ => panic!("expected a parse error"),
    }
}

#[test]
fn unknown_command() {
    match run_repl_command(":foo bar") {
        Some(ReplAction::Unknown(c)) => assert_eq!(c, ":foo"),
        _ => panic!("expected an unknown command"),
    }
}

#[test]
fn parse_command_trims_unicode_white_space() {
    match run_repl_command(":parse \u{3000}\u{a0}g : B\u{2003}\t") {
        Some(ReplAction::Parsed(Ok(decls))) => {
            assert_eq!(decls.len(), 1);
            assert_eq!(decls[0].span.start, 0);
            assert_eq!(decls[0].span.end, 5);
        }
        _ => panic!("expected a parsed program"),
    }
}
