use rustsint::{parse_command, Command};

fn parse(line: &str) -> Command {
    parse_command(line.to_string())
}

fn error_of(line: &str) -> String {
    match parse(line) {
        Command::Error(msg) => msg,
        other => panic!("expected an error for {:?}, got {:?}", line, other),
    }
}

#[test]
fn print_and_exit_stand_alone() {
    assert!(matches!(parse("p\n"), Command::Print));
    assert!(matches!(parse("  x  "), Command::Exit));
    assert_eq!(error_of("p 1"), "invalid command.");
    assert_eq!(error_of("x now please"), "invalid command.");
}

#[test]
fn record_commands_carry_age_and_name() {
    match parse("i 25 alice\n") {
        Command::Insert { age, name } => {
            assert_eq!(age, 25);
            assert_eq!(name, "alice");
        }
        other => panic!("{:?}", other),
    }
    match parse("e\t7   bob") {
        Command::Erase { age, name } => {
            assert_eq!(age, 7);
            assert_eq!(name, "bob");
        }
        other => panic!("{:?}", other),
    }
    match parse("c +40 carol") {
        Command::Contains { age, name } => {
            assert_eq!(age, 40);
            assert_eq!(name, "carol");
        }
        other => panic!("{:?}", other),
    }
}

#[test]
fn empty_line_asks_for_a_command() {
    assert_eq!(error_of(""), "please insert a command");
    assert_eq!(error_of(" \t \n"), "please insert a command");
}

#[test]
fn bad_age_is_reported() {
    assert_eq!(error_of("i old dave"), "unable to parse int (age).");
    assert_eq!(error_of("i -3 dave"), "unable to parse int (age).");
    assert_eq!(error_of("c 4294967296 dave"), "unable to parse int (age).");
    assert_eq!(error_of("e + dave"), "unable to parse int (age).");
    match parse("c 4294967295 dave") {
        Command::Contains { age, .. } => assert_eq!(age, u32::MAX),
        other => panic!("{:?}", other),
    }
}

#[test]
fn unknown_or_misshapen_lines_are_invalid() {
    assert_eq!(error_of("q"), "invalid command.");
    assert_eq!(error_of("i 3"), "invalid command.");
    assert_eq!(error_of("ii 3 eve"), "invalid command.");
    assert_eq!(error_of("i 3 eve extra"), "invalid command.");
}
