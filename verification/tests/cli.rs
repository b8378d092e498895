use rust_os::task::CLI::{
    classify_word, decide_command, handle_command, lexer, parse_i32, parse_u32, CommandAction,
    LexType,
};

fn tokens(command: &str) -> Vec<(String, LexType)> {
    lexer(command).into_iter().map(|t| (t.0.clone(), t.1)).collect()
}

#[test]
fn lexer_splits_on_operators_and_spaces() {
    assert_eq!(
        tokens("12+34 foo*bar/baz-qux"),
        vec![
            ("12".to_string(), LexType::Number),
            ("+".to_string(), LexType::Add),
            ("34".to_string(), LexType::Number),
            ("foo".to_string(), LexType::Stringy),
            ("*".to_string(), LexType::Mult),
            ("bar".to_string(), LexType::Stringy),
            ("/".to_string(), LexType::Div),
            ("baz".to_string(), LexType::Stringy),
            ("-".to_string(), LexType::Sub),
            ("qux".to_string(), LexType::Stringy),
        ]
    );
}

#[test]
fn lexer_types_operator_expression() {
    assert_eq!(
        tokens("2+3"),
        vec![
            ("2".to_string(), LexType::Number),
            ("+".to_string(), LexType::Add),
            ("3".to_string(), LexType::Number),
        ]
    );
    assert_eq!(tokens("12a"), vec![("12a".to_string(), LexType::Stringy)]);
}

#[test]
fn lexer_drops_spaces_only() {
    assert_eq!(tokens(""), vec![]);
    assert_eq!(tokens("   "), vec![]);
    assert_eq!(
        tokens(" + - "),
        vec![("+".to_string(), LexType::Add), ("-".to_string(), LexType::Sub)]
    );
    assert_eq!(tokens("  ls  "), vec![("ls".to_string(), LexType::Ls)]);
}

#[test]
fn lexing_space_joined_lines_concatenates() {
    for (a, b) in [("ls", "12"), ("7-", "2"), ("", "cf x.y"), ("a+", "+b"), ("", "")] {
        let mut joined = tokens(a);
        joined.extend(tokens(b));
        assert_eq!(tokens(&format!("{} {}", a, b)), joined, "{:?} {:?}", a, b);
    }
}

#[test]
fn lexer_recognises_keywords_in_any_case() {
    assert_eq!(
        tokens("DirPointer LS cdir ZB Cr cF"),
        vec![
            ("DirPointer".to_string(), LexType::DirPointer),
            ("LS".to_string(), LexType::Ls),
            ("cdir".to_string(), LexType::CreateDir),
            ("ZB".to_string(), LexType::ZeroDir),
            ("Cr".to_string(), LexType::CreateRoot),
            ("cF".to_string(), LexType::CreateFile),
        ]
    );
}

#[test]
fn lexer_keeps_the_last_word() {
    assert_eq!(tokens("a b"), vec![("a".to_string(), LexType::Stringy), ("b".to_string(), LexType::Stringy)]);
    assert_eq!(tokens("x"), vec![("x".to_string(), LexType::Stringy)]);
}

#[test]
fn classify_word_needs_lowercase_input() {
    assert_eq!(classify_word("ls"), LexType::Ls);
    assert_eq!(classify_word("LS"), LexType::Stringy);
    assert_eq!(classify_word("dirpointer"), LexType::DirPointer);
    assert_eq!(classify_word("lsx"), LexType::Stringy);
    assert_eq!(classify_word(""), LexType::Stringy);
}

#[test]
fn parse_u32_follows_std() {
    for s in ["0", "42", "+42", "4294967295", "4294967296", "", "+", "-1", "12a", " 1", "007"] {
        assert_eq!(parse_u32(s), s.parse::<u32>().ok(), "input {:?}", s);
    }
}

#[test]
fn parse_i32_follows_std() {
    for s in [
        "0", "-0", "42", "+42", "-42", "2147483647", "2147483648", "-2147483648", "-2147483649", "",
        "+", "-", "1-", "x",
    ] {
        assert_eq!(parse_i32(s), s.parse::<i32>().ok(), "input {:?}", s);
    }
}

#[test]
fn one_expression_arithmetic() {
    assert_eq!(handle_command("7-2", 0), Some(CommandAction::PrintDifference(5)));
    assert_eq!(
        handle_command("2+3", 0),
        Some(CommandAction::PrintSum { first: 2, second: 3, sum: 5 })
    );
    assert_eq!(handle_command("6*7", 0), Some(CommandAction::PrintProduct(42)));
    assert_eq!(
        handle_command("7/2", 0),
        Some(CommandAction::PrintQuotient { dividend: 7, divisor: 2 })
    );
    assert_eq!(
        handle_command("1 + 2 + 3", 0),
        Some(CommandAction::PrintSum { first: 1, second: 2, sum: 3 })
    );
    assert_eq!(handle_command("2147483647+1", 0), None);
    assert_eq!(handle_command("1 2 3", 0), Some(CommandAction::PatternMismatch));
    assert_eq!(handle_command(" - ", 0), Some(CommandAction::InvalidCommand));
}

#[test]
fn arithmetic_on_number_tokens() {
    let t = |a: &str, k: LexType, b: &str| {
        vec![
            Box::new((a.to_string(), LexType::Number)),
            Box::new(("op".to_string(), k)),
            Box::new((b.to_string(), LexType::Number)),
        ]
    };
    assert_eq!(
        decide_command(&t("12", LexType::Add, "30"), 0),
        Some(CommandAction::PrintSum { first: 12, second: 30, sum: 42 })
    );
    assert_eq!(decide_command(&t("6", LexType::Mult, "-7"), 0), Some(CommandAction::PrintProduct(-42)));
    assert_eq!(
        decide_command(&t("1", LexType::Div, "0"), 0),
        Some(CommandAction::PrintQuotient { dividend: 1, divisor: 0 })
    );
    assert_eq!(decide_command(&t("5", LexType::Sub, "x"), 0), Some(CommandAction::PrintDifference(5)));
    assert_eq!(decide_command(&t("2147483647", LexType::Add, "1"), 0), None);
    assert_eq!(decide_command(&t("65536", LexType::Mult, "65536"), 0), None);
    assert_eq!(decide_command(&t("-2147483648", LexType::Sub, "1"), 0), None);
}

#[test]
fn directory_commands() {
    assert_eq!(handle_command("dirpointer", 9), Some(CommandAction::ShowCurrentDir(9)));
    assert_eq!(handle_command("ls", 9), Some(CommandAction::ListDirectory(9)));
    assert_eq!(handle_command("ls 12", 9), Some(CommandAction::ListDirectory(12)));
    assert_eq!(handle_command("ls abc", 9), Some(CommandAction::ListDirectory(0)));
    assert_eq!(
        handle_command("cf txt.notes", 3),
        Some(CommandAction::CreateFile { name: "txt.notes".to_string(), dir: 3 })
    );
    assert_eq!(handle_command("cf ls", 3), Some(CommandAction::InvalidCommand));
    assert_eq!(handle_command("cf 12", 3), Some(CommandAction::InvalidCommand));
    assert_eq!(handle_command("zb 5", 3), Some(CommandAction::ZeroSector(5)));
    assert_eq!(handle_command("zb", 3), Some(CommandAction::NoAction));
    assert_eq!(handle_command("cr", 3), Some(CommandAction::CreateRoot));
    assert_eq!(handle_command("cdir x", 3), Some(CommandAction::InvalidCommand));
    assert_eq!(handle_command("hello", 3), Some(CommandAction::InvalidCommand));
}

#[test]
fn commands_that_cannot_be_carried_out() {
    assert_eq!(handle_command("", 0), None);
    assert_eq!(handle_command("   ", 0), None);
    assert_eq!(handle_command("cf", 0), None);
}
