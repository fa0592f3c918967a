use umpteen::assembler::{assemble, push_instr, AsmError, Instr, PUSH_PATTERN};
use umpteen::text::is_decimal_text;
use umpteen::value::Value;

fn push(numeral: &str) -> Instr<String> {
    Instr::Push(Value::Number(numeral.to_owned()))
}

#[test]
fn an_empty_listing_is_an_empty_program() {
    assert_eq!(assemble(""), Ok(vec![]));
    assert_eq!(assemble("\n\n\n"), Ok(vec![]));
}

#[test]
fn every_fixed_mnemonic() {
    assert_eq!(
        assemble("TRUE\nFALSE\nPOP\nADD\nSUB\nMUL\nDIV\nMOD\nPRINTLN\n"),
        Ok(vec![
            Instr::True,
            Instr::False,
            Instr::Pop,
            Instr::Add,
            Instr::Sub,
            Instr::Mul,
            Instr::Div,
            Instr::Mod,
            Instr::PrintLn,
        ])
    );
}

#[test]
fn push_takes_the_numeral_as_written() {
    assert_eq!(assemble("PUSH 3.14"), Ok(vec![push("3.14")]));
    assert_eq!(assemble("PUSH 32"), Ok(vec![push("32")]));
    assert_eq!(assemble("PUSH 5."), Ok(vec![push("5.")]));
    assert_eq!(assemble("PUSH 007"), Ok(vec![push("007")]));
    assert_eq!(assemble("PUSH \t  42"), Ok(vec![push("42")]));
}

#[test]
fn blank_lines_are_passed_over_anywhere() {
    assert_eq!(
        assemble("\nPUSH 1\n\n\nPUSH 2\nADD\n\n"),
        Ok(vec![push("1"), push("2"), Instr::Add])
    );
}

#[test]
fn lines_may_end_in_carriage_return_line_feed() {
    assert_eq!(
        assemble("PUSH 1\r\n\r\nPRINTLN\r\n"),
        Ok(vec![push("1"), Instr::PrintLn])
    );
    assert_eq!(assemble("POP\nADD"), Ok(vec![Instr::Pop, Instr::Add]));
}

#[test]
fn an_unknown_mnemonic_fails_with_the_line() {
    assert_eq!(assemble("FOO"), Err(AsmError::UnknownInstruction("FOO".to_owned())));
    assert_eq!(assemble("add"), Err(AsmError::UnknownInstruction("add".to_owned())));
    assert_eq!(assemble("ADD "), Err(AsmError::UnknownInstruction("ADD ".to_owned())));
    assert_eq!(assemble(" "), Err(AsmError::UnknownInstruction(" ".to_owned())));
    assert_eq!(assemble("PUSHX"), Err(AsmError::UnknownInstruction("PUSHX".to_owned())));
    assert_eq!(assemble("PUSHX 1"), Err(AsmError::UnknownInstruction("PUSHX 1".to_owned())));
    assert_eq!(assemble("PUSH1"), Err(AsmError::UnknownInstruction("PUSH1".to_owned())));
    assert_eq!(
        assemble("caf\u{e9}"),
        Err(AsmError::UnknownInstruction("caf\u{e9}".to_owned()))
    );
    assert_eq!(assemble("ADD\r"), Err(AsmError::UnknownInstruction("ADD\r".to_owned())));
}

#[test]
fn push_without_a_number_misses_its_argument() {
    assert_eq!(assemble("PUSH"), Err(AsmError::MissingArgument));
    assert_eq!(assemble("PUSH "), Err(AsmError::MissingArgument));
    assert_eq!(assemble("PUSH abc"), Err(AsmError::MissingArgument));
    assert_eq!(assemble("PUSH .5"), Err(AsmError::MissingArgument));
    assert_eq!(assemble("PUSH -1"), Err(AsmError::MissingArgument));
    assert_eq!(assemble("PUSH\t"), Err(AsmError::MissingArgument));
}

#[test]
fn a_numeral_that_is_not_ascii_decimal_misses_its_argument() {
    assert_eq!(assemble("PUSH \u{663}"), Err(AsmError::MissingArgument));
    assert_eq!(assemble("PUSH 1\u{663}"), Err(AsmError::MissingArgument));
}

#[test]
fn a_line_that_only_holds_a_push_is_no_push() {
    assert_eq!(assemble("XPUSH 1"), Err(AsmError::UnknownInstruction("XPUSH 1".to_owned())));
    assert_eq!(assemble("  PUSH 7"), Err(AsmError::UnknownInstruction("  PUSH 7".to_owned())));
    assert_eq!(
        assemble("xPUSH 1.5.2"),
        Err(AsmError::UnknownInstruction("xPUSH 1.5.2".to_owned()))
    );
    assert_eq!(
        assemble("PUSH\u{a0}1"),
        Err(AsmError::UnknownInstruction("PUSH\u{a0}1".to_owned()))
    );
    assert_eq!(assemble("PUSH 12abc"), Err(AsmError::MissingArgument));
    assert_eq!(assemble("PUSH x PUSH 3"), Err(AsmError::MissingArgument));
    assert_eq!(assemble("PUSH 3 "), Err(AsmError::MissingArgument));
    assert_eq!(assemble("PUSH 1.5.2"), Err(AsmError::MissingArgument));
    assert_eq!(assemble("PUSH 1 2"), Err(AsmError::MissingArgument));
    assert_eq!(assemble("PUSH 3 # three"), Err(AsmError::MissingArgument));
    assert_eq!(assemble("PUSH\u{a0} 1"), Err(AsmError::UnknownInstruction("PUSH\u{a0} 1".to_owned())));
}

#[test]
fn white_space_before_the_numeral_is_ascii() {
    assert_eq!(assemble("PUSH \t\x0c 5"), Ok(vec![push("5")]));
    assert_eq!(assemble("PUSH \u{a0}5"), Err(AsmError::MissingArgument));
    assert_eq!(assemble("PUSH \x0b5"), Err(AsmError::MissingArgument));
}

#[test]
fn the_first_error_wins_and_nothing_is_returned() {
    assert_eq!(
        assemble("ADD\nFOO\nPUSH\n"),
        Err(AsmError::UnknownInstruction("FOO".to_owned()))
    );
    assert_eq!(assemble("PUSH 1\nPUSH\nFOO"), Err(AsmError::MissingArgument));
}

#[test]
fn decimal_numerals() {
    for good in ["0", "42", "3.14", "5.", "000.000", "12345678901234567890123"] {
        assert!(is_decimal_text(good), "{}", good);
    }
    for bad in ["", ".", ".5", "1.2.3", "1e5", "-1", "+1", " 1", "1 ", "1.a", "a", "\u{663}"] {
        assert!(!is_decimal_text(bad), "{}", bad);
    }
}

#[test]
fn every_pushed_numeral_is_decimal() {
    let program = assemble("PUSH 1\nPUSH 2.50\nPUSH   9.\nTRUE").unwrap();
    let mut pushes = 0;
    for instr in program {
        if let Instr::Push(value) = instr {
            match value {
                Value::Number(numeral) => {
                    assert!(is_decimal_text(&numeral));
                    assert!(numeral.parse::<f64>().is_ok());
                    pushes += 1;
                }
                Value::Bool(_) => panic!("the assembler pushes numbers only"),
            }
        }
    }
    assert_eq!(pushes, 3);
}

#[test]
fn a_push_line_from_what_the_pattern_captured() {
    assert_eq!(push_instr("PUSH 3.14", Some("3.14".to_owned())), Ok(push("3.14")));
    assert_eq!(push_instr("PUSH \t 8", Some("8".to_owned())), Ok(push("8")));
    assert_eq!(
        push_instr("PUSH 3.14", Some("PUSH 3.14".to_owned())),
        Err(AsmError::MissingArgument)
    );
    assert_eq!(push_instr("PUSH 3.14", Some("14".to_owned())), Err(AsmError::MissingArgument));
    assert_eq!(push_instr("PUSH 3.14", Some("3.1".to_owned())), Err(AsmError::MissingArgument));
    assert_eq!(push_instr("PUSH 12abc", Some("12".to_owned())), Err(AsmError::MissingArgument));
    assert_eq!(push_instr("PUSH3", Some("3".to_owned())), Err(AsmError::UnknownInstruction("PUSH3".to_owned())));
    assert_eq!(push_instr("PUSH x", Some("".to_owned())), Err(AsmError::MissingArgument));
    assert_eq!(push_instr("PUSH ", Some("".to_owned())), Err(AsmError::MissingArgument));
    assert_eq!(
        push_instr("XPUSH 1", Some("1".to_owned())),
        Err(AsmError::UnknownInstruction("XPUSH 1".to_owned()))
    );
    assert_eq!(
        push_instr("anything", Some("8".to_owned())),
        Err(AsmError::UnknownInstruction("anything".to_owned()))
    );
    assert_eq!(push_instr("PUSH", None), Err(AsmError::MissingArgument));
    assert_eq!(push_instr("PUSH 1", None), Err(AsmError::MissingArgument));
    assert_eq!(push_instr("PUSH\tx", None), Err(AsmError::MissingArgument));
    assert_eq!(
        push_instr("PUSHY", None),
        Err(AsmError::UnknownInstruction("PUSHY".to_owned()))
    );
    assert_eq!(push_instr("FOO", None), Err(AsmError::UnknownInstruction("FOO".to_owned())));
    assert_eq!(push_instr("PUS", None), Err(AsmError::UnknownInstruction("PUS".to_owned())));
}

#[test]
fn the_push_pattern_text() {
    assert_eq!(PUSH_PATTERN, r"^PUSH\s+(\d+(?:\.(?:\d*)?)?)$");
}

#[test]
fn listing_lines_are_those_of_the_standard_library() {
    let listings = [
        "ADD",
        "ADD\n",
        "ADD\r\n",
        "\nADD\n\nPOP\r\n\r\nMUL",
        "ADD\n\n\n",
        "TRUE\r\nFALSE\r\nPRINTLN\r\n",
    ];
    for listing in listings {
        let lines = listing.lines().filter(|line| !line.is_empty()).count();
        assert_eq!(assemble(listing).unwrap().len(), lines, "{:?}", listing);
    }
    for listing in ["ADD\r", "ADD\r\r\n", "\rADD", "ADD\n\r"] {
        let first_odd = listing
            .lines()
            .find(|line| !line.is_empty() && *line != "ADD")
            .unwrap();
        assert_eq!(
            assemble(listing),
            Err(AsmError::UnknownInstruction(first_odd.to_owned())),
            "{:?}",
            listing
        );
    }
}
