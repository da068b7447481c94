use decert::conf::{coder, conf_from_text};
use decert::parse::{parse, Keyword, Symbol, Token};

fn lit(t: &Token) -> Option<&str> {
    match t {
        Token::Literal(s) => Some(s.as_str()),
        _ => None,
    }
}

const SAMPLE: &str = "IN a, b\nOUT c\nINIT_CONDITIONS boot\n\n@requires boot\nTask read(Temp, Gyro) 10\n@satisfies sampled\n@requires sampled\nTask send() 3\n@satisfies\n";

#[test]
fn tokens_of_a_header_line() {
    let ts = parse("IN a , b,\n").unwrap();
    assert_eq!(ts.len(), 5);
    assert!(matches!(ts[0], Token::Keyword(Keyword::IN)));
    assert!(matches!(ts[1], Token::Symbol(Symbol::StartArray)));
    assert_eq!(lit(&ts[2]), Some("a"));
    assert_eq!(lit(&ts[3]), Some("b"));
    assert!(matches!(ts[4], Token::Symbol(Symbol::EndArray)));
}

#[test]
fn tokens_of_a_task_line() {
    let ts = parse("  Task read(Temp, Gyro) 10  ").unwrap();
    assert_eq!(ts.len(), 7);
    assert!(matches!(ts[0], Token::Keyword(Keyword::TASK)));
    assert_eq!(lit(&ts[1]), Some("read"));
    assert_eq!(lit(&ts[3]), Some("Temp"));
    assert_eq!(lit(&ts[4]), Some("Gyro"));
    assert_eq!(lit(&ts[6]), Some("10"));
}

#[test]
fn init_conditions_is_not_taken_for_in() {
    let ts = parse("IN a\nINIT_CONDITIONS x\n").unwrap();
    assert!(matches!(ts[4], Token::Keyword(Keyword::INIT_CONDITIONS)));
}

#[test]
fn other_lines_are_skipped() {
    assert!(parse("# a comment\n\n   \n").unwrap().is_empty());
}

#[test]
fn refused_lines() {
    assert_eq!(parse("IN a\nIN b").unwrap_err(), "Another IN found");
    assert_eq!(parse("OUT a\nOUT b").unwrap_err(), "Another OUT found");
    assert_eq!(parse("INIT_CONDITIONS a\nINIT_CONDITIONS b").unwrap_err(), "Another INIT_CONDITIONS found");
    assert_eq!(parse("@wants x").unwrap_err(), "Unknown keyword after @");
    assert_eq!(parse("Task t 3").unwrap_err(), "Missing '(' after task name");
    assert_eq!(parse("Task t( 3").unwrap_err(), "Missing ')' after task args");
    assert_eq!(parse("Task t() x").unwrap_err(), "Cycle must be a number");
    assert_eq!(parse("Task t() 70000").unwrap_err(), "Cycle must be a number");
}

#[test]
fn configuration_from_text() {
    let conf = conf_from_text(SAMPLE).unwrap();
    assert_eq!(conf.inports, vec!["a", "b"]);
    assert_eq!(conf.outports, vec!["c"]);
    assert_eq!(conf.initial, vec!["boot"]);
    assert_eq!(conf.tasks.len(), 2);
    assert_eq!(conf.tasks[0].name, "read");
    assert_eq!(conf.tasks[0].args, vec!["Temp", "Gyro"]);
    assert_eq!(conf.tasks[0].requires, vec!["boot"]);
    assert_eq!(conf.tasks[0].satisfies, vec!["sampled"]);
    assert_eq!(conf.tasks[0].cycles, 10);
    assert_eq!(conf.tasks[1].name, "send");
    assert!(conf.tasks[1].args.is_empty());
    assert!(conf.tasks[1].satisfies.is_empty());
    assert_eq!(conf.tasks[1].cycles, 3);
}

#[test]
fn header_must_come_first() {
    assert!(conf_from_text("OUT c\nIN a\nINIT_CONDITIONS\n").is_err());
    assert!(conf_from_text("IN a\nOUT c\n").is_err());
}

#[test]
fn incomplete_task_is_refused() {
    assert!(conf_from_text("IN\nOUT\nINIT_CONDITIONS\n@requires\nTask t() 1\n").is_err());
}

#[test]
fn coder_reads_tokens() {
    let tokens = parse("IN\nOUT\nINIT_CONDITIONS\n@requires\nTask t(S) 4\n@satisfies done\n").unwrap();
    let conf = coder(tokens).unwrap();
    assert_eq!(conf.tasks.len(), 1);
    assert_eq!(conf.tasks[0].name, "t");
    assert_eq!(conf.tasks[0].args, vec!["S"]);
    assert_eq!(conf.tasks[0].satisfies, vec!["done"]);
    assert_eq!(conf.tasks[0].cycles, 4);
}
