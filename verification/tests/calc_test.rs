use yozuk_skills::calc::eval::{eval, CalcError};
use yozuk_skills::calc::skill::{calc_media_type_is_itself, CalcCommand, CalcParser, CalcPreprocessor, CalcTranslator};
use yozuk_skills::text::chars_of;
use yozuk_skills::token::{Block, CommandArgs, Token};

fn calculate(text: &str) -> Option<Result<String, CalcError>> {
    let tree = CalcParser::parse(text)?;
    let cs = chars_of(text);
    match eval(&cs, &tree)? {
        Ok(v) => Some(Ok(v.to_text())),
        Err(e) => Some(Err(e)),
    }
}

fn value(text: &str) -> String {
    calculate(text).unwrap().unwrap()
}

#[test]
fn precedence_and_grouping() {
    assert_eq!(value("1+2*3"), "7");
    assert_eq!(value("2*(3+4)"), "14");
    assert_eq!(value("10-4-3"), "3");
    assert_eq!(value("2*3/4"), "1.5");
    assert_eq!(value(" ( 1 + 2 ) * 3 "), "9");
}

#[test]
fn signed_numbers_and_whitespace() {
    assert_eq!(value("1 - -2"), "3");
    assert_eq!(value("-5+2"), "-3");
    assert_eq!(value("+4*\t2"), "8");
}

#[test]
fn decimal_literals_keep_their_scale() {
    assert_eq!(value("0.10+0.20"), "0.30");
    assert_eq!(value("1.5e2"), "150");
    assert_eq!(value("2.5E-1"), "0.25");
    assert_eq!(value("1."), "1");
    assert_eq!(value("3-1.25"), "1.75");
}

#[test]
fn products_with_one() {
    assert_eq!(value("2*0.5"), "1.0");
    assert_eq!(value("1*0.5"), "0.5");
    assert_eq!(value("0.5*1.0"), "0.5");
}

#[test]
fn divisions() {
    assert_eq!(value("1/4"), "0.25");
    assert_eq!(value("6/3"), "2");
    assert_eq!(value("0/7"), "0");
    assert_eq!(value("7/7"), "1");
    let third = value("1/3");
    assert!(third.starts_with("0.3333333333"));
    assert_eq!(third.len(), 102);
}

#[test]
fn long_exponents_and_scale_overflow() {
    assert_eq!(value("1e00000000000000000001+1"), "11");
    assert_eq!(calculate("2e9223372036854775807*1e2"), None);
    assert_eq!(calculate("1e9223372036854775807+1e-9223372036854775807"), None);
    assert_eq!(calculate("1e9223372036854775807-1e-9223372036854775807"), None);
    assert_eq!(calculate("1e-9223372036854775807/3"), None);
    let args = CommandArgs { args: vec!["calc".to_string(), "1e-9223372036854775808+1".to_string()] };
    assert!(!CalcCommand.numbers_readable(&args));
    let args = CommandArgs { args: vec!["calc".to_string(), "1e00000000000000000001*2".to_string()] };
    assert!(CalcCommand.numbers_readable(&args));
    match &CalcCommand.run(&args).unwrap().unwrap().blocks[..] {
        [Block::Text(t, _)] => assert_eq!(t, "20"),
        _ => panic!("unexpected blocks"),
    }
    assert!(calc_media_type_is_itself());
}

#[test]
fn division_by_zero() {
    assert_eq!(calculate("5/0"), Some(Err(CalcError::DivisionByZero)));
    assert_eq!(calculate("1+(2/(1-1))"), Some(Err(CalcError::DivisionByZero)));
    assert_eq!(CalcError::DivisionByZero.message(), "Division by zero");
}

#[test]
fn rejected_texts() {
    assert!(CalcParser::parse("1+").is_none());
    assert!(CalcParser::parse("(1+2").is_none());
    assert!(CalcParser::parse("1 2").is_none());
    assert!(CalcParser::parse("1.5.3").is_none());
    assert!(CalcParser::parse("- 1").is_none());
    assert!(CalcParser::parse("").is_none());
    assert!(CalcParser::parse("apple").is_none());
    assert!(CalcParser::parse("1e").is_none());
}

#[test]
fn single_numbers() {
    assert!(CalcParser::single_num("12"));
    assert!(CalcParser::single_num(" -1.5e3 "));
    assert!(!CalcParser::single_num("1+2"));
    assert!(!CalcParser::single_num("(1)"));
}

fn texts(ts: &[Token]) -> Vec<(String, String)> {
    ts.iter().map(|t| (t.data.clone(), t.media_type.clone())).collect()
}

#[test]
fn preprocessor_merges_expressions() {
    let out = CalcPreprocessor.preprocess(vec![
        Token::plain("1"),
        Token::plain("+"),
        Token::plain("2"),
        Token::plain("apples"),
    ]);
    assert_eq!(
        texts(&out),
        vec![
            ("1+2".to_string(), "text/vnd.yozuk.calc".to_string()),
            ("apples".to_string(), "text/plain".to_string()),
        ]
    );
}

#[test]
fn preprocessor_keeps_single_numbers() {
    let out = CalcPreprocessor.preprocess(vec![Token::plain("12")]);
    assert_eq!(texts(&out), vec![("12".to_string(), "text/plain".to_string())]);
}

#[test]
fn preprocessor_passes_the_token_after_an_expression() {
    let out = CalcPreprocessor.preprocess(vec![
        Token::plain("what"),
        Token::plain("is"),
        Token::plain("3*4"),
    ]);
    assert_eq!(
        texts(&out),
        vec![
            ("what".to_string(), "text/plain".to_string()),
            ("is".to_string(), "text/plain".to_string()),
            ("3*4".to_string(), "text/vnd.yozuk.calc".to_string()),
        ]
    );
    let out = CalcPreprocessor.preprocess(vec![
        Token::plain("3"),
        Token::plain("*"),
        Token::plain("4"),
        Token::plain("5"),
        Token::plain("6"),
    ]);
    assert_eq!(
        texts(&out),
        vec![
            ("3*456".to_string(), "text/vnd.yozuk.calc".to_string()),
        ]
    );
    let out = CalcPreprocessor.preprocess(vec![
        Token::plain("3*4"),
        Token::plain("x"),
        Token::plain("1+1"),
    ]);
    assert_eq!(
        texts(&out),
        vec![
            ("3*4".to_string(), "text/vnd.yozuk.calc".to_string()),
            ("x".to_string(), "text/plain".to_string()),
            ("1+1".to_string(), "text/vnd.yozuk.calc".to_string()),
        ]
    );
}

#[test]
fn preprocessor_keeps_the_text() {
    let input = vec![
        Token::plain("1+1"),
        Token::plain("2+2"),
        Token::plain("and"),
        Token::plain("7"),
    ];
    let joined: String = input.iter().map(|t| t.data.clone()).collect();
    let out = CalcPreprocessor.preprocess(input);
    let joined_out: String = out.iter().map(|t| t.data.clone()).collect();
    assert_eq!(joined, joined_out);
    assert_eq!(out[0].data, "1+12+2");
}

#[test]
fn translator_takes_one_calculation() {
    let calc = Token::new("1+2", "text/vnd.yozuk.calc", "");
    let r = CalcTranslator.parse(&vec![calc]).unwrap();
    assert_eq!(r.args, vec!["1+2".to_string()]);
    let two = vec![
        Token::new("1+2", "text/vnd.yozuk.calc", ""),
        Token::new("3", "text/vnd.yozuk.calc", ""),
    ];
    assert!(CalcTranslator.parse(&two).is_none());
    assert!(CalcTranslator.parse(&vec![Token::plain("1+2")]).is_none());
    assert!(CalcTranslator.parse(&vec![]).is_none());
}

#[test]
fn command_shows_the_result() {
    let args = CommandArgs { args: vec!["calc".to_string(), "1+2".to_string()] };
    let out = CalcCommand.run(&args).unwrap().unwrap();
    assert_eq!(out.title, "Calculator");
    match &out.blocks[..] {
        [Block::Text(t, m)] => {
            assert_eq!(t, "3");
            assert_eq!(m, "text/plain");
        }
        _ => panic!("unexpected blocks"),
    }
    let args = CommandArgs { args: vec!["calc".to_string(), "1/0".to_string()] };
    let err = CalcCommand.run(&args).unwrap().unwrap_err();
    match &err.blocks[..] {
        [Block::Comment(t)] => assert_eq!(t, "Division by zero"),
        _ => panic!("unexpected blocks"),
    }
}

#[test]
fn whole_expression_becomes_one_command() {
    let out = CalcPreprocessor.preprocess(vec![Token::plain("1"), Token::plain("+"), Token::plain("2")]);
    assert_eq!(texts(&out), vec![("1+2".to_string(), "text/vnd.yozuk.calc".to_string())]);
    let cmd = CalcTranslator.parse(&out).unwrap();
    assert_eq!(cmd.args, vec!["1+2".to_string()]);
}

#[test]
fn single_number_is_a_calculation() {
    assert!(CalcParser::parse(" 12 ").is_some());
    assert_eq!(value(" 12 "), "12");
    assert_eq!(value("-0.5e1"), "-5");
}

#[test]
fn no_division_no_error() {
    assert_eq!(value("1-1"), "0");
    assert_eq!(value("(1-1)*5"), "0");
}
