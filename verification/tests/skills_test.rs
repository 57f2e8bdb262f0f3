use yozuk_skills::bech32_skill::{Bech32Command, Bech32Translator};
use yozuk_skills::compression::{
    Args as CompressionArgs, CompressionCommand, CompressionCorpus, CompressionSource, CompressionSuggestions, CompressionTranslator,
};
use yozuk_skills::modelgen::{generate_wordiness, modelgen, negative_labels, positive_labels};
use yozuk_skills::time::{Args as TimeArgs, TimeCommand, TimeCorpus, TimeTranslator};
use yozuk_skills::token::{Block, Token};
use yozuk_skills::unit::{parse_value, values_parse_safely_exec, Args as UnitArgs, UnitCommand, UnitCorpus, UnitEntry, UnitTranslator};
use yozuk_skills::decimal::{from_str_would_overflow, is_readable_literal};

fn strings(v: &[&str]) -> Vec<String> {
    v.iter().map(|s| s.to_string()).collect()
}

#[test]
fn bech32_translator_accepts_only_valid_strings() {
    let ok = vec![Token::plain("a12uel5l"), Token::plain("a1lqfn3a")];
    assert_eq!(Bech32Translator.parse(&ok).unwrap().args, strings(&["a12uel5l", "a1lqfn3a"]));
    let bad = vec![Token::plain("a12uel5l"), Token::plain("a12uel5m")];
    assert!(Bech32Translator.parse(&bad).is_none());
}

#[test]
fn bech32_command_decodes() {
    let out = Bech32Command.run(&strings(&[
        "abcdef1qpzry9x8gf2tvdw0s3jn54khce6mua7lmqqqxw",
        "not bech32",
        "a1lqfn3a",
    ]));
    assert_eq!(out.title, "Bech32 Decoder");
    assert_eq!(out.blocks.len(), 6);
    match &out.blocks[..3] {
        [Block::Comment(c), Block::TextData(h), Block::Data(d)] => {
            assert_eq!(c, "Decoding Bech32");
            assert_eq!(h, "abcdef");
            assert_eq!(
                d,
                &vec![0, 68, 50, 20, 199, 66, 84, 182, 53, 207, 132, 101, 58, 86, 215, 198, 117, 190, 119, 223]
            );
        }
        _ => panic!("unexpected blocks"),
    }
    match &out.blocks[3..] {
        [Block::Comment(c), Block::TextData(h), Block::Data(d)] => {
            assert_eq!(c, "Decoding Bech32m");
            assert_eq!(h, "a");
            assert!(d.is_empty());
        }
        _ => panic!("unexpected blocks"),
    }
    assert_eq!(Bech32Command.priority(), -100);
}

fn algorithms() -> Vec<Vec<String>> {
    vec![strings(&["gzip", "gz"]), vec![], strings(&["zstd"])]
}

#[test]
fn compression_suggestions_quote_the_input() {
    let args = vec![Token::tagged("Hello World", "input:data"), Token::plain("to")];
    assert_eq!(
        CompressionSuggestions.suggestions(&args, &algorithms()),
        strings(&["'Hello World' to gzip", "'Hello World' to zstd"])
    );
    assert_eq!(
        CompressionSuggestions.suggestions(&vec![], &algorithms()),
        strings(&["'Hello World!' to gzip", "'Hello World!' to zstd"])
    );
    let quoted = vec![Token::tagged("it's", "input:data"), Token::tagged("plain", "input:data")];
    assert_eq!(
        CompressionSuggestions.suggestions(&quoted, &vec![strings(&["lz4"])]),
        strings(&["'it'\\''s' plain to lz4"])
    );
}

#[test]
fn compression_corpus() {
    let corpus = CompressionCorpus.training_data(&algorithms());
    assert_eq!(corpus.len(), 4 * 4 * 3 + 3);
    let first: Vec<(String, String)> = corpus[0].iter().map(|t| (t.data.clone(), t.tag.clone())).collect();
    assert_eq!(
        first,
        vec![
            ("Hello World".to_string(), "input:data".to_string()),
            ("as".to_string(), "".to_string()),
            ("gzip".to_string(), "input:alg".to_string()),
        ]
    );
    assert_eq!(corpus[1][2].data, "gz");
    assert_eq!(corpus[3][1].data, "to");
    assert_eq!(corpus[12][0].data, "\u{1f60d}\u{1f617}\u{1f60b}");
    assert_eq!(corpus[48].len(), 1);
    assert_eq!(corpus[50][0].data, "zstd");
    assert_eq!(corpus[50][0].tag, "input:alg");
}

#[test]
fn compression_translator() {
    let args = vec![
        Token::tagged("hello", "input:data"),
        Token::plain("to"),
        Token::tagged("gzip", "input:alg"),
    ];
    let r = CompressionTranslator.generate_command(&args, &vec![false, false, true]).unwrap();
    assert_eq!(r.args, strings(&["--input", "hello", "--algorithm", "gzip"]));
    assert!(CompressionTranslator.generate_command(&args, &vec![false, false, false]).is_none());
    let no_alg = vec![Token::tagged("hello", "input:data")];
    assert!(CompressionTranslator.generate_command(&no_alg, &vec![true]).is_none());
}

#[test]
fn compression_command() {
    let args = |alg: &str, input: &[&str]| CompressionArgs { algorithm: alg.to_string(), input: strings(input) };
    match CompressionCommand.source(&args("gzip", &["abc", "def"]), 1) {
        CompressionSource::Input(s) => assert_eq!(s, "abc"),
        _ => panic!("expected the first input"),
    }
    assert!(matches!(CompressionCommand.source(&args("gzip", &[]), 2), CompressionSource::Stream));
    assert!(matches!(CompressionCommand.source(&args("gzip", &[]), 0), CompressionSource::Nothing));
    let ok = CompressionCommand.output(&args("gzip", &[]), Some(vec![1, 2, 3])).unwrap();
    assert_eq!(ok.title, "Compression");
    assert_eq!(ok.docs, strings(&["https://docs.yozuk.com/docs/skills/compression/"]));
    assert!(matches!(&ok.blocks[..], [Block::Data(d)] if d == &vec![1, 2, 3]));
    let err = CompressionCommand.output(&args("foo", &[]), None).unwrap_err();
    assert!(matches!(&err.blocks[..], [Block::Comment(c)] if c == "Unsupprted algorithm: foo"));
    assert_eq!(CompressionCommand.priority(), -120);
}

#[test]
fn unit_values() {
    assert_eq!(parse_value("1.5").unwrap().to_text(), "1.5");
    assert_eq!(parse_value("1e3").unwrap().to_text(), "1000");
    assert_eq!(parse_value("-0.050").unwrap().to_text(), "-0.050");
    assert!(parse_value("ten").is_none());
    assert!(parse_value("1e99999999999999999999999").is_none());
    assert_eq!(parse_value("1e00000000000000000001").unwrap().to_text(), "10");
    assert_eq!(parse_value("2.50e+3").unwrap().to_text(), "2500");
}

#[test]
fn decimal_scale_overflow() {
    assert!(from_str_would_overflow("1e-9223372036854775808"));
    assert!(from_str_would_overflow("1.5e-9223372036854775807"));
    assert!(from_str_would_overflow("1.\u{e9}e-9223372036854775806"));
    assert!(!from_str_would_overflow("1.e-9223372036854775806"));
    assert!(!from_str_would_overflow("1e-9223372036854775807"));
    assert!(!from_str_would_overflow("1e9223372036854775807"));
    assert!(!from_str_would_overflow("e-9223372036854775808"));
    assert!(!from_str_would_overflow("1e99999999999999999999"));
    assert!(!from_str_would_overflow("12.5"));
    assert!(is_readable_literal("1e00000000000000000001"));
    assert!(!is_readable_literal("1e99999999999999999999"));
    assert!(!is_readable_literal("1e-9223372036854775808"));
    assert!(is_readable_literal("0.25"));
    assert!(is_readable_literal("1e+5"));
    assert!(!is_readable_literal("1e-+5"));
    assert!(!is_readable_literal("1e9223372036854775808"));
    assert!(is_readable_literal("1e-9223372036854775807"));
    assert_eq!(parse_value("1e++2").unwrap().to_text(), "100");
}

#[test]
fn unit_translator() {
    let args = vec![Token::tagged("1.0", "input:value"), Token::tagged("km", "unit:keyword")];
    let r = UnitTranslator.parse(&args, &vec![false, true]).unwrap();
    assert_eq!(r.args, strings(&["--value", "1.0", "--unit", "km"]));
    assert!(UnitTranslator.parse(&args, &vec![false, false]).is_none());
    let two = vec![
        Token::tagged("1", "input:value"),
        Token::tagged("2", "input:value"),
        Token::tagged("km", "unit:keyword"),
    ];
    assert!(UnitTranslator.parse(&two, &vec![false, false, true]).is_none());
    let bad_value = vec![
        Token::tagged("x", "input:value"),
        Token::tagged("2e2", "input:value"),
        Token::tagged("km", "unit:keyword"),
    ];
    let r = UnitTranslator.parse(&bad_value, &vec![false, false, true]).unwrap();
    assert_eq!(r.args, strings(&["--value", "200", "--unit", "km"]));
    let long_exponent = vec![Token::tagged("1e00000000000000000001", "input:value"), Token::tagged("km", "unit:keyword")];
    assert!(values_parse_safely_exec(&long_exponent));
    let r = UnitTranslator.parse(&long_exponent, &vec![false, true]).unwrap();
    assert_eq!(r.args, strings(&["--value", "10", "--unit", "km"]));
    let overflowing = vec![Token::tagged("1e-9223372036854775808", "input:value")];
    assert!(!values_parse_safely_exec(&overflowing));
}

#[test]
fn translated_value_reads_back() {
    for text in ["1.5e3", "-0.0250", "7", "3.14159", "-2e-3"] {
        let args = vec![Token::tagged(text, "input:value"), Token::tagged("m", "unit:keyword")];
        let cmd = UnitTranslator.parse(&args, &vec![false, true]).unwrap();
        let written = cmd.args[1].clone();
        assert!(is_readable_literal(&written));
        let back = UnitCommand.value(&UnitArgs { value: written.clone(), unit: "m".to_string() }).unwrap();
        assert_eq!(back.to_text(), written);
    }
}

#[test]
fn unit_translator_ignores_other_tokens() {
    let base = vec![Token::tagged("3", "input:value"), Token::tagged("kg", "unit:keyword")];
    let with_extra = vec![
        Token::tagged("3", "input:value"),
        Token::tagged("abc", "input:value"),
        Token::plain("in"),
        Token::tagged("kg", "unit:keyword"),
        Token::tagged("zz", "unit:keyword"),
    ];
    let a = UnitTranslator.parse(&base, &vec![false, true]).unwrap();
    let b = UnitTranslator.parse(&with_extra, &vec![false, false, false, true, false]).unwrap();
    assert_eq!(a.args, b.args);
}

#[test]
fn unit_command() {
    let v = UnitCommand.value(&UnitArgs { value: "1.5".to_string(), unit: "km".to_string() }).unwrap();
    assert_eq!(UnitCommand.base_value(&v, Some(3)).unwrap().to_text(), "1500");
    assert_eq!(UnitCommand.base_value(&v, Some(-2)).unwrap().to_text(), "0.015");
    assert_eq!(UnitCommand.base_value(&v, None).unwrap().to_text(), "1.5");
    let zero = UnitCommand.value(&UnitArgs { value: "0.0".to_string(), unit: "km".to_string() }).unwrap();
    assert_eq!(UnitCommand.base_value(&zero, Some(3)).unwrap().to_text(), "0.0");
    let far = UnitCommand.value(&UnitArgs { value: "1e-9223372036854775807".to_string(), unit: "mm".to_string() }).unwrap();
    assert!(UnitCommand.base_value(&far, Some(-3)).is_none());
    assert_eq!(
        UnitCommand.report(&"1 m".to_string(), &strings(&["100 cm", "1000 mm"])),
        "1 m =\n100 cm\n1000 mm"
    );
    assert_eq!(UnitCommand.priority(), -10);
    let out = UnitCommand.output(&"1 m =\n100 cm".to_string());
    assert_eq!(out.title, "Unit Converter");
    assert!(out.docs.is_empty());
    assert!(matches!(&out.blocks[..], [Block::Text(t, m)] if t == "1 m =\n100 cm" && m == "text/plain"));
}

#[test]
fn unit_corpus() {
    let entries = vec![
        UnitEntry { symbols: strings(&["m"]), prefixes: strings(&["k", "c"]) },
        UnitEntry { symbols: strings(&["g", "gram"]), prefixes: vec![] },
    ];
    let corpus = UnitCorpus.training_data(&entries);
    let keywords: Vec<String> = corpus.iter().map(|s| s[1].data.clone()).collect();
    assert_eq!(keywords, strings(&["km", "cm", "m", "g", "gram"]));
    assert!(corpus.iter().all(|s| s[0].data == "1.0" && s[0].tag == "input:value" && s[1].tag == "unit:keyword"));
}

#[test]
fn time_skill() {
    let corpus = TimeCorpus.training_data();
    assert_eq!(corpus.len(), 3);
    assert_eq!(corpus[2].len(), 5);
    assert_eq!(corpus[2][1].tag, "time:keyword");
    let args = vec![Token::plain("what"), Token::tagged("time", "time:keyword")];
    assert!(TimeTranslator.parse(&args, &vec![false, true]).unwrap().args.is_empty());
    assert!(TimeTranslator.parse(&args, &vec![true, false]).is_none());
    for sentence in &corpus {
        let is_time: Vec<bool> = sentence.iter().map(|t| t.data == "time").collect();
        assert!(TimeTranslator.parse(sentence, &is_time).is_some());
    }
    let out = TimeCommand.run(&TimeArgs {}, &"2022-01-01T00:00:00+00:00".to_string());
    assert_eq!(out.title, "Time");
    assert!(matches!(&out.blocks[..], [Block::Text(t, m)] if t == "2022-01-01T00:00:00+00:00" && m == "text/plain"));
}

#[test]
fn wordiness() {
    let s = generate_wordiness(vec![Token::plain("time")]);
    let texts: Vec<Vec<String>> = s.iter().map(|v| v.iter().map(|t| t.data.clone()).collect()).collect();
    assert_eq!(
        texts,
        vec![strings(&["Yozuk,", "time"]), strings(&["Hi", "Yozuk,", "time"]), strings(&["time"])]
    );
}

#[test]
fn labels() {
    let ts = vec![Token::tagged("a", "-"), Token::tagged("b", "input:data"), Token::plain("c")];
    assert_eq!(positive_labels(&ts), strings(&["-", "input:data", ""]));
    assert_eq!(negative_labels(&ts), strings(&["-", "*", "*"]));
}

#[test]
fn model_layout() {
    let set = modelgen(
        strings(&["calc", "bech32", "time"]),
        vec![("time".to_string(), vec![7, 8]), ("bech32".to_string(), vec![1, 2, 3])],
    );
    assert_eq!(set.keys, strings(&["bech32", "calc", "time"]));
    assert_eq!(set.data, vec![7, 8, 1, 2, 3]);
    assert_eq!(set.ranges, vec![(2, 5), (0, 0), (0, 2)]);
}

#[test]
fn accepted_bech32_strings_are_decoded() {
    let request = vec![Token::plain("a12uel5l"), Token::plain("a1lqfn3a")];
    let cmd = Bech32Translator.parse(&request).unwrap();
    let out = Bech32Command.run(&cmd.args);
    assert_eq!(out.blocks.len(), 3 * request.len());
}

#[test]
fn models_are_found_by_their_keys() {
    let models = vec![("time".to_string(), vec![7, 8]), ("bech32".to_string(), vec![1, 2, 3]), ("calc".to_string(), vec![])];
    let set = modelgen(strings(&["calc", "bech32", "time"]), models.clone());
    for (key, bytes) in models {
        let i = set.keys.iter().position(|k| *k == key).unwrap();
        let (a, b) = set.ranges[i];
        assert_eq!(&set.data[a..b], &bytes[..]);
    }
}
