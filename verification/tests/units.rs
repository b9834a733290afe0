//! Unit tests of the pipeline's pieces: the lexer, the literal retagging
//! and parsing, numeric text, and the parser's error cases.

use stacklang::head::{Lexeme, Object, TokId, Value};
use stacklang::lexer::{lexer_file, lexmap_contains_value};
use stacklang::numbers::{i32_to_text, int_sqrt_i32, is_float_text, parse_i32};
use stacklang::ops::array2string;
use stacklang::parser::{parse_file, validate_name, ParseErr};

fn lex(src: &str) -> Vec<(TokId, String)> {
    lexer_file(&String::from(src)).into_iter().map(|l| (l.id, l.rep)).collect()
}

#[test]
fn symbol_table_finds_keywords_and_operators() {
    assert_eq!(lexmap_contains_value("fun"), Some(TokId::FUNCTION));
    assert_eq!(lexmap_contains_value("=>"), Some(TokId::RETURNINGASSIGNMENT));
    assert_eq!(lexmap_contains_value("=="), Some(TokId::EQUALS));
    assert_eq!(lexmap_contains_value("<="), Some(TokId::SMALLEREQUALS));
    assert_eq!(lexmap_contains_value("is"), Some(TokId::IS));
    assert_eq!(lexmap_contains_value("nope"), None);
}

#[test]
fn lexer_splits_words_and_symbols() {
    assert_eq!(
        lex("3 4 +"),
        vec![
            (TokId::UNKNOWN, "3".to_string()),
            (TokId::UNKNOWN, "4".to_string()),
            (TokId::PLUS, "+".to_string()),
        ]
    );
}

#[test]
fn lexer_longest_match_resolves_two_char_symbols() {
    assert_eq!(
        lex("= == => < <= > >="),
        vec![
            (TokId::ASSIGNMENT, "=".to_string()),
            (TokId::EQUALS, "==".to_string()),
            (TokId::RETURNINGASSIGNMENT, "=>".to_string()),
            (TokId::SMALLER, "<".to_string()),
            (TokId::SMALLEREQUALS, "<=".to_string()),
            (TokId::BIGGER, ">".to_string()),
            (TokId::BIGGEREQUALS, ">=".to_string()),
        ]
    );
}

#[test]
fn lexer_reads_both_quote_styles() {
    assert_eq!(
        lex("\"a'b\" 'c\"d'"),
        vec![
            (TokId::STRING, "a'b".to_string()),
            (TokId::STRING, "c\"d".to_string()),
        ]
    );
}

#[test]
fn lexer_emits_linebreaks_before_the_pending_word() {
    assert_eq!(
        lex("ab\ncd"),
        vec![
            (TokId::LINEBREAK, "\n".to_string()),
            (TokId::UNKNOWN, "ab".to_string()),
            (TokId::UNKNOWN, "cd".to_string()),
        ]
    );
}

#[test]
fn parse_i32_accepts_signs_and_rejects_overflow() {
    assert_eq!(parse_i32("0"), Some(0));
    assert_eq!(parse_i32("-42"), Some(-42));
    assert_eq!(parse_i32("+7"), Some(7));
    assert_eq!(parse_i32("2147483647"), Some(2147483647));
    assert_eq!(parse_i32("-2147483648"), Some(-2147483648));
    assert_eq!(parse_i32("2147483648"), None);
    assert_eq!(parse_i32(""), None);
    assert_eq!(parse_i32("-"), None);
    assert_eq!(parse_i32("1x"), None);
}

#[test]
fn i32_to_text_is_canonical() {
    assert_eq!(i32_to_text(0), "0");
    assert_eq!(i32_to_text(-5), "-5");
    assert_eq!(i32_to_text(1234), "1234");
    assert_eq!(i32_to_text(i32::MIN), "-2147483648");
}

#[test]
fn int_sqrt_takes_floors() {
    assert_eq!(int_sqrt_i32(0), 0);
    assert_eq!(int_sqrt_i32(1), 1);
    assert_eq!(int_sqrt_i32(8), 2);
    assert_eq!(int_sqrt_i32(9), 3);
    assert_eq!(int_sqrt_i32(2147483647), 46340);
    assert_eq!(int_sqrt_i32(-4), 0);
}

#[test]
fn float_grammar_matches_the_host_parser() {
    for t in ["1.5", "-.5", "3.", "1e5", "2E-3", "inf", "Infinity", "NaN", "+4"] {
        assert!(is_float_text(t), "{} should be a float literal", t);
        assert!(t.parse::<f64>().is_ok());
    }
    for t in ["", ".", "e5", "1e", "--1", "1.2.3", "abc"] {
        assert!(!is_float_text(t), "{} should not be a float literal", t);
        assert!(t.parse::<f64>().is_err());
    }
}

#[test]
fn validate_name_enforces_identifier_shape() {
    assert!(validate_name(&"sq".to_string()));
    assert!(validate_name(&"_x9".to_string()));
    assert!(!validate_name(&"9bad".to_string()));
    assert!(!validate_name(&"while".to_string()));
    assert!(!validate_name(&"a-b".to_string()));
}

#[test]
fn parser_collects_global_and_function_bodies() {
    let lexed = lexer_file(&String::from("1 2 fun f x as x ret end 3"));
    let fmap = parse_file(lexed).expect("parses");
    let g = fmap.get("_global").expect("global exists");
    assert_eq!(g.stack.len(), 3);
    assert_eq!(g.stack[0].id, TokId::INT);
    let f = fmap.get("f").expect("f exists");
    assert_eq!(f.arguments.len(), 1);
    assert_eq!(f.arguments[0].id, TokId::UNKNOWN);
    assert_eq!(f.stack.len(), 2);
}

#[test]
fn parser_retags_literals() {
    let lexed = lexer_file(&String::from("true 4 4.5 name"));
    let fmap = parse_file(lexed).expect("parses");
    let g = fmap.get("_global").expect("global exists");
    let kinds: Vec<TokId> = g.stack.iter().map(|o| o.id).collect();
    assert_eq!(kinds, vec![TokId::BOOLEAN, TokId::INT, TokId::FLOAT, TokId::UNKNOWN]);
}

#[test]
fn parser_builds_array_literals() {
    let lexed = lexer_file(&String::from("[ 1 \"s\" ]"));
    let fmap = parse_file(lexed).expect("parses");
    let g = fmap.get("_global").expect("global exists");
    assert_eq!(g.stack.len(), 1);
    assert_eq!(g.stack[0].id, TokId::ARRAY);
    match &g.stack[0].rep {
        Value::ARR(items) => {
            assert_eq!(items.len(), 2);
            assert_eq!(items[0].id, TokId::INT);
            assert_eq!(items[1].id, TokId::STRING);
        },
        Value::STR(_) => panic!("expected an array payload"),
    }
}

#[test]
fn parser_rejects_stray_end() {
    let lexed = lexer_file(&String::from("1 end"));
    assert_eq!(parse_file(lexed).err(), Some(ParseErr::StrayEnd));
}

#[test]
fn parser_rejects_nested_function() {
    let lexed = lexer_file(&String::from("fun f as fun g as end end"));
    assert_eq!(parse_file(lexed).err(), Some(ParseErr::NestedFunction));
}

#[test]
fn parser_rejects_reserved_function_name() {
    let lexed = lexer_file(&String::from("fun hello? as end"));
    assert_eq!(parse_file(lexed).err(), Some(ParseErr::BadName));
}

#[test]
fn parser_rejects_truncated_header() {
    let lexed = lexer_file(&String::from("fun f x"));
    assert_eq!(parse_file(lexed).err(), Some(ParseErr::IncompleteHeader));
}

#[test]
fn array2string_quotes_strings_and_recurses() {
    let arr = vec![
        Object { id: TokId::INT, rep: Value::STR("1".to_string()) },
        Object { id: TokId::STRING, rep: Value::STR("s".to_string()) },
        Object {
            id: TokId::ARRAY,
            rep: Value::ARR(vec![Object { id: TokId::INT, rep: Value::STR("2".to_string()) }]),
        },
    ];
    assert_eq!(array2string(arr), "[ 1 \"s\" [ 2 ] ]");
}

#[test]
fn objects_compare_structurally() {
    let a = Object { id: TokId::INT, rep: Value::STR("3".to_string()) };
    let b = Object { id: TokId::INT, rep: Value::STR("3".to_string()) };
    let c = Object { id: TokId::STRING, rep: Value::STR("3".to_string()) };
    assert!(a.equal(&b));
    assert!(!a.equal(&c));
    assert_eq!(a.duplicate().id, TokId::INT);
}

#[test]
fn lexeme_kinds_round_trip_through_the_table() {
    let l = Lexeme { id: TokId::WHILE, rep: "while".to_string() };
    assert_eq!(lexmap_contains_value(&l.rep), Some(l.id));
}

#[test]
fn loop_and_brackets_are_in_the_symbol_table() {
    assert_eq!(lexmap_contains_value("loop"), Some(TokId::LOOP));
    assert_eq!(lexmap_contains_value("["), Some(TokId::ARRAYBEGIN));
    assert_eq!(lexmap_contains_value("]"), Some(TokId::ARRAYEND));
}

#[test]
fn validate_name_is_ascii_only_and_nonempty() {
    assert!(!validate_name(&"".to_string()));
    assert!(!validate_name(&"café".to_string()));
    assert!(!validate_name(&"loop".to_string()));
    assert!(validate_name(&"x_1".to_string()));
}
