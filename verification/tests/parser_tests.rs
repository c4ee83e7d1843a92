use edn::parser::{Error, Parser};
use edn::{FloatLit, Value};

fn float(negative: bool, whole: &str, frac: &str) -> Value {
    Value::Float(FloatLit { negative, whole: whole.to_string(), frac: frac.to_string() })
}

#[test]
fn parser_tests_test_read_empty() {
    let mut parser = Parser::new("");
    assert_eq!(parser.read(), None);
}

#[test]
fn test_read_integers() {
    let mut parser = Parser::new(
        "0 -0 +0 +1234 1234 -1234 +9223372036854775807
                                  -9223372036854775808",
    );
    assert_eq!(parser.read(), Some(Ok(Value::Integer(0))));
    assert_eq!(parser.read(), Some(Ok(Value::Integer(0))));
    assert_eq!(parser.read(), Some(Ok(Value::Integer(0))));
    assert_eq!(parser.read(), Some(Ok(Value::Integer(1234))));
    assert_eq!(parser.read(), Some(Ok(Value::Integer(1234))));
    assert_eq!(parser.read(), Some(Ok(Value::Integer(-1234))));
    assert_eq!(parser.read(), Some(Ok(Value::Integer(9223372036854775807))));
    assert_eq!(
        parser.read(),
        Some(Ok(Value::Integer(-9223372036854775808)))
    );
    assert_eq!(parser.read(), None);
}

#[test]
fn test_read_floats() {
    let mut parser = Parser::new("0. 0.0 -0.0 +0.0 1.23 +1.23 -1.23 .125");
    assert_eq!(parser.read(), Some(Ok(float(false, "0", ""))));
    assert_eq!(parser.read(), Some(Ok(float(false, "0", ""))));
    // The canonical order is a bit-level one, so the sign of a negative
    // zero is kept rather than collapsed into positive zero.
    assert_eq!(parser.read(), Some(Ok(float(true, "0", ""))));
    assert_eq!(parser.read(), Some(Ok(float(false, "0", ""))));
    assert_eq!(parser.read(), Some(Ok(float(false, "1", "23"))));
    assert_eq!(parser.read(), Some(Ok(float(false, "1", "23"))));
    assert_eq!(parser.read(), Some(Ok(float(true, "1", "23"))));
    assert_eq!(parser.read(), Some(Ok(float(false, "0", "125"))));
    assert_eq!(parser.read(), None);
}

#[test]
fn test_read_chars() {
    let mut parser = Parser::new("\\a \\π \\newline \\return \\space \\tab");
    assert_eq!(parser.read(), Some(Ok(Value::Char('a'))));
    assert_eq!(parser.read(), Some(Ok(Value::Char('π'))));
    assert_eq!(parser.read(), Some(Ok(Value::Char('\n'))));
    assert_eq!(parser.read(), Some(Ok(Value::Char('\r'))));
    assert_eq!(parser.read(), Some(Ok(Value::Char(' '))));
    assert_eq!(parser.read(), Some(Ok(Value::Char('\t'))));
    assert_eq!(parser.read(), None);

    let mut parser = Parser::new("  \\foo  ");
    assert_eq!(
        parser.read(),
        Some(Err(Error {
            lo: 2,
            hi: 6,
            message: "invalid char literal `\\foo`".into()
        }))
    );
}

#[test]
fn test_read_strings() {
    let mut parser = Parser::new(
        r#"
"foo"
"bar"
"baz
quux"
"\t\r\n\\\""
"#,
    );
    assert_eq!(parser.read(), Some(Ok(Value::String("foo".into()))));
    assert_eq!(parser.read(), Some(Ok(Value::String("bar".into()))));
    assert_eq!(parser.read(), Some(Ok(Value::String("baz\nquux".into()))));
    assert_eq!(parser.read(), Some(Ok(Value::String("\t\r\n\\\"".into()))));
    assert_eq!(parser.read(), None);

    let mut parser = Parser::new("\"foo\\x\"");
    assert_eq!(
        parser.read(),
        Some(Err(Error {
            lo: 4,
            hi: 6,
            message: "invalid string escape `\\x`".into()
        }))
    );

    let mut parser = Parser::new("   \"foo");
    assert_eq!(
        parser.read(),
        Some(Err(Error {
            lo: 3,
            hi: 7,
            message: "expected closing `\"`, found EOF".into()
        }))
    );
}

#[test]
fn test_read_symbols() {
    let mut parser = Parser::new(
        r#"
foo
+foo
-foo
.foo
.*+!-_?$%&=<>:#123
+
-
namespaced/symbol
/
"#,
    );
    assert_eq!(parser.read(), Some(Ok(Value::Symbol("foo".into()))));
    assert_eq!(parser.read(), Some(Ok(Value::Symbol("+foo".into()))));
    assert_eq!(parser.read(), Some(Ok(Value::Symbol("-foo".into()))));
    assert_eq!(parser.read(), Some(Ok(Value::Symbol(".foo".into()))));
    assert_eq!(
        parser.read(),
        Some(Ok(Value::Symbol(".*+!-_?$%&=<>:#123".into())))
    );
    assert_eq!(parser.read(), Some(Ok(Value::Symbol("+".into()))));
    assert_eq!(parser.read(), Some(Ok(Value::Symbol("-".into()))));
    // `/` is neither a symbol head nor a symbol continuation, so a
    // namespaced name stops at the slash and the slash itself is an
    // unrecognized token.
    assert_eq!(parser.read(), Some(Ok(Value::Symbol("namespaced".into()))));
    assert_eq!(
        parser.read(),
        Some(Err(Error {
            lo: 53,
            hi: 54,
            message: "unrecognized token".into()
        }))
    );
    assert_eq!(parser.read(), Some(Ok(Value::Symbol("symbol".into()))));
    assert_eq!(
        parser.read(),
        Some(Err(Error {
            lo: 61,
            hi: 62,
            message: "unrecognized token".into()
        }))
    );
    assert_eq!(parser.read(), None);
}

#[test]
fn test_read_keywords() {
    let mut parser = Parser::new(
        r#"
:foo
:+foo
:-foo
:.foo
:.*+!-_?$%&=<>:#123
:+
:-
"#,
    );
    assert_eq!(parser.read(), Some(Ok(Value::Keyword("foo".into()))));
    assert_eq!(parser.read(), Some(Ok(Value::Keyword("+foo".into()))));
    assert_eq!(parser.read(), Some(Ok(Value::Keyword("-foo".into()))));
    assert_eq!(parser.read(), Some(Ok(Value::Keyword(".foo".into()))));
    assert_eq!(
        parser.read(),
        Some(Ok(Value::Keyword(".*+!-_?$%&=<>:#123".into())))
    );
    assert_eq!(parser.read(), Some(Ok(Value::Keyword("+".into()))));
    assert_eq!(parser.read(), Some(Ok(Value::Keyword("-".into()))));
    assert_eq!(parser.read(), None);
}

#[test]
fn test_read_booleans_and_nil() {
    let mut parser = Parser::new("true false nil");
    assert_eq!(parser.read(), Some(Ok(Value::Boolean(true))));
    assert_eq!(parser.read(), Some(Ok(Value::Boolean(false))));
    assert_eq!(parser.read(), Some(Ok(Value::Nil)));
    assert_eq!(parser.read(), None);
}

#[test]
fn test_read_commas() {
    let mut parser = Parser::new(",, true ,false,");
    assert_eq!(parser.read(), Some(Ok(Value::Boolean(true))));
    assert_eq!(parser.read(), Some(Ok(Value::Boolean(false))));
    assert_eq!(parser.read(), None);
}

#[test]
fn test_read_lists() {
    let mut parser = Parser::new(
        "() (1 2 3) (true, false, nil)
                                  (((\"foo\" \"bar\")))",
    );

    assert_eq!(parser.read(), Some(Ok(Value::List(vec![]))));

    assert_eq!(
        parser.read(),
        Some(Ok(Value::List(vec![
            Value::Integer(1),
            Value::Integer(2),
            Value::Integer(3),
        ])))
    );

    assert_eq!(
        parser.read(),
        Some(Ok(Value::List(vec![
            Value::Boolean(true),
            Value::Boolean(false),
            Value::Nil,
        ])))
    );

    assert_eq!(
        parser.read(),
        Some(Ok(Value::List(vec![Value::List(vec![Value::List(vec![
            Value::String("foo".into()),
            Value::String("bar".into()),
        ])])])))
    );

    assert_eq!(parser.read(), None);

    let mut parser = Parser::new("((  \\foo ))");
    assert_eq!(
        parser.read(),
        Some(Err(Error {
            lo: 4,
            hi: 8,
            message: "invalid char literal `\\foo`".into()
        }))
    );

    let mut parser = Parser::new("( (  1 2 3");
    assert_eq!(
        parser.read(),
        Some(Err(Error {
            lo: 2,
            hi: 10,
            message: "unclosed `(`".into()
        }))
    );
}

#[test]
fn test_read_vectors() {
    let mut parser = Parser::new(
        "[] [1 2 3] [true, false, nil]
                                  [[[\"foo\" \"bar\"]]]",
    );

    assert_eq!(parser.read(), Some(Ok(Value::Vector(vec![]))));

    assert_eq!(
        parser.read(),
        Some(Ok(Value::Vector(vec![
            Value::Integer(1),
            Value::Integer(2),
            Value::Integer(3),
        ])))
    );

    assert_eq!(
        parser.read(),
        Some(Ok(Value::Vector(vec![
            Value::Boolean(true),
            Value::Boolean(false),
            Value::Nil,
        ])))
    );

    assert_eq!(
        parser.read(),
        Some(Ok(Value::Vector(vec![Value::Vector(vec![Value::Vector(
            vec![Value::String("foo".into()), Value::String("bar".into())],
        )])])))
    );

    assert_eq!(parser.read(), None);

    let mut parser = Parser::new("[[  \\foo ]]");
    assert_eq!(
        parser.read(),
        Some(Err(Error {
            lo: 4,
            hi: 8,
            message: "invalid char literal `\\foo`".into()
        }))
    );

    let mut parser = Parser::new("[ [  1 2 3");
    assert_eq!(
        parser.read(),
        Some(Err(Error {
            lo: 2,
            hi: 10,
            message: "unclosed `[`".into()
        }))
    );
}

#[test]
fn test_read_maps() {
    let mut parser = Parser::new(
        "{} {1 2} {true, false}
                                  {{\"foo\" \"bar\"} \"baz\"}",
    );

    assert_eq!(parser.read(), Some(Ok(Value::Mapping(vec![]))));

    assert_eq!(
        parser.read(),
        Some(Ok(Value::Mapping(vec![(
            Value::Integer(1),
            Value::Integer(2)
        )])))
    );

    assert_eq!(
        parser.read(),
        Some(Ok(Value::Mapping(vec![(
            Value::Boolean(true),
            Value::Boolean(false)
        )])))
    );

    assert_eq!(
        parser.read(),
        Some(Ok(Value::Mapping(vec![(
            Value::Mapping(vec![(
                Value::String("foo".into()),
                Value::String("bar".into())
            )]),
            Value::String("baz".into()),
        )])))
    );

    let mut parser = Parser::new("{\\foo true}");
    assert_eq!(
        parser.read(),
        Some(Err(Error {
            lo: 1,
            hi: 5,
            message: "invalid char literal `\\foo`".into()
        }))
    );

    let mut parser = Parser::new("{ { 1 2 3");
    assert_eq!(
        parser.read(),
        Some(Err(Error {
            lo: 2,
            hi: 9,
            message: "unclosed `{`".into()
        }))
    );

    let mut parser = Parser::new("{1 2 3}");
    assert_eq!(
        parser.read(),
        Some(Err(Error {
            lo: 0,
            hi: 7,
            message: "odd number of items in a Map".into()
        }))
    );

    let mut parser = Parser::new("{{1 2 3}}");
    assert_eq!(
        parser.read(),
        Some(Err(Error {
            lo: 1,
            hi: 8,
            message: "odd number of items in a Map".into()
        }))
    );
}

#[test]
fn test_read_sets() {
    let mut parser = Parser::new(
        "#{} #{1 2 2 3 3 3} #{true, false, nil}
                                  #{#{#{\"foo\" \"bar\"}}}",
    );

    assert_eq!(parser.read(), Some(Ok(Value::SetOf(vec![]))));

    assert_eq!(
        parser.read(),
        Some(Ok(Value::SetOf(vec![
            Value::Integer(1),
            Value::Integer(2),
            Value::Integer(3),
        ])))
    );

    assert_eq!(
        parser.read(),
        Some(Ok(Value::SetOf(vec![
            Value::Nil,
            Value::Boolean(false),
            Value::Boolean(true),
        ])))
    );

    assert_eq!(
        parser.read(),
        Some(Ok(Value::SetOf(vec![Value::SetOf(vec![Value::SetOf(
            vec![Value::String("bar".into()), Value::String("foo".into())],
        )])])))
    );

    assert_eq!(parser.read(), None);

    let mut parser = Parser::new("#{#{  \\foo }}");
    assert_eq!(
        parser.read(),
        Some(Err(Error {
            lo: 6,
            hi: 10,
            message: "invalid char literal `\\foo`".into()
        }))
    );

    let mut parser = Parser::new("#{ #{ 1 2 3");
    assert_eq!(
        parser.read(),
        Some(Err(Error {
            lo: 3,
            hi: 11,
            message: "unclosed `#{`".into()
        }))
    );
}

#[test]
fn test_tagged_values() {
    let mut parser = Parser::new(
        r#"
#color (255, 31, 191)
#foo/bar :baz
#nested #tags "works"
#noclose
"#,
    );
    assert_eq!(
        parser.read(),
        Some(Ok(Value::Tagged(
            "color".into(),
            Box::new(Value::List(vec![
                Value::Integer(255),
                Value::Integer(31),
                Value::Integer(191),
            ]))
        )))
    );
    assert_eq!(
        parser.read(),
        Some(Ok(Value::Tagged(
            "foo/bar".into(),
            Box::new(Value::Keyword("baz".into()))
        )))
    );
    assert_eq!(
        parser.read(),
        Some(Ok(Value::Tagged(
            "nested".into(),
            Box::new(Value::Tagged(
                "tags".into(),
                Box::new(Value::String("works".into()))
            ))
        )))
    );
    assert_eq!(
        parser.read(),
        Some(Err(Error {
            lo: 60,
            hi: 68,
            message: "malformed tagged value".into(),
        }))
    );

    assert_eq!(parser.read(), None);
}

#[test]
fn test_read_separators_only() {
    let mut parser = Parser::new(" ,  ");
    assert_eq!(parser.read(), None);
    assert_eq!(parser.read(), None);
}

#[test]
fn test_token_classification() {
    let mut parser = Parser::new("+ - +foo .foo +1 -1 .5 1.5");
    assert_eq!(parser.read(), Some(Ok(Value::Symbol("+".into()))));
    assert_eq!(parser.read(), Some(Ok(Value::Symbol("-".into()))));
    assert_eq!(parser.read(), Some(Ok(Value::Symbol("+foo".into()))));
    assert_eq!(parser.read(), Some(Ok(Value::Symbol(".foo".into()))));
    assert_eq!(parser.read(), Some(Ok(Value::Integer(1))));
    assert_eq!(parser.read(), Some(Ok(Value::Integer(-1))));
    assert_eq!(parser.read(), Some(Ok(float(false, "0", "5"))));
    assert_eq!(parser.read(), Some(Ok(float(false, "1", "5"))));
    assert_eq!(parser.read(), None);
}

#[test]
fn test_integer_out_of_range() {
    let mut parser = Parser::new("9223372036854775808");
    assert_eq!(
        parser.read(),
        Some(Err(Error {
            lo: 0,
            hi: 19,
            message: "integer literal out of range".into()
        }))
    );

    let mut parser = Parser::new("-9223372036854775809");
    assert_eq!(
        parser.read(),
        Some(Err(Error {
            lo: 0,
            hi: 20,
            message: "integer literal out of range".into()
        }))
    );

    let mut parser = Parser::new("0009223372036854775807");
    assert_eq!(parser.read(), Some(Ok(Value::Integer(9223372036854775807))));
}

#[test]
fn test_unrecognized_token() {
    let mut parser = Parser::new("@ foo");
    assert_eq!(
        parser.read(),
        Some(Err(Error {
            lo: 0,
            hi: 1,
            message: "unrecognized token".into()
        }))
    );
    assert_eq!(parser.read(), Some(Ok(Value::Symbol("foo".into()))));
    assert_eq!(parser.read(), None);
}

#[test]
fn test_nesting_depth_limit() {
    let deep = format!("{}{}", "(".repeat(100), ")".repeat(100));
    let mut parser = Parser::new(&deep);
    let mut v = Value::List(vec![]);
    for _ in 0..99 {
        v = Value::List(vec![v]);
    }
    assert_eq!(parser.read(), Some(Ok(v)));
    assert_eq!(parser.read(), None);

    let too_deep = format!("{}{}", "(".repeat(101), ")".repeat(101));
    let mut parser = Parser::new(&too_deep);
    assert_eq!(
        parser.read(),
        Some(Err(Error {
            lo: 100,
            hi: 101,
            message: "exceeded nesting depth limit".into()
        }))
    );
}

#[test]
fn test_unterminated_errors_end_at_input_length() {
    for input in ["(", "[1 2", "{:a 1", "#{1 2", "\"abc", "((([", "(\"x"] {
        let mut parser = Parser::new(input);
        match parser.read() {
            Some(Err(e)) => assert_eq!(e.hi, input.chars().count()),
            other => panic!("expected an error for {:?}, got {:?}", input, other),
        }
    }
}

#[test]
fn test_map_last_write_wins() {
    let mut parser = Parser::new("{1 2, 1 3}");
    assert_eq!(
        parser.read(),
        Some(Ok(Value::Mapping(vec![(
            Value::Integer(1),
            Value::Integer(3)
        )])))
    );

    let mut parser = Parser::new("{:b 1, :a 2, :b 3}");
    assert_eq!(
        parser.read(),
        Some(Ok(Value::Mapping(vec![
            (Value::Keyword("a".into()), Value::Integer(2)),
            (Value::Keyword("b".into()), Value::Integer(3)),
        ])))
    );
}
