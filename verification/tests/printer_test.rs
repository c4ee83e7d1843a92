use edn::parser::Parser;
use edn::printer::print;
use edn::{FloatLit, Value};

#[test]
fn printer_test_test_read_empty() {
    assert_eq!(print(Value::Integer(0)), "0");
    assert_eq!(print(Value::Nil), "nil");
    assert_eq!(print(Value::Boolean(true)), "true");
    assert_eq!(print(Value::String("foo".to_string())), "\"foo\"");
    assert_eq!(print(Value::Char('a')), "\\a");
    assert_eq!(print(Value::Symbol("foo".to_string())), "foo");
    assert_eq!(print(Value::Keyword("bar".to_string())), ":bar");
    assert_eq!(print(Value::List(vec![])), "()");
    assert_eq!(print(Value::Vector(vec![])), "[]");
    assert_eq!(
        print(Value::Vector(vec![
            Value::Integer(1),
            Value::Integer(0),
            Value::List(vec![Value::Nil])
        ])),
        "[1, 0, (nil)]"
    );
    assert_eq!(print(Value::SetOf(vec![])), "#{}");
    assert_eq!(print(Value::SetOf(vec![Value::Integer(1)])), "#{1}");
    assert_eq!(print(Value::Mapping(vec![])), "{}");
    let m = vec![
        (
            Value::Keyword("foo".to_string()),
            Value::String("bar".to_string()),
        ),
        (Value::Integer(1), Value::Integer(2)),
    ];
    assert_eq!(print(Value::Mapping(m)), "{:foo \"bar\", 1 2}");
    assert_eq!(
        print(Value::Tagged(
            "foo/bar".into(),
            Box::new(Value::Keyword("baz".into()))
        )),
        "#foo/bar :baz"
    )
}

#[test]
fn test_print_integers() {
    assert_eq!(print(Value::Integer(1234)), "1234");
    assert_eq!(print(Value::Integer(-1234)), "-1234");
    assert_eq!(
        print(Value::Integer(9223372036854775807)),
        "9223372036854775807"
    );
    assert_eq!(
        print(Value::Integer(-9223372036854775808)),
        "-9223372036854775808"
    );
}

#[test]
fn test_print_floats() {
    let f = |negative: bool, whole: &str, frac: &str| {
        Value::Float(FloatLit {
            negative,
            whole: whole.to_string(),
            frac: frac.to_string(),
        })
    };
    assert_eq!(print(f(false, "0", "")), "0.0");
    assert_eq!(print(f(true, "0", "")), "-0.0");
    assert_eq!(print(f(false, "1", "23")), "1.23");
    assert_eq!(print(f(true, "0", "125")), "-0.125");
}

#[test]
fn test_print_string_escapes() {
    assert_eq!(
        print(Value::String("say \"hi\" \\ there".to_string())),
        "\"say \\\"hi\\\" \\\\ there\""
    );
}

#[test]
fn test_integer_round_trip() {
    for n in [
        0i64,
        1,
        -1,
        42,
        -1000,
        9223372036854775807,
        -9223372036854775808,
    ] {
        let text = print(Value::Integer(n));
        let mut parser = Parser::new(&text);
        assert_eq!(parser.read(), Some(Ok(Value::Integer(n))));
        assert_eq!(parser.read(), None);
    }
}

#[test]
fn test_tagged_round_trip() {
    let v = Value::Tagged("foo/bar".into(), Box::new(Value::Keyword("baz".into())));
    let text = print(v);
    assert_eq!(text, "#foo/bar :baz");
    let mut parser = Parser::new(&text);
    assert_eq!(
        parser.read(),
        Some(Ok(Value::Tagged(
            "foo/bar".into(),
            Box::new(Value::Keyword("baz".into()))
        )))
    );
    assert_eq!(parser.read(), None);
}

#[test]
fn test_string_round_trip() {
    let v = Value::String("tab\t quote\" slash\\ end".to_string());
    let text = print(v);
    let mut parser = Parser::new(&text);
    assert_eq!(
        parser.read(),
        Some(Ok(Value::String("tab\t quote\" slash\\ end".to_string())))
    );
    assert_eq!(parser.read(), None);
}

#[test]
fn test_collections_round_trip() {
    let text = "{:a [1 2], :b #{3 4}, :c (nil true)}";
    let mut parser = Parser::new(text);
    let v = parser.read().unwrap().unwrap();
    let printed = print(v);
    assert_eq!(printed, "{:a [1, 2], :b #{3, 4}, :c (nil, true)}");
    let mut parser2 = Parser::new(&printed);
    let v2 = parser2.read().unwrap().unwrap();
    let mut parser3 = Parser::new(text);
    assert_eq!(Some(Ok(v2)), parser3.read());
}
