use llm_json_utils::structural::compiler::{compile, DescNode, SchemaDesc, SchemaError};
use llm_json_utils::structural::parser::{parse_node, ParseError};
use llm_json_utils::utils::cursor::Cursor;
use llm_json_utils::value::Value;
use llm_json_utils::{JsonExtractor, NotFound};

fn prim(tag: &str) -> DescNode {
    DescNode {
        type_tag: Some(tag.as_bytes().to_vec()),
        items: None,
        properties: vec![],
        required: vec![],
    }
}

fn arr(items: usize) -> DescNode {
    DescNode {
        type_tag: Some(b"array".to_vec()),
        items: Some(items),
        properties: vec![],
        required: vec![],
    }
}

fn obj(props: Vec<(&str, usize)>, required: Vec<&str>) -> DescNode {
    DescNode {
        type_tag: Some(b"object".to_vec()),
        items: None,
        properties: props
            .into_iter()
            .map(|(n, c)| (n.as_bytes().to_vec(), c))
            .collect(),
        required: required.into_iter().map(|n| n.as_bytes().to_vec()).collect(),
    }
}

/// `{"type":"object","properties":{"a":{"type":"string"}},"required":["a"]}`
fn schema_a_string() -> SchemaDesc {
    SchemaDesc { nodes: vec![prim("string"), obj(vec![("a", 0)], vec!["a"])] }
}

fn text(s: &str) -> Value {
    Value::Text(s.as_bytes().to_vec())
}

fn key(s: &str) -> Vec<u8> {
    s.as_bytes().to_vec()
}

#[test]
fn extract_skips_leading_noise() {
    let ex = JsonExtractor::new(&schema_a_string()).unwrap();
    let r = ex.extract(b"noise noise { \"a\": \"hi\" }").unwrap();
    assert_eq!(r, Value::Object(vec![(key("a"), text("hi"))]));
}

#[test]
fn embedded_quotes_do_not_truncate() {
    let ex = JsonExtractor::new(&schema_a_string()).unwrap();
    let r = ex.extract(b"{ 'a': 'it said \"hello\" to me' }").unwrap();
    assert_eq!(r, Value::Object(vec![(key("a"), text("it said \"hello\" to me"))]));
}

#[test]
fn single_quoted_fields_terminate_at_comma() {
    // A comma followed by a single-quoted key confirms the closing
    // quote, so the first value must not swallow ", 'b" as content.
    let desc = SchemaDesc {
        nodes: vec![prim("string"), prim("string"), obj(vec![("a", 0), ("b", 1)], vec!["a", "b"])],
    };
    let schema = compile(&desc).unwrap();
    let mut cursor = Cursor::new(b"{ 'a': 'x', 'b': 'y' }");
    let r = parse_node(&mut cursor, &schema, schema.root(), 0).unwrap();
    assert_eq!(
        r,
        Value::Object(vec![(key("a"), text("x")), (key("b"), text("y"))])
    );
}

#[test]
fn missing_required_field_fails() {
    let desc = SchemaDesc {
        nodes: vec![
            prim("string"),
            prim("number"),
            prim("number"),
            obj(vec![("a", 0), ("b", 1), ("c", 2)], vec!["a"]),
        ],
    };
    let schema = compile(&desc).unwrap();
    // Many other declared keys present; the required one absent.
    let mut cursor = Cursor::new(b"{ \"b\": 1, \"c\": 2, \"x\": 3 }");
    let r = parse_node(&mut cursor, &schema, schema.root(), 0);
    assert_eq!(r, Err(ParseError::MissingField(key("a"))));
}

#[test]
fn missing_required_surfaces_as_not_found() {
    let ex = JsonExtractor::new(&schema_a_string()).unwrap();
    let r = ex.extract(b"{ \"b\": \"hi\" }");
    assert_eq!(r, Err(NotFound));
}

#[test]
fn no_brace_is_not_found() {
    let ex = JsonExtractor::new(&schema_a_string()).unwrap();
    assert_eq!(ex.extract(b"nothing to see here"), Err(NotFound));
}

#[test]
fn deep_schema_hits_recursion_limit() {
    // array-of-array-of-... 129 levels around a number.
    let mut nodes = vec![prim("number")];
    for level in 1..=129 {
        nodes.push(arr(level - 1));
    }
    let desc = SchemaDesc { nodes };
    let schema = compile(&desc).unwrap();
    let mut cursor = Cursor::new(b"x");
    let r = parse_node(&mut cursor, &schema, schema.root(), 0);
    assert_eq!(r, Err(ParseError::RecursionLimit));
}

#[test]
fn shallow_schema_stays_under_limit() {
    let desc = SchemaDesc { nodes: vec![prim("number"), arr(0), arr(1)] };
    let schema = compile(&desc).unwrap();
    let mut cursor = Cursor::new(b"[[1], [2, 3]]");
    let r = parse_node(&mut cursor, &schema, schema.root(), 0).unwrap();
    assert_eq!(
        r,
        Value::Array(vec![
            Value::Array(vec![Value::Number(b"1".to_vec())]),
            Value::Array(vec![Value::Number(b"2".to_vec()), Value::Number(b"3".to_vec())]),
        ])
    );
}

#[test]
fn compile_twice_identical_behavior() {
    let ex1 = JsonExtractor::new(&schema_a_string()).unwrap();
    let ex2 = JsonExtractor::new(&schema_a_string()).unwrap();
    let inputs: Vec<&[u8]> = vec![
        b"noise { \"a\": \"one\" }",
        b"{ 'a': 'two' }",
        b"{ \"b\": 1 }",
        b"no braces at all",
    ];
    for input in inputs {
        assert_eq!(ex1.extract(input), ex2.extract(input));
    }
}

#[test]
fn array_missing_items_fails_compile() {
    let desc = SchemaDesc {
        nodes: vec![DescNode {
            type_tag: Some(b"array".to_vec()),
            items: None,
            properties: vec![],
            required: vec![],
        }],
    };
    assert_eq!(compile(&desc).err(), Some(SchemaError::MissingItems));
}

#[test]
fn unknown_type_compiles_to_wildcard_null() {
    let desc = SchemaDesc { nodes: vec![prim("custom")] };
    let schema = compile(&desc).unwrap();
    let mut cursor = Cursor::new(b"anything at all");
    let r = parse_node(&mut cursor, &schema, schema.root(), 0);
    assert_eq!(r, Ok(Value::Null));
}

#[test]
fn untyped_description_compiles_to_wildcard() {
    let desc = SchemaDesc {
        nodes: vec![DescNode { type_tag: None, items: None, properties: vec![], required: vec![] }],
    };
    let schema = compile(&desc).unwrap();
    let mut cursor = Cursor::new(b"{}");
    assert_eq!(parse_node(&mut cursor, &schema, schema.root(), 0), Ok(Value::Null));
}

#[test]
fn fields_accepted_in_discovery_order() {
    let desc = SchemaDesc {
        nodes: vec![prim("number"), prim("number"), obj(vec![("a", 0), ("b", 1)], vec![])],
    };
    let schema = compile(&desc).unwrap();
    let mut cursor = Cursor::new(b"{ \"b\": 1, \"a\": 2 }");
    let r = parse_node(&mut cursor, &schema, schema.root(), 0).unwrap();
    assert_eq!(
        r,
        Value::Object(vec![
            (key("b"), Value::Number(b"1".to_vec())),
            (key("a"), Value::Number(b"2".to_vec())),
        ])
    );
}

#[test]
fn repeated_key_keeps_last_value_in_place() {
    let desc = SchemaDesc { nodes: vec![prim("number"), obj(vec![("a", 0)], vec![])] };
    let schema = compile(&desc).unwrap();
    let mut cursor = Cursor::new(b"{ \"a\": 1, \"a\": 2 }");
    let r = parse_node(&mut cursor, &schema, schema.root(), 0).unwrap();
    assert_eq!(r, Value::Object(vec![(key("a"), Value::Number(b"2".to_vec()))]));
}

#[test]
fn junk_between_fields_is_discarded() {
    let desc = SchemaDesc {
        nodes: vec![prim("number"), prim("number"), obj(vec![("a", 0), ("b", 1)], vec!["a", "b"])],
    };
    let schema = compile(&desc).unwrap();
    let mut cursor = Cursor::new(b"{ ???junk??? \"a\": 1 ~~~more junk~~~ \"b\": 2 }");
    let r = parse_node(&mut cursor, &schema, schema.root(), 0).unwrap();
    assert_eq!(
        r,
        Value::Object(vec![
            (key("a"), Value::Number(b"1".to_vec())),
            (key("b"), Value::Number(b"2".to_vec())),
        ])
    );
}

#[test]
fn malformed_input_terminates() {
    let ex = JsonExtractor::new(&schema_a_string()).unwrap();
    // Arbitrarily malformed: many braces, no parseable object.
    let junk = b"{{{{ ]]]] ,,,, \"\" :::: {{ 'a }} \x00\xff {{".repeat(50);
    let _ = ex.extract(&junk);
    // Array schema over degenerate zero-width elements also terminates.
    let desc = SchemaDesc { nodes: vec![prim("number"), arr(0)] };
    let schema = compile(&desc).unwrap();
    let mut cursor = Cursor::new(b"[x y z");
    let r = parse_node(&mut cursor, &schema, schema.root(), 0);
    assert!(r.is_ok());
}
