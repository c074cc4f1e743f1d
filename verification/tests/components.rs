use llm_json_utils::structural::compiler::{compile, DescNode, SchemaDesc};
use llm_json_utils::structural::parser::{
    is_structural_closure, parse_bool_speculative, parse_node, parse_number_robust,
    parse_string_speculative, ParseError,
};
use llm_json_utils::structural::schema::FieldLookup;
use llm_json_utils::utils::cursor::Cursor;
use llm_json_utils::value::Value;
use llm_json_utils::JsonExtractor;

fn number_desc() -> SchemaDesc {
    SchemaDesc {
        nodes: vec![DescNode {
            type_tag: Some(b"number".to_vec()),
            items: None,
            properties: vec![],
            required: vec![],
        }],
    }
}

fn prop_schema(names: &[&str]) -> SchemaDesc {
    let mut nodes: Vec<DescNode> = Vec::new();
    for _ in names {
        nodes.push(DescNode {
            type_tag: Some(b"number".to_vec()),
            items: None,
            properties: vec![],
            required: vec![],
        });
    }
    let props = names
        .iter()
        .enumerate()
        .map(|(i, n)| (n.as_bytes().to_vec(), i))
        .collect();
    nodes.push(DescNode {
        type_tag: Some(b"object".to_vec()),
        items: None,
        properties: props,
        required: vec![],
    });
    SchemaDesc { nodes }
}

#[test]
fn number_strips_thousands_separators() {
    let mut cursor = Cursor::new(b"1,234.5 tail");
    let r = parse_number_robust(&mut cursor).unwrap();
    assert_eq!(r, Value::Number(b"1234.5".to_vec()));
    assert_eq!("1234.5".parse::<f64>().unwrap(), 1234.5);
    assert_eq!(cursor.pos, 7);
}

#[test]
fn number_garbage_becomes_zero() {
    let mut cursor = Cursor::new(b"garbage");
    let r = parse_number_robust(&mut cursor).unwrap();
    let digits = match r {
        Value::Number(d) => d,
        other => panic!("expected a number, got {:?}", other),
    };
    assert_eq!(digits, b"".to_vec());
    // The host adapter's reading of empty digits is 0.0, never a failure.
    let as_float = String::from_utf8(digits).unwrap().parse::<f64>().unwrap_or(0.0);
    assert_eq!(as_float, 0.0);
    assert_eq!(cursor.pos, 0);
}

#[test]
fn booleans_and_aliases() {
    let cases: Vec<(&[u8], Value, usize)> = vec![
        (b"true", Value::Bool(true), 4),
        (b"false", Value::Bool(false), 5),
        (b"True", Value::Bool(true), 4),
        (b"False", Value::Bool(false), 5),
        (b"yes", Value::Null, 0),
        (b"", Value::Null, 0),
    ];
    for (input, expected, advance) in cases {
        let mut cursor = Cursor::new(input);
        let r = parse_bool_speculative(&mut cursor).unwrap();
        assert_eq!(r, expected);
        assert_eq!(cursor.pos, advance);
    }
}

#[test]
fn unquoted_string_and_null_literal() {
    let mut cursor = Cursor::new(b"hello, world");
    assert_eq!(parse_string_speculative(&mut cursor), Ok(Value::Text(b"hello".to_vec())));
    let mut cursor2 = Cursor::new(b"null }");
    assert_eq!(parse_string_speculative(&mut cursor2), Ok(Value::Null));
}

#[test]
fn fullwidth_quoted_string() {
    let input = "＂hi＂ }".as_bytes();
    let mut cursor = Cursor::new(input);
    assert_eq!(parse_string_speculative(&mut cursor), Ok(Value::Text(b"hi".to_vec())));
}

#[test]
fn unterminated_quote_is_unexpected_eof() {
    let mut cursor = Cursor::new(b"\"never ends");
    assert_eq!(parse_string_speculative(&mut cursor), Err(ParseError::UnexpectedEof));
}

#[test]
fn escaped_quote_does_not_terminate() {
    let mut cursor = Cursor::new(b"\"a\\\"b\" }");
    assert_eq!(parse_string_speculative(&mut cursor), Ok(Value::Text(b"a\\\"b".to_vec())));
}

#[test]
fn oversized_string_is_truncated_not_failed() {
    let cap = 1024 * 1024;
    let mut input = vec![b'"'];
    input.extend(std::iter::repeat(b'x').take(cap + 5));
    input.push(b'"');
    let mut cursor = Cursor::new(&input);
    let r = parse_string_speculative(&mut cursor).unwrap();
    match r {
        Value::Text(content) => {
            assert_eq!(content.len(), cap + 1);
            assert!(content.iter().all(|&b| b == b'x'));
        }
        other => panic!("expected text, got {:?}", other),
    }
    // The cursor stays just past the opening quote.
    assert_eq!(cursor.pos, 1);
}

#[test]
fn structural_closure_lookahead() {
    assert!(is_structural_closure(b" : value"));
    assert!(is_structural_closure(b" }"));
    assert!(is_structural_closure(b"]"));
    assert!(is_structural_closure(b""));
    assert!(is_structural_closure(b", \"next\""));
    assert!(is_structural_closure(b", 'next'"));
    assert!(is_structural_closure(b", }"));
    assert!(!is_structural_closure(b", and then"));
    assert!(!is_structural_closure(b"more text"));
}

#[test]
fn cursor_basics() {
    let mut cursor = Cursor::new(b"  \t\r\n abc");
    cursor.skip_whitespace();
    assert_eq!(cursor.pos, 6);
    assert_eq!(cursor.remaining(), b"abc");
    assert!(cursor.matches(b"ab"));
    assert!(!cursor.matches(b"bc"));
    cursor.advance(2);
    assert_eq!(cursor.remaining(), b"c");
    // Over-advancing degrades to an empty remainder, not a fault.
    cursor.advance(100);
    assert_eq!(cursor.remaining(), b"");
}

#[test]
fn cursor_find_next_anchor_is_leftmost_first() {
    let cursor = Cursor::new(b"xx bb aa");
    let anchors = vec![b"aa".to_vec(), b"bb".to_vec()];
    let (found, at) = cursor.find_next_anchor(&anchors).unwrap();
    assert_eq!(found, b"bb");
    assert_eq!(at, 3);
    // Ties at one position go to the first anchor in the list.
    let cursor2 = Cursor::new(b"aab");
    let anchors2 = vec![b"aab".to_vec(), b"aa".to_vec()];
    let (found2, at2) = cursor2.find_next_anchor(&anchors2).unwrap();
    assert_eq!(found2, b"aab");
    assert_eq!(at2, 0);
}

#[test]
fn cursor_find_next_anchor_lookahead_is_bounded() {
    let mut far = vec![b' '; 600];
    far.extend_from_slice(b"needle");
    let cursor = Cursor::new(&far);
    let anchors = vec![b"needle".to_vec()];
    assert!(cursor.find_next_anchor(&anchors).is_none());

    let mut near = vec![b' '; 100];
    near.extend_from_slice(b"needle");
    let cursor2 = Cursor::new(&near);
    assert_eq!(cursor2.find_next_anchor(&anchors), Some((&b"needle"[..], 100)));
}

#[test]
fn small_and_large_lookup_agree() {
    let pairs: Vec<(Vec<u8>, usize)> =
        vec![(b"alpha".to_vec(), 0), (b"beta".to_vec(), 1), (b"alpha".to_vec(), 2)];
    let small = FieldLookup::Small(pairs.clone());
    let large = FieldLookup::Large(pairs);
    for probe in [&b"alpha"[..], &b"beta"[..], &b"gamma"[..], &b""[..]] {
        assert_eq!(small.get(probe), large.get(probe));
    }
    // The first declared pair wins in both representations.
    assert_eq!(small.get(b"alpha"), Some(0));
}

#[test]
fn lookup_representation_threshold_is_invisible() {
    let fifteen: Vec<&str> = vec![
        "f01", "f02", "f03", "f04", "f05", "f06", "f07", "f08", "f09", "f10", "f11", "f12",
        "f13", "f14", "f15",
    ];
    let mut sixteen = fifteen.clone();
    sixteen.push("f16");
    let narrow = compile(&prop_schema(&fifteen)).unwrap();
    let wide = compile(&prop_schema(&sixteen)).unwrap();
    let input: &[u8] = b"{ \"f03\": 3, \"f11\": 11 }";
    let mut c1 = Cursor::new(input);
    let mut c2 = Cursor::new(input);
    let r1 = parse_node(&mut c1, &narrow, narrow.root(), 0).unwrap();
    let r2 = parse_node(&mut c2, &wide, wide.root(), 0).unwrap();
    // Crossing the threshold changes the representation, never the result.
    assert_eq!(r1, r2);
    assert_eq!(
        r1,
        Value::Object(vec![
            (b"f03".to_vec(), Value::Number(b"3".to_vec())),
            (b"f11".to_vec(), Value::Number(b"11".to_vec())),
        ])
    );
}

#[test]
fn number_node_through_extractor_schema() {
    let schema = compile(&number_desc()).unwrap();
    let mut cursor = Cursor::new(b" 12e3,4 rest");
    let r = parse_node(&mut cursor, &schema, schema.root(), 0).unwrap();
    assert_eq!(r, Value::Number(b"12e34".to_vec()));
}

#[test]
fn extractor_retries_failed_candidates() {
    let desc = SchemaDesc {
        nodes: vec![
            DescNode {
                type_tag: Some(b"string".to_vec()),
                items: None,
                properties: vec![],
                required: vec![],
            },
            DescNode {
                type_tag: Some(b"object".to_vec()),
                items: None,
                properties: vec![(b"a".to_vec(), 0)],
                required: vec![b"a".to_vec()],
            },
        ],
    };
    let ex = JsonExtractor::new(&desc).unwrap();
    // The first brace opens an object without the required field; the
    // scanner must move on and succeed at the second.
    let r = ex.extract(b"{ \"b\": 1 } and later { \"a\": \"found\" }").unwrap();
    assert_eq!(r, Value::Object(vec![(b"a".to_vec(), Value::Text(b"found".to_vec()))]));
}
