use jsmn::{jsmn_parse, JsmnErr, JsmnParser, JsmnTok, JsmnType};

fn parse(buf: &str, len: usize) -> Result<Vec<JsmnTok>, JsmnErr> {
    let mut tokens = vec![JsmnTok::default(); len];
    let mut parser = JsmnParser::new();
    jsmn_parse(&mut parser, buf, &mut tokens).map(|parsed| {
        assert_eq!(len, parsed);
        tokens
    })
}

fn tok(typ: JsmnType, start: i32, end: i32, size: i32, parent: i32) -> JsmnTok {
    JsmnTok { typ, start, end, size, parent }
}

#[test]
fn parse_empty() {
    let tokens = parse(r#"{}"#, 1).unwrap();
    assert_eq!(
        &[JsmnTok { typ: JsmnType::JsmnObject, start: 0, end: 2, size: 0, ..Default::default() }],
        &tokens[..]
    );

    let tokens = parse(r#"[]"#, 1).unwrap();
    assert_eq!(
        &[JsmnTok { typ: JsmnType::JsmnArray, start: 0, end: 2, size: 0, ..Default::default() }],
        &tokens[..]
    );

    let tokens = parse(r#"[{},{}]"#, 3).unwrap();
    assert_eq!(
        &[
            JsmnTok { typ: JsmnType::JsmnArray, start: 0, end: 7, size: 2, ..Default::default() },
            JsmnTok {
                typ: JsmnType::JsmnObject,
                start: 1,
                end: 3,
                size: 0,
                parent: 0,
            },
            JsmnTok {
                typ: JsmnType::JsmnObject,
                start: 4,
                end: 6,
                size: 0,
                parent: 0,
            },
        ],
        &tokens[..]
    );
}

#[test]
fn parse_object_mixed() {
    let tokens = parse(r#"{"a":0}"#, 3).unwrap();
    assert_eq!(
        &[
            JsmnTok { typ: JsmnType::JsmnObject, start: 0, end: 7, size: 1, ..Default::default() },
            JsmnTok { typ: JsmnType::JsmnString, start: 2, end: 3, size: 1, parent: 0 },
            JsmnTok { typ: JsmnType::JsmnPrimitive, start: 5, end: 6, size: 0, parent: 1 },
        ],
        &tokens[..]
    );

    let tokens = parse(r#"{"a":[]}"#, 3).unwrap();
    assert_eq!(
        &[
            JsmnTok { typ: JsmnType::JsmnObject, start: 0, end: 8, size: 1, ..Default::default() },
            JsmnTok { typ: JsmnType::JsmnString, start: 2, end: 3, size: 1, parent: 0 },
            JsmnTok { typ: JsmnType::JsmnArray, start: 5, end: 7, size: 0, parent: 1 },
        ],
        &tokens[..]
    );
}

#[test]
fn parse_array_single_primitive() {
    let tokens = parse(r#"[10]"#, 2).unwrap();
    assert_eq!(
        &[
            JsmnTok { typ: JsmnType::JsmnArray, start: 0, end: 4, size: 1, ..Default::default() },
            JsmnTok { typ: JsmnType::JsmnPrimitive, start: 1, end: 3, size: 0, parent: 0 },
        ],
        &tokens[..]
    );
}

#[test]
fn parse_primitive_values() {
    assert_eq!(
        parse(r#"{"boolVar": true}"#, 3).unwrap()[2],
        JsmnTok { typ: JsmnType::JsmnPrimitive, start: 12, end: 16, parent: 1, ..Default::default() },
    );
    assert_eq!(
        parse(r#"{"boolVar": false}"#, 3).unwrap()[2],
        JsmnTok { typ: JsmnType::JsmnPrimitive, start: 12, end: 17, parent: 1, ..Default::default() },
    );
    assert_eq!(
        parse(r#"{"nullVar": null}"#, 3).unwrap()[2],
        JsmnTok { typ: JsmnType::JsmnPrimitive, start: 12, end: 16, parent: 1, ..Default::default() },
    );
    assert_eq!(
        parse(r#"{"intVar": 12}"#, 3).unwrap()[2],
        JsmnTok { typ: JsmnType::JsmnPrimitive, start: 11, end: 13, parent: 1, ..Default::default() },
    );
    assert_eq!(
        parse(r#"{"floatVar": 12.345}"#, 3).unwrap()[2],
        JsmnTok { typ: JsmnType::JsmnPrimitive, start: 13, end: 19, parent: 1, ..Default::default() },
    );
}

#[test]
fn parse_invalid_escaped_unicode() {
    assert_eq!(parse(r#"{"a":"str\uFFGFstr"}"#, 3).unwrap_err(), JsmnErr::JsmErrorInval);
    assert_eq!(parse(r#"{"a":"str\u@FfF"}"#, 3).unwrap_err(), JsmnErr::JsmErrorInval);
    assert_eq!(parse(r#"{{"a":["\u028"]}"#, 4).unwrap_err(), JsmnErr::JsmErrorInval);
}

#[test]
fn valid_escapes_are_accepted() {
    let tokens = parse(r#"["a\"b\\\/\b\f\n\r\té"]"#, 2).unwrap();
    assert_eq!(tokens[1], tok(JsmnType::JsmnString, 2, 22, 0, 0));
}

#[test]
fn unknown_escape_is_invalid() {
    assert_eq!(parse(r#"["a\qb"]"#, 2).unwrap_err(), JsmnErr::JsmErrorInval);
}

#[test]
fn top_level_scalars() {
    assert_eq!(parse(r#""x""#, 1).unwrap(), vec![tok(JsmnType::JsmnString, 1, 2, 0, -1)]);
    assert_eq!(parse("42", 1).unwrap(), vec![tok(JsmnType::JsmnPrimitive, 0, 2, 0, -1)]);
    assert_eq!(parse("null", 1).unwrap(), vec![tok(JsmnType::JsmnPrimitive, 0, 4, 0, -1)]);
}

#[test]
fn several_top_level_values() {
    assert_eq!(
        parse("{} []", 2).unwrap(),
        vec![tok(JsmnType::JsmnObject, 0, 2, 0, -1), tok(JsmnType::JsmnArray, 3, 5, 0, -1)]
    );
}

#[test]
fn nested_object_sizes_and_parents() {
    let tokens = parse(r#"{"a": {"b": [1, 2]}, "c": "d"}"#, 9).unwrap();
    assert_eq!(
        tokens,
        vec![
            tok(JsmnType::JsmnObject, 0, 30, 2, -1),
            tok(JsmnType::JsmnString, 2, 3, 1, 0),
            tok(JsmnType::JsmnObject, 6, 19, 1, 1),
            tok(JsmnType::JsmnString, 8, 9, 1, 2),
            tok(JsmnType::JsmnArray, 12, 18, 2, 3),
            tok(JsmnType::JsmnPrimitive, 13, 14, 0, 4),
            tok(JsmnType::JsmnPrimitive, 16, 17, 0, 4),
            tok(JsmnType::JsmnString, 22, 23, 1, 0),
            tok(JsmnType::JsmnString, 27, 28, 0, 7),
        ]
    );
}

#[test]
fn unclosed_container_is_incomplete() {
    assert_eq!(parse("[1, 2", 3).unwrap_err(), JsmnErr::JsmErrorPart);
    assert_eq!(parse(r#"{"a": "b"#, 3).unwrap_err(), JsmnErr::JsmErrorPart);
    assert_eq!(parse(r#"["a\"#, 3).unwrap_err(), JsmnErr::JsmErrorPart);
}

#[test]
fn unterminated_top_level_primitive_is_closed_at_end() {
    assert_eq!(parse("123", 1).unwrap(), vec![tok(JsmnType::JsmnPrimitive, 0, 3, 0, -1)]);
}

#[test]
fn mismatched_or_stray_closers_are_invalid() {
    assert_eq!(parse("[}", 1).unwrap_err(), JsmnErr::JsmErrorInval);
    assert_eq!(parse("]", 0).unwrap_err(), JsmnErr::JsmErrorInval);
    assert_eq!(parse("{}}", 1).unwrap_err(), JsmnErr::JsmErrorInval);
}

#[test]
fn control_byte_in_primitive_is_invalid() {
    assert_eq!(parse("[1\u{1}2]", 2).unwrap_err(), JsmnErr::JsmErrorInval);
}

#[test]
fn empty_and_blank_text() {
    assert_eq!(parse("", 0).unwrap(), Vec::<JsmnTok>::new());
    assert_eq!(parse(" \t\r\n", 0).unwrap(), Vec::<JsmnTok>::new());
}

#[test]
fn text_stops_at_nul_byte() {
    assert_eq!(parse("[1]\u{0}[", 2).unwrap().len(), 2);
}

#[test]
fn too_few_slots_then_resume() {
    let text = r#"{"a": [1, 2], "b": null}"#;
    let mut direct = vec![JsmnTok::default(); 7];
    let mut direct_parser = JsmnParser::new();
    assert_eq!(jsmn_parse(&mut direct_parser, text, &mut direct), Ok(7));

    let mut small = vec![JsmnTok::default(); 3];
    let mut parser = JsmnParser::new();
    assert_eq!(jsmn_parse(&mut parser, text, &mut small), Err(JsmnErr::JsmErrorNoMem));
    assert_eq!(parser.toknext, 3);

    // the same call again changes nothing
    let before = (parser, small.clone());
    assert_eq!(jsmn_parse(&mut parser, text, &mut small), Err(JsmnErr::JsmErrorNoMem));
    assert_eq!(parser.pos, before.0.pos);
    assert_eq!(small, before.1);

    let mut large = small.clone();
    large.resize(10, JsmnTok::default());
    assert_eq!(jsmn_parse(&mut parser, text, &mut large), Ok(7));
    assert_eq!(&large[..7], &direct[..]);
}

#[test]
fn zero_slots_report_no_memory() {
    let mut tokens: Vec<JsmnTok> = vec![];
    let mut parser = JsmnParser::new();
    assert_eq!(jsmn_parse(&mut parser, "[1]", &mut tokens), Err(JsmnErr::JsmErrorNoMem));
    assert_eq!(parser.pos, 0);
}

#[test]
fn token_defaults() {
    assert_eq!(JsmnTok::new(), tok(JsmnType::JsmnUndefined, 0, 0, 0, 0));
    assert_eq!(JsmnTok::default(), tok(JsmnType::JsmnUndefined, 0, 0, 0, -1));
    let p = JsmnParser::new();
    assert_eq!((p.pos, p.toknext, p.toksuper), (0, 0, -1));
}
