use tilemachine::custom_script::CustomScript;
use tilemachine::utils::Error;

fn parse(text: &str) -> Result<CustomScript, Error> {
    CustomScript::new_from_str(text)
}

fn inputs_of(cs: &CustomScript) -> Vec<(String, String)> {
    cs.inputs.clone()
}

#[test]
fn test_parse_basic_descriptor() {
    let cs = parse(
        r#"{"script": "return [3 * dsm[0], rgb[1], rgb[2], 255]",
            "inputs": {"rgb": "file:a.tif", "dsm": "s3:bucket/b.tif"}}"#,
    )
    .unwrap();
    assert_eq!(cs.script, "return [3 * dsm[0], rgb[1], rgb[2], 255]");
    assert_eq!(
        inputs_of(&cs),
        vec![
            ("rgb".to_owned(), "file:a.tif".to_owned()),
            ("dsm".to_owned(), "s3:bucket/b.tif".to_owned()),
        ]
    );
}

#[test]
fn test_parse_preserves_declaration_order() {
    let cs = parse(r#"{"script":"s","inputs":{"z":"file:1","a":"file:2","m":"file:3"}}"#).unwrap();
    let names: Vec<String> = cs.inputs.iter().map(|p| p.0.clone()).collect();
    assert_eq!(names, vec!["z".to_owned(), "a".to_owned(), "m".to_owned()]);
}

#[test]
fn test_parse_members_in_either_order() {
    let cs = parse(r#"{"inputs":{"a":"file:1"},"script":"x"}"#).unwrap();
    assert_eq!(cs.script, "x");
    assert_eq!(cs.inputs.len(), 1);
}

#[test]
fn test_parse_empty_inputs_is_legal() {
    let cs = parse(r#"{"script":"return [0,0,0,255]","inputs":{}}"#).unwrap();
    assert_eq!(cs.input_count(), 0);
}

#[test]
fn test_parse_tolerates_whitespace() {
    let cs = parse(
        "  \t\r\n{ \"script\" :\n\"s\" ,\n \"inputs\" : { \"a\" : \"file:x\" \n} }  \n",
    )
    .unwrap();
    assert_eq!(cs.script, "s");
    assert_eq!(cs.inputs[0], ("a".to_owned(), "file:x".to_owned()));
}

#[test]
fn test_parse_simple_escapes() {
    let cs = parse(r#"{"script":"a\"b\\c\/d\ne\tf\rg\bh\fi","inputs":{}}"#).unwrap();
    assert_eq!(cs.script, "a\"b\\c/d\ne\tf\rg\u{8}h\u{c}i");
}

#[test]
fn test_parse_unicode_escapes() {
    let cs = parse(r#"{"script":"\u0041\u00e9\u20AC","inputs":{}}"#).unwrap();
    assert_eq!(cs.script, "A\u{e9}\u{20ac}");
}

#[test]
fn test_parse_surrogate_pair_escape() {
    let cs = parse(r#"{"script":"\uD83D\uDE00","inputs":{}}"#).unwrap();
    assert_eq!(cs.script, "\u{1F600}");
}

#[test]
fn test_parse_raw_utf8_content() {
    let cs = parse(r#"{"script":"höhe × π","inputs":{"höhe":"file:dach.tif"}}"#).unwrap();
    assert_eq!(cs.script, "höhe × π");
    assert_eq!(cs.inputs[0].0, "höhe");
}

#[test]
fn test_parse_duplicate_input_keeps_position_and_last_value() {
    let cs =
        parse(r#"{"script":"s","inputs":{"a":"file:1","b":"file:2","a":"file:3"}}"#).unwrap();
    assert_eq!(
        inputs_of(&cs),
        vec![
            ("a".to_owned(), "file:3".to_owned()),
            ("b".to_owned(), "file:2".to_owned()),
        ]
    );
}

#[test]
fn test_parse_rejects_malformed_text() {
    for text in [
        "",
        "not json",
        "{",
        r#"{"script":"s"}"#,
        r#"{"inputs":{}}"#,
        r#"{"script":"s","inputs":{}"#,
        r#"{"script":"s","inputs":{},}"#,
        r#"{"script":"s","inputs":{}} trailing"#,
        r#"{"script":"s","inputs":{"a":1}}"#,
        r#"{"script":7,"inputs":{}}"#,
        r#"{"script":"s","inputs":[]}"#,
        r#"{"script":"a","script":"b","inputs":{}}"#,
        r#"{"script":"s","inputs":{},"extra":}"#,
        r#"{"script":"s","inputs":{},"extra":01}"#,
        r#"{"script":"s","inputs":{},"extra":1.2.3}"#,
        r#"{"script":"s","inputs":{},"extra":[1,}"#,
        r#"{"script":"s","inputs":{},"extra":tru}"#,
        r#"{"script":"unterminated,"inputs":{}}"#,
        r#"{"script":"bad \q escape","inputs":{}}"#,
        r#"{"script":"\uD83D alone","inputs":{}}"#,
        r#"{"script":"\uDE00 alone","inputs":{}}"#,
        r#"{"script":"\u12","inputs":{}}"#,
        "{\"script\":\"control\u{1}char\",\"inputs\":{}}",
    ] {
        match parse(text) {
            Err(Error::DescriptorParseError(msg)) => assert!(!msg.is_empty()),
            Ok(_) => panic!("descriptor unexpectedly accepted"),
            Err(_) => panic!("wrong error kind for a malformed descriptor"),
        }
    }
}

#[test]
fn test_input_locators_and_names_follow_order() {
    let cs = parse(r#"{"script":"s","inputs":{"b":"file:1","a":"s3:2"}}"#).unwrap();
    assert_eq!(cs.input_names(), vec!["b".to_owned(), "a".to_owned()]);
    assert_eq!(
        cs.input_locators(),
        vec!["file:1".to_owned(), "s3:2".to_owned()]
    );
    assert_eq!(cs.input_count(), 2);
}

#[test]
fn test_parse_agrees_with_reference_json_parser() {
    let text = r#"{"script":"return [rgb[0], 1, 2, A]","inputs":{"rgb":"file:a.tif","dsm":"s3:b"}}"#;
    let cs = parse(text).unwrap();
    let v: serde_json::Value = serde_json::from_str(text).unwrap();
    assert_eq!(cs.script, v["script"].as_str().unwrap());
    let obj = v["inputs"].as_object().unwrap();
    assert_eq!(cs.inputs.len(), obj.len());
    for (name, locator) in cs.inputs.iter() {
        assert_eq!(obj[name].as_str().unwrap(), locator);
    }
}

#[test]
fn test_parse_discards_unrecognized_members() {
    let cs = parse(
        r#"{"comment":"legacy","script":"s","level":-1.5e+3,"flags":[true,false,null,{"a":[]}],
            "inputs":{"rgb":"file:a.tif"},"extra":{"nested":{"deep":"value"}}}"#,
    )
    .unwrap();
    assert_eq!(cs.script, "s");
    assert_eq!(
        inputs_of(&cs),
        vec![("rgb".to_owned(), "file:a.tif".to_owned())]
    );
}

#[test]
fn test_parse_rejects_nesting_beyond_limit() {
    let mut deep = String::from(r#"{"script":"s","inputs":{},"extra":"#);
    for _ in 0..200 {
        deep.push('[');
    }
    deep.push('1');
    for _ in 0..200 {
        deep.push(']');
    }
    deep.push('}');
    assert!(matches!(
        parse(&deep),
        Err(Error::DescriptorParseError(_))
    ));
    let mut shallow = String::from(r#"{"script":"s","inputs":{},"extra":"#);
    for _ in 0..20 {
        shallow.push('[');
    }
    shallow.push('1');
    for _ in 0..20 {
        shallow.push(']');
    }
    shallow.push('}');
    assert!(parse(&shallow).is_ok());
}
