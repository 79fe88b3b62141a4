use jsonparse::extract::{decode, extract_data, Debt, DebtRec};
use jsonparse::json::{parse, Json};

fn record(text: &str) -> DebtRec {
    decode(text.as_bytes()).unwrap().unwrap()
}

fn strings(items: &[&str]) -> Vec<String> {
    items.iter().map(|s| s.to_string()).collect()
}

#[test]
fn parse_builds_the_tree() {
    let j = parse(b"{\"b\":[1,\"x\",null,true],\"a\":{\"n\":-2.5}}").unwrap();
    let expected = Json::Object {
        members: vec![
            (
                "a".to_string(),
                Json::Object {
                    members: vec![("n".to_string(), Json::Number("-2.5".to_string()))],
                    text: "{\"n\":-2.5}".to_string(),
                },
            ),
            (
                "b".to_string(),
                Json::Array {
                    items: vec![
                        Json::Number("1".to_string()),
                        Json::Text("x".to_string()),
                        Json::Null,
                        Json::Bool(true),
                    ],
                    text: "[1,\"x\",null,true]".to_string(),
                },
            ),
        ],
        text: "{\"a\":{\"n\":-2.5},\"b\":[1,\"x\",null,true]}".to_string(),
    };
    assert_eq!(j, expected);
}

#[test]
fn parse_rejects_what_is_no_json() {
    assert!(parse(b"{\"a\":}").is_err());
    assert!(parse(b"{\"a\":1} x").is_err());
    assert!(parse(b"").is_err());
    assert!(parse(&[b'{', b'"', 0xff, b'"', b':', b'1', b'}']).is_err());
}

#[test]
fn parse_unescapes_strings() {
    let j = parse(b"\"a\\\"b\\n\\u0041\"").unwrap();
    assert_eq!(j, Json::Text("a\"b\nA".to_string()));
}

#[test]
fn get_finds_members_by_key() {
    let j = parse(b"{\"a\":1,\"b\":\"x\"}").unwrap();
    assert_eq!(j.get("b"), Some(&Json::Text("x".to_string())));
    assert_eq!(j.get("a"), Some(&Json::Number("1".to_string())));
    assert_eq!(j.get("c"), None);
    assert_eq!(Json::Null.get("a"), None);
}

#[test]
fn stringify_gives_content_or_json_text() {
    assert_eq!(Json::Text("a b".to_string()).stringify(), "a b");
    assert_eq!(Json::Null.stringify(), "null");
    assert_eq!(Json::Bool(true).stringify(), "true");
    assert_eq!(Json::Bool(false).stringify(), "false");
    assert_eq!(parse(b"12.50").unwrap().stringify(), "12.5");
    assert_eq!(parse(b"[1, \"a\" , {\"k\" : null}]").unwrap().stringify(), "[1,\"a\",{\"k\":null}]");
}

#[test]
fn company_object_with_name_and_debt_as_string() {
    let dr = record("{\"company\":{\"name\":\"X\"},\"phone\":\"p\",\"debt\":\"2.5\"}");
    assert_eq!(dr.company, "X");
    assert_eq!(dr.phones, strings(&["p"]));
    assert_eq!(dr.debt, Debt::Text("2.5".to_string()));
}

#[test]
fn company_as_string_is_taken_verbatim() {
    let dr = record("{\"company\":\"Acme \\\"Inc\\\"\"}");
    assert_eq!(dr.company, "Acme \"Inc\"");
}

#[test]
fn company_object_without_name_is_stringified() {
    let dr = record("{\"company\":{\"id\": 7, \"a\":\"b\"}}");
    assert_eq!(dr.company, "{\"a\":\"b\",\"id\":7}");
}

#[test]
fn company_object_with_name_that_is_no_string_is_stringified() {
    let dr = record("{\"company\":{\"name\":5}}");
    assert_eq!(dr.company, "{\"name\":5}");
}

#[test]
fn company_of_another_kind_is_stringified() {
    assert_eq!(record("{\"company\":17}").company, "17");
    assert_eq!(record("{\"company\":[1,2]}").company, "[1,2]");
    assert_eq!(record("{\"company\":true}").company, "true");
    assert_eq!(record("{\"company\":null}").company, "null");
}

#[test]
fn missing_company_is_the_empty_string() {
    let dr = record("{\"phones\":[\"1\"]}");
    assert_eq!(dr.company, "");
}

#[test]
fn phones_array_then_single_phone() {
    let dr = record("{\"phones\":[\"1\",2,{\"a\":1},null,\"1\"],\"phone\":\"9\"}");
    assert_eq!(dr.phones, strings(&["1", "2", "{\"a\":1}", "null", "1", "9"]));
}

#[test]
fn phones_that_is_no_array_counts_as_one_phone() {
    assert_eq!(record("{\"phones\":\"12\"}").phones, strings(&["12"]));
    assert_eq!(record("{\"phones\":12}").phones, strings(&["12"]));
    assert_eq!(record("{\"phones\":{\"a\":1}}").phones, strings(&["{\"a\":1}"]));
}

#[test]
fn null_and_missing_phones_give_nothing() {
    assert!(record("{\"phones\":null,\"phone\":null}").phones.is_empty());
    assert!(record("{\"company\":\"A\"}").phones.is_empty());
    assert!(record("{\"phones\":[]}").phones.is_empty());
}

#[test]
fn single_phone_of_another_kind_is_stringified() {
    assert_eq!(record("{\"phone\":5551234}").phones, strings(&["5551234"]));
    assert_eq!(record("{\"phone\":[1]}").phones, strings(&["[1]"]));
}

#[test]
fn debt_number_string_and_other() {
    assert_eq!(record("{\"debt\":10}").debt, Debt::Number("10".to_string()));
    assert_eq!(record("{\"debt\":-1.25e2}").debt, Debt::Number("-125.0".to_string()));
    assert_eq!(record("{\"debt\":\"abc\"}").debt, Debt::Text("abc".to_string()));
    assert_eq!(record("{\"debt\":null}").debt, Debt::Zero);
    assert_eq!(record("{\"debt\":[1]}").debt, Debt::Zero);
    assert_eq!(record("{}").debt, Debt::Zero);
}

#[test]
fn extract_data_reads_a_tree_written_by_hand() {
    let o = Json::Object {
        members: vec![
            ("company".to_string(), Json::Text("Acme".to_string())),
            ("debt".to_string(), Json::Number("10".to_string())),
            (
                "phones".to_string(),
                Json::Array {
                    items: vec![Json::Text("1".to_string()), Json::Number("2".to_string())],
                    text: "[\"1\",2]".to_string(),
                },
            ),
        ],
        text: String::new(),
    };
    let dr = extract_data(&o);
    assert_eq!(
        dr,
        DebtRec {
            company: "Acme".to_string(),
            phones: strings(&["1", "2"]),
            debt: Debt::Number("10".to_string()),
        }
    );
}

#[test]
fn extract_data_of_what_is_no_object_is_empty() {
    let dr = extract_data(&Json::Number("1".to_string()));
    assert_eq!(dr, DebtRec { company: String::new(), phones: vec![], debt: Debt::Zero });
}

#[test]
fn decode_rejects_what_is_malformed() {
    assert!(decode(b"{\"company\":").is_err());
    assert!(decode(b"{bad}").is_err());
    assert!(decode(b"").is_err());
    assert!(decode(&[b'{', b'"', 0xff, b'"', b':', b'1', b'}']).is_err());
}

#[test]
fn decode_drops_a_value_that_is_no_object() {
    assert!(matches!(decode(b"[1,2]"), Ok(None)));
    assert!(matches!(decode(b"17"), Ok(None)));
    assert!(matches!(decode(b"\"text\""), Ok(None)));
    assert!(matches!(decode(b"null"), Ok(None)));
    assert!(matches!(decode(b" true "), Ok(None)));
}

#[test]
fn decode_reads_an_object() {
    let dr = decode(b"{\"company\":\"A\",\"phone\":\"1\",\"debt\":3}").unwrap().unwrap();
    assert_eq!(
        dr,
        DebtRec {
            company: "A".to_string(),
            phones: strings(&["1"]),
            debt: Debt::Number("3".to_string()),
        }
    );
    assert!(matches!(decode(b"{}"), Ok(Some(_))));
}
