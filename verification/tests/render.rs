use rgit::render::{json_escape, to_json};
use rgit::rjson::{parse, Value};

#[test]
fn escapes_like_serde_json() {
    assert_eq!(json_escape("plain 日本"), "plain 日本");
    assert_eq!(json_escape("a\"b\\c/d"), "a\\\"b\\\\c/d");
    assert_eq!(json_escape("\n\t\r\u{8}\u{c}"), "\\n\\t\\r\\b\\f");
    assert_eq!(json_escape("\u{1}\u{1f}"), "\\u0001\\u001f");
}

#[test]
fn writes_compact_json() {
    let v = parse(r#" { "a" : [ 1 , true , null ] , "b" : "x\"y" , "c" : { } , "d" : [ ] } "#).unwrap();
    assert_eq!(to_json(&v), r#"{"a":[1,true,null],"b":"x\"y","c":{},"d":[]}"#);
}

#[test]
fn written_text_reads_back() {
    let first = parse(r#"{"k":["\u0001\n","é",-2.5e3,false],"e":{"x":null}}"#).unwrap();
    let text = to_json(&first);
    let again = parse(&text).unwrap();
    assert_eq!(to_json(&again), text);
    let arr = again.get("k").unwrap().as_array().unwrap();
    assert_eq!(arr[0].as_str(), Some("\u{1}\n"));
    assert_eq!(arr[1].as_str(), Some("é"));
    assert!(matches!(&arr[2], Value::Number(t) if t == "-2.5e3"));
    assert!(matches!(arr[3], Value::Bool(false)));
}

#[test]
fn clone_copies_the_whole_value() {
    let v = parse(r#"{"a":[1,{"b":"c"}],"d":true}"#).unwrap();
    let c = v.clone();
    drop(v);
    assert_eq!(to_json(&c), r#"{"a":[1,{"b":"c"}],"d":true}"#);
}
