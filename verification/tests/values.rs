use laskea::Object;
use laskea::Text;
use laskea::Value;

fn text(s: &str) -> Text {
    Text::new(s)
}

#[test]
fn values_compare_structurally() {
    assert_eq!(Value::Number(1), Value::Number(1));
    assert_ne!(Value::Number(1), Value::Number(2));
    assert_eq!(Value::String(text("a")), Value::String(text("a")));
    assert_ne!(Value::String(text("a")), Value::String(text("b")));
    assert_ne!(Value::String(text("1")), Value::Number(1));
    assert_eq!(Value::Indeterminate, Value::Indeterminate);
    assert_ne!(Value::Indeterminate, Value::Boolean(false));
}

#[test]
fn eq_value_matches_derived_equality() {
    let mut left = Object::new();
    left.insert(text("a"), Value::Number(1));
    left.insert(text("b"), Value::Boolean(true));
    let mut right = Object::new();
    right.insert(text("b"), Value::Boolean(true));
    right.insert(text("a"), Value::Number(1));

    let left = Value::Object(left);
    let right = Value::Object(right);
    assert!(left.eq_value(&right));
    assert_eq!(left, right);
}

#[test]
fn insert_order_does_not_matter() {
    // Fields are kept sorted by name, so two objects that encode the same
    // mapping are structurally identical however they were built.
    let mut one = Object::new();
    one.insert(text("url"), Value::String(text("u")));
    one.insert(text("body"), Value::Number(7));
    one.insert(text("status"), Value::Number(200));

    let mut other = Object::new();
    other.insert(text("status"), Value::Number(200));
    other.insert(text("url"), Value::String(text("u")));
    other.insert(text("body"), Value::Number(7));

    assert_eq!(Value::Object(one.clone()), Value::Object(other.clone()));
    assert_eq!(
        Value::Object(one).fingerprint(),
        Value::Object(other).fingerprint()
    );
}

#[test]
fn insert_replaces_an_existing_field() {
    let mut obj = Object::new();
    obj.insert(text("k"), Value::Number(1));
    obj.insert(text("k"), Value::Number(2));
    assert_eq!(obj.len(), 1);
    assert_eq!(obj.get(&text("k")), Some(&Value::Number(2)));
    assert_eq!(obj.get(&text("missing")), None);
}

#[test]
fn fingerprint_agrees_with_equality() {
    let a = Value::String(text("hello"));
    let b = Value::String(text("hello"));
    assert_eq!(a.fingerprint(), b.fingerprint());

    let c = Value::String(text("world"));
    assert_ne!(a.fingerprint(), c.fingerprint());

    assert_ne!(Value::Number(1).fingerprint(), Value::Number(-1).fingerprint());
    assert_ne!(Value::Number(1).fingerprint(), Value::Boolean(true).fingerprint());
}

#[test]
fn response_encoding_has_the_four_fields() {
    let response = laskea::Response {
        url: text("http://example.com/"),
        status: 200,
        status_text: text("OK"),
        body: Value::Number(42),
    };
    let encoded = Value::from_response(&response);
    match encoded {
        Value::Object(obj) => {
            assert_eq!(obj.len(), 4);
            assert_eq!(obj.get(&text("url")), Some(&Value::String(text("http://example.com/"))));
            assert_eq!(obj.get(&text("status")), Some(&Value::Number(200)));
            assert_eq!(obj.get(&text("status_text")), Some(&Value::String(text("OK"))));
            assert_eq!(obj.get(&text("body")), Some(&Value::Number(42)));
        }
        other => panic!("expected an object, got {:?}", other),
    }
}

#[test]
fn texts_compare_by_content() {
    assert_eq!(text("same"), text("same"));
    assert_ne!(text("same"), text("other"));
    assert!(text("abc").eq_text(&text("abc")));
    assert!(!text("abc").eq_text(&text("abd")));
    assert_eq!(text("abc").as_str(), "abc");
}
