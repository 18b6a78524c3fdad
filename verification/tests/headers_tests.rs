use mini_http::headers::Headers;

#[test]
fn a_new_table_is_empty() {
    let h = Headers::new();
    assert_eq!(h.len(), 0);
    assert_eq!(h.get("Host"), None);
    assert_eq!(h.position("Host"), None);
}

#[test]
fn insert_then_get() {
    let mut h = Headers::new();
    h.insert("Host".to_string(), "example.org".to_string());
    h.insert("Accept".to_string(), "*/*".to_string());
    assert_eq!(h.len(), 2);
    assert_eq!(h.get("Host").map(|v| v.as_str()), Some("example.org"));
    assert_eq!(h.get("Accept").map(|v| v.as_str()), Some("*/*"));
    assert_eq!(h.get("Missing"), None);
}

#[test]
fn names_are_compared_as_they_stand() {
    let mut h = Headers::new();
    h.insert("Content-Length".to_string(), "5".to_string());
    assert_eq!(h.get("content-length"), None);
    assert_eq!(h.get("Content-Length ").map(|v| v.as_str()), None);
    h.insert("content-length".to_string(), "6".to_string());
    assert_eq!(h.len(), 2);
    assert_eq!(h.get("Content-Length").map(|v| v.as_str()), Some("5"));
    assert_eq!(h.get("content-length").map(|v| v.as_str()), Some("6"));
}

#[test]
fn a_repeated_name_overwrites_in_place() {
    let mut h = Headers::new();
    h.insert("A".to_string(), "1".to_string());
    h.insert("B".to_string(), "2".to_string());
    h.insert("A".to_string(), "3".to_string());
    assert_eq!(h.len(), 2);
    assert_eq!(h.get("A").map(|v| v.as_str()), Some("3"));
    assert_eq!(h.name_at(0), "A");
    assert_eq!(h.value_at(0), "3");
    assert_eq!(h.name_at(1), "B");
    assert_eq!(h.value_at(1), "2");
    assert_eq!(h.position("B"), Some(1));
}

#[test]
fn an_empty_name_is_a_name() {
    let mut h = Headers::new();
    h.insert(String::new(), "v".to_string());
    assert_eq!(h.get("").map(|v| v.as_str()), Some("v"));
    assert_eq!(h.len(), 1);
}
