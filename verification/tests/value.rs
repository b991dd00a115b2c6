use divvun_runtime::value::Value;

fn s(t: &str) -> Value {
    Value::String(t.to_string())
}

#[test]
fn scalars_are_read_by_their_kind() {
    assert_eq!(Value::Int(7).try_as_int(), Some(7));
    assert_eq!(s("7").try_as_int(), None);
    assert_eq!(s("abc").try_as_string(), Some("abc".to_string()));
    assert_eq!(Value::Null.try_as_string(), None);
    assert_eq!(s("/usr/share/x.hfst").try_as_path(), Some("/usr/share/x.hfst".to_string()));
}

#[test]
fn arrays_of_strings_are_read_whole_or_not_at_all() {
    let a = Value::Array(vec![s("a"), s("b")]);
    assert_eq!(a.try_as_array_string(), Some(vec!["a".to_string(), "b".to_string()]));
    assert_eq!(a.try_as_array_path(), Some(vec!["a".to_string(), "b".to_string()]));
    assert_eq!(Value::Array(vec![s("a"), Value::Int(1)]).try_as_array_string(), None);
    assert_eq!(s("a").try_as_array_string(), None);
}

#[test]
fn maps_keep_their_order() {
    let m = Value::Mapping(vec![("z".to_string(), s("1")), ("a".to_string(), s("2"))]);
    assert_eq!(
        m.try_as_map_string(),
        Some(vec![("z".to_string(), "1".to_string()), ("a".to_string(), "2".to_string())])
    );
    assert_eq!(m.try_as_map_path(), m.try_as_map_string());
    assert_eq!(Value::Int(1).try_as_map_string(), None);
}
