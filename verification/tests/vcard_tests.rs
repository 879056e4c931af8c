use rdap_core::vcard::{JsonVal, VCard, VCardValue};

fn s(t: &str) -> JsonVal {
    JsonVal::Str(t.to_string())
}

fn prop(name: &str, value: JsonVal) -> JsonVal {
    JsonVal::Arr(vec![s(name), JsonVal::Obj(vec![], "{}".to_string()), s("text"), value])
}

#[test]
fn test_vcard_from_array() {
    let arr = vec![
        s("vcard"),
        JsonVal::Arr(vec![prop("fn", s("Ada Lovelace")), prop("email", s("ada@example.com"))]),
    ];
    let card = VCard::from_array(&arr).unwrap();
    assert_eq!(card.name().unwrap(), "Ada Lovelace");
    assert_eq!(card.email().unwrap(), "ada@example.com");
    assert!(card.tel().is_none());
    assert_eq!(card.properties().len(), 2);
}

#[test]
fn test_vcard_rejects_bad_shape() {
    assert!(VCard::from_array(&vec![s("vcard")]).is_none());
    assert!(VCard::from_array(&vec![s("jcard"), JsonVal::Arr(vec![])]).is_none());
    assert!(VCard::from_array(&vec![s("vcard"), s("oops")]).is_none());
}

#[test]
fn test_vcard_skips_malformed_properties() {
    let arr = vec![
        s("vcard"),
        JsonVal::Arr(vec![JsonVal::Arr(vec![s("fn")]), prop("org", s("Acme"))]),
    ];
    let card = VCard::from_array(&arr).unwrap();
    assert_eq!(card.properties().len(), 1);
    assert_eq!(card.org().unwrap(), "Acme");
}

#[test]
fn test_vcard_address() {
    let adr = JsonVal::Arr(vec![
        s("adr"),
        JsonVal::Obj(vec![("label".to_string(), s("1 Main St\nTown"))], "{}".to_string()),
        s("text"),
        JsonVal::Arr(vec![s(""), s(""), s("1 Main St"), s("Town"), s("TS"), s("12345"), s("GB")]),
    ]);
    let card = VCard::from_array(&vec![s("vcard"), JsonVal::Arr(vec![adr])]).unwrap();
    let a = card.address().unwrap();
    assert_eq!(a.street, "1 Main St");
    assert_eq!(a.locality, "Town");
    assert_eq!(a.country, "GB");
    assert_eq!(a.label.as_deref(), Some("1 Main St\nTown"));
}

#[test]
fn test_value_from_json() {
    let v = VCardValue::from_json(&JsonVal::Arr(vec![s("a"), s("b")]));
    assert!(matches!(v, VCardValue::Structured(ref xs) if xs == &vec!["a".to_string(), "b".to_string()]));
    let mixed = VCardValue::from_json(&JsonVal::Arr(vec![s("a"), JsonVal::Raw("1".to_string())]));
    assert!(matches!(mixed, VCardValue::Array(ref xs) if xs.is_empty()));
    let t = VCardValue::from_json(&JsonVal::Raw("42".to_string()));
    assert!(matches!(t, VCardValue::Text(ref x) if x == "42"));
}
