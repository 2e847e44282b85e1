use linera_lite::json::{
    application_entrypoints, fill_type, fill_type_within, get_field, list_entrypoints, set_field, Json,
};

fn s(text: &str) -> Json {
    Json::String(text.to_string())
}

fn obj(fields: Vec<(&str, Json)>) -> Json {
    Json::Object(fields.into_iter().map(|(k, v)| (k.to_string(), v)).collect())
}

fn types() -> Vec<Json> {
    vec![
        obj(vec![
            ("name", s("QueryRoot")),
            ("kind", s("OBJECT")),
            (
                "fields",
                Json::Array(vec![obj(vec![
                    ("name", s("value")),
                    ("type", obj(vec![("kind", s("SCALAR")), ("name", s("Int")), ("ofType", Json::Null)])),
                    ("args", Json::Array(vec![])),
                ])]),
            ),
        ]),
        obj(vec![("name", s("Int")), ("kind", s("SCALAR"))]),
    ]
}

fn filled_int() -> Json {
    obj(vec![
        ("kind", s("SCALAR")),
        ("name", s("Int")),
        ("ofType", Json::Null),
        ("type", Json::Null),
        ("args", Json::Null),
        ("_include", Json::Bool(true)),
    ])
}

fn filled_value_field() -> Json {
    obj(vec![
        ("name", s("value")),
        ("type", filled_int()),
        ("args", Json::Array(vec![])),
        ("ofType", Json::Null),
    ])
}

#[test]
fn fields_are_read_and_set() {
    let mut fields = vec![("a".to_string(), Json::Bool(true))];
    assert!(get_field(&fields, "a").unwrap().equals(&Json::Bool(true)));
    assert!(get_field(&fields, "b").is_none());
    set_field(&mut fields, "b", Json::Null);
    set_field(&mut fields, "a", Json::Bool(false));
    assert_eq!(fields.len(), 2);
    assert!(get_field(&fields, "a").unwrap().equals(&Json::Bool(false)));
    assert_eq!(fields[1].0, "b");
}

#[test]
fn equality_and_copies() {
    let t = types();
    let copy = t[0].duplicate();
    assert!(copy.equals(&t[0]));
    assert!(!copy.equals(&t[1]));
    assert!(!Json::Number("1".to_string()).equals(&Json::Number("2".to_string())));
    assert!(s("x").is_str("x"));
    assert!(!Json::Null.is_str("x"));
}

#[test]
fn entry_points_are_the_fields_of_the_named_type() {
    let t = types();
    let fields = list_entrypoints(&t, &s("QueryRoot")).unwrap();
    assert!(fields.equals(&Json::Array(vec![obj(vec![
        ("name", s("value")),
        ("type", obj(vec![("kind", s("SCALAR")), ("name", s("Int")), ("ofType", Json::Null)])),
        ("args", Json::Array(vec![])),
    ])])));
    assert!(list_entrypoints(&t, &s("Int")).unwrap().equals(&Json::Null));
    assert!(list_entrypoints(&t, &s("Missing")).is_none());
    assert!(list_entrypoints(&t, &Json::Null).is_none());
}

#[test]
fn scalars_are_marked_for_inclusion() {
    let t = types();
    let element = obj(vec![("kind", s("SCALAR")), ("name", s("Int")), ("ofType", Json::Null)]);
    assert!(fill_type(&element, &t).equals(&filled_int()));
    assert!(fill_type(&s("plain"), &t).equals(&s("plain")));
    assert!(fill_type(&Json::Null, &t).equals(&Json::Null));
}

#[test]
fn objects_get_the_fields_of_their_definition() {
    let t = types();
    let element = obj(vec![("kind", s("OBJECT")), ("name", s("QueryRoot"))]);
    let filled = fill_type(&element, &t);
    let expected = obj(vec![
        ("kind", s("OBJECT")),
        ("name", s("QueryRoot")),
        ("fields", Json::Array(vec![filled_value_field()])),
        ("ofType", Json::Null),
        ("type", Json::Null),
        ("args", Json::Null),
        ("_include", Json::Bool(true)),
    ]);
    assert!(filled.equals(&expected));
}

#[test]
fn lists_get_an_input_list() {
    let t = types();
    let element = obj(vec![("kind", s("LIST")), ("ofType", filled_int())]);
    let filled = fill_type(&element, &t);
    match &filled {
        Json::Object(fields) => {
            assert!(get_field(fields, "_input").unwrap().equals(&Json::Array(vec![])));
            assert!(get_field(fields, "_include").is_none());
        }
        _ => panic!("not an object"),
    }
}

#[test]
fn application_entry_points_from_an_introspection_answer() {
    let answer = obj(vec![(
        "data",
        obj(vec![(
            "__schema",
            obj(vec![
                ("types", Json::Array(types())),
                ("queryType", obj(vec![("name", s("QueryRoot"))])),
                ("mutationType", Json::Null),
            ]),
        )]),
    )]);
    let (queries, mutations, subscriptions) = application_entrypoints(&answer).unwrap();
    assert!(queries.equals(&Json::Array(vec![filled_value_field()])));
    assert!(mutations.equals(&Json::Array(vec![])));
    assert!(subscriptions.equals(&Json::Array(vec![])));
}

#[test]
fn filling_within_fuel() {
    let t = types();
    let element = obj(vec![("kind", s("OBJECT")), ("name", s("QueryRoot"))]);
    assert!(fill_type_within(&element, &t, 0).is_none());
    assert!(fill_type_within(&Json::Null, &t, 0).is_none());
    assert!(fill_type_within(&Json::Null, &t, 1).unwrap().equals(&Json::Null));
    assert!(fill_type_within(&element, &t, 1).is_none());
    let enough = fill_type_within(&element, &t, 10).unwrap();
    assert!(enough.equals(&fill_type(&element, &t)));
}

#[test]
fn a_definition_without_its_list_cannot_be_filled() {
    let t = vec![obj(vec![("name", s("Broken")), ("kind", s("OBJECT"))])];
    let element = obj(vec![("kind", s("OBJECT")), ("name", s("Broken"))]);
    assert!(fill_type_within(&element, &t, u64::MAX).is_none());
}

#[test]
fn a_recursive_type_is_filled_only_as_deep_as_the_fuel() {
    let t = vec![obj(vec![
        ("name", s("Node")),
        ("kind", s("OBJECT")),
        ("fields", Json::Array(vec![obj(vec![("type", obj(vec![("kind", s("OBJECT")), ("name", s("Node"))]))])])),
    ])];
    let element = obj(vec![("kind", s("OBJECT")), ("name", s("Node"))]);
    assert!(fill_type_within(&element, &t, 50).is_none());
}
