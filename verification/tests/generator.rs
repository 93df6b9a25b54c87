use krpc_client::krpc_build::{
    decode_list, decode_set, decode_type, generate_module_definition,
    generate_procedure_definition, get_fn_name, get_params, get_struct, rewrite_keywords,
    split_name, JsonValue, Parameters,
};

fn obj(members: Vec<(&str, JsonValue)>) -> JsonValue {
    JsonValue::Object(members.into_iter().map(|(k, v)| (k.to_string(), v)).collect())
}

fn code(c: &str) -> JsonValue {
    obj(vec![("code", JsonValue::Str(c.to_string()))])
}

#[test]
fn test_get_fn_name() {
    assert_eq!(
        get_fn_name(&split_name("SpaceCenter_get_ActiveVessel")),
        String::from("get_active_vessel")
    );
}

#[test]
fn receiver_inference_splits_on_capitalised_first_segment() {
    assert_eq!(
        get_struct(&split_name("Vessel_get_Name")),
        Some("Vessel".to_string())
    );
    assert_eq!(get_struct(&split_name("get_ActiveVessel")), None);
    assert_eq!(get_struct(&split_name("Vessel")), None);
    assert_eq!(get_fn_name(&split_name("Vessel_get_Name")), "get_name");
    assert_eq!(get_fn_name(&split_name("get_UT")), "get_ut");
}

#[test]
fn keyword_parameter_names_become_raw() {
    assert_eq!(rewrite_keywords("type".to_string()), "r#type");
    assert_eq!(rewrite_keywords("name".to_string()), "name");
}

#[test]
fn type_mapping_table() {
    assert_eq!(decode_type(&code("STRING"), false, false, 8).unwrap(), "String");
    assert_eq!(decode_type(&code("SINT32"), false, false, 8).unwrap(), "i32");
    assert_eq!(decode_type(&code("UINT64"), false, false, 8).unwrap(), "u64");
    assert_eq!(decode_type(&code("BOOL"), false, false, 8).unwrap(), "bool");
    assert_eq!(decode_type(&code("DOUBLE"), false, false, 8).unwrap(), "f64");
    assert_eq!(decode_type(&code("BYTES"), false, false, 8).unwrap(), "Vec<u8>");

    let class = obj(vec![
        ("code", JsonValue::Str("CLASS".to_string())),
        ("service", JsonValue::Str("SpaceCenter".to_string())),
        ("name", JsonValue::Str("Vessel".to_string())),
    ]);
    assert_eq!(
        decode_type(&class, false, false, 8).unwrap(),
        "crate::services::space_center::Vessel"
    );
    // class handles borrow in parameter position and wrap when nullable
    assert_eq!(
        decode_type(&class, true, false, 8).unwrap(),
        "&crate::services::space_center::Vessel"
    );
    assert_eq!(
        decode_type(&class, false, true, 8).unwrap(),
        "Option<crate::services::space_center::Vessel>"
    );

    let list = obj(vec![
        ("code", JsonValue::Str("LIST".to_string())),
        ("types", JsonValue::Array(vec![code("UINT32")])),
    ]);
    assert_eq!(decode_type(&list, false, false, 8).unwrap(), "Vec<u32>");

    let tuple = obj(vec![
        ("code", JsonValue::Str("TUPLE".to_string())),
        ("types", JsonValue::Array(vec![code("UINT32"), code("BOOL")])),
    ]);
    assert_eq!(decode_type(&tuple, false, false, 8).unwrap(), "(u32, bool)");

    let dict = obj(vec![
        ("code", JsonValue::Str("DICTIONARY".to_string())),
        ("types", JsonValue::Array(vec![code("STRING"), code("DOUBLE")])),
    ]);
    assert_eq!(
        decode_type(&dict, false, false, 8).unwrap(),
        "std::collections::HashMap<String, f64>"
    );

    let set = obj(vec![
        ("code", JsonValue::Str("SET".to_string())),
        ("types", JsonValue::Array(vec![code("STRING")])),
    ]);
    assert_eq!(
        decode_type(&set, false, false, 8).unwrap(),
        "std::collections::HashSet<String>"
    );
}

fn vessel_get_name_definition() -> JsonValue {
    obj(vec![
        (
            "parameters",
            JsonValue::Array(vec![obj(vec![
                ("name", JsonValue::Str("this".to_string())),
                (
                    "type",
                    obj(vec![
                        ("code", JsonValue::Str("CLASS".to_string())),
                        ("service", JsonValue::Str("SpaceCenter".to_string())),
                        ("name", JsonValue::Str("Vessel".to_string())),
                    ]),
                ),
            ])]),
        ),
        ("return_type", code("STRING")),
    ])
}

#[test]
fn this_parameters_bind_the_receiver() {
    // the receiver parameter takes no declared argument, and its wire
    // argument draws on the receiver at position 0
    let p = Parameters::from_json(&vessel_get_name_definition(), 8).unwrap();
    assert!(p.names.is_empty());
    assert!(p.types.is_empty());
    assert_eq!(p.as_args, vec!["self.to_argument(0)?".to_string()]);
}

#[test]
fn generated_methods_take_self_without_an_explicit_this() {
    let text = generate_procedure_definition(
        "Vessel_get_Name",
        &vessel_get_name_definition(),
        "SpaceCenter",
        "SpaceCenter",
        8,
    )
    .unwrap();
    assert!(text.contains("impl Vessel {"));
    assert!(text.contains("pub fn get_name(&self) -> Result<String, RpcError>"));
    assert!(text.contains("self.to_argument(0)?"));
    assert!(!text.contains("this"));
    assert!(text.contains("\"Vessel_get_Name\""));
}

#[test]
fn generated_modules_carry_their_parts() {
    let service = obj(vec![
        (
            "classes",
            obj(vec![("Vessel", obj(vec![]))]),
        ),
        (
            "enumerations",
            obj(vec![(
                "CameraMode",
                obj(vec![(
                    "values",
                    JsonValue::Array(vec![
                        obj(vec![("name", JsonValue::Str("Free".to_string()))]),
                        obj(vec![("name", JsonValue::Str("Chase".to_string()))]),
                    ]),
                )]),
            )]),
        ),
        (
            "procedures",
            obj(vec![(
                "get_ActiveVessel",
                obj(vec![
                    ("parameters", JsonValue::Array(vec![])),
                    (
                        "return_type",
                        obj(vec![
                            ("code", JsonValue::Str("CLASS".to_string())),
                            ("service", JsonValue::Str("SpaceCenter".to_string())),
                            ("name", JsonValue::Str("Vessel".to_string())),
                        ]),
                    ),
                ]),
            )]),
        ),
    ]);
    let text = generate_module_definition("SpaceCenter", &service, 8).unwrap();
    assert!(text.contains("pub mod space_center {"));
    assert!(text.contains("pub struct SpaceCenter {"));
    assert!(text.contains("crate::schema::rpc_object!(Vessel);"));
    assert!(text.contains("crate::schema::rpc_enum!(CameraMode, [Free, Chase]);"));
    assert!(text.contains(
        "pub fn get_active_vessel(&self) -> Result<crate::services::space_center::Vessel, RpcError>"
    ));
    // the generator is deterministic: two runs agree byte for byte
    let again = generate_module_definition("SpaceCenter", &service, 8).unwrap();
    assert_eq!(text, again);
}

#[test]
fn missing_catalogue_sections_read_as_empty() {
    let text = generate_module_definition("EmptyService", &obj(vec![]), 8).unwrap();
    assert!(text.contains("pub mod empty_service {"));
    assert!(text.contains("pub struct EmptyService {"));
}

#[test]
fn parameter_lists_read_out_of_definitions() {
    let ps = get_params(&vessel_get_name_definition()).unwrap().len();
    assert_eq!(ps, 1);
    assert!(get_params(&obj(vec![])).is_err());
}

#[test]
fn list_and_set_types_render() {
    let list = obj(vec![
        ("code", JsonValue::Str("LIST".to_string())),
        ("types", JsonValue::Array(vec![code("BOOL")])),
    ]);
    assert_eq!(decode_list(&list, 8).unwrap(), "Vec<bool>");
    assert_eq!(
        decode_set(&list, 8).unwrap(),
        "std::collections::HashSet<bool>"
    );
}
