use humbler::catalog::{
    content_to_value, contains_text, extract_api_info, parse_parameters, path_matches, ApiInfo,
    BuildError, Config, Humbler,
};
use humbler::document::{
    CatalogError, Document, MediaType, Operation, Parameter, ParameterFormat, ParameterLocation,
    PathItem, Property, RefOr, RequestBody, Response, Schema,
};
use humbler::render::render_markdown_table;
use humbler::resolver::Parser;
use humbler::skeleton::{record_insert_entry, text_precedes, Primitive, TypeSkeleton};

fn s(text: &str) -> String {
    text.to_string()
}

fn reference(name: &str) -> Schema {
    Schema::Reference(format!("#/components/schemas/{}", name))
}

fn prop(name: &str, schema: Schema) -> Property {
    Property { name: s(name), schema: Some(schema) }
}

fn array_of(items: Schema) -> Schema {
    Schema::Array(Some(Box::new(items)))
}

fn id_name_object() -> Schema {
    Schema::Object(vec![prop("id", Schema::Integer), prop("name", Schema::String)])
}

fn user_schema() -> Schema {
    Schema::Object(vec![
        prop("id", Schema::Integer),
        prop("username", Schema::String),
        prop("firstName", Schema::String),
        prop("lastName", Schema::String),
        prop("email", Schema::String),
        prop("password", Schema::String),
        prop("phone", Schema::String),
        prop("userStatus", Schema::Integer),
    ])
}

fn pet_components() -> Vec<(String, Schema)> {
    vec![
        (s("Category"), id_name_object()),
        (s("Tag"), id_name_object()),
        (
            s("Pet"),
            Schema::Object(vec![
                prop("id", Schema::Integer),
                prop("name", Schema::String),
                prop("category", reference("Category")),
                prop("photoUrls", array_of(Schema::String)),
                prop("tags", array_of(reference("Tag"))),
                prop("status", Schema::String),
                prop("children", array_of(reference("Pet"))),
            ]),
        ),
        (s("User"), user_schema()),
    ]
}

fn json_content(schema: Schema) -> Vec<MediaType> {
    vec![MediaType { media_type: s("application/json"), schema: Some(schema) }]
}

fn operation(id: Option<&str>, tag: &str) -> Operation {
    Operation {
        operation_id: id.map(s),
        tags: vec![s(tag)],
        parameters: vec![],
        request_body: None,
        responses: vec![],
    }
}

fn query(name: &str, schema: Schema) -> RefOr<Parameter> {
    RefOr::Item(Parameter {
        name: s(name),
        location: ParameterLocation::Query,
        format: ParameterFormat::Schema(schema),
    })
}

fn path_param(name: &str, schema: Schema) -> RefOr<Parameter> {
    RefOr::Item(Parameter {
        name: s(name),
        location: ParameterLocation::Path,
        format: ParameterFormat::Schema(schema),
    })
}

fn header(name: &str) -> RefOr<Parameter> {
    RefOr::Item(Parameter {
        name: s(name),
        location: ParameterLocation::Header,
        format: ParameterFormat::Schema(Schema::String),
    })
}

fn pet_document() -> Document {
    let mut add_pet = operation(Some("addPet"), "pet");
    add_pet.request_body = Some(RefOr::Item(RequestBody { content: json_content(reference("Pet")) }));
    add_pet.responses = vec![(s("200"), RefOr::Item(Response { content: json_content(reference("Pet")) }))];
    let mut get_pet = operation(Some("getPetById"), "pet");
    get_pet.parameters = vec![path_param("petId", Schema::Integer), header("api_key")];
    get_pet.responses = vec![(s("200"), RefOr::Item(Response { content: vec![] }))];
    let mut get_order = operation(Some("getOrderById"), "store");
    get_order.parameters = vec![path_param("orderId", Schema::Integer)];
    let mut list_users = operation(Some("createUsersWithListInput"), "user");
    list_users.request_body =
        Some(RefOr::Item(RequestBody { content: json_content(array_of(reference("User"))) }));
    Document {
        paths: vec![
            (s("/pet"), RefOr::Item(PathItem { operations: vec![(s("post"), add_pet)] })),
            (s("/pet/{petId}"), RefOr::Item(PathItem { operations: vec![(s("get"), get_pet)] })),
            (s("/shared"), RefOr::Reference(s("#/paths/other"))),
            (s("/store/order/{orderId}"), RefOr::Item(PathItem { operations: vec![(s("get"), get_order)] })),
            (s("/user/createWithList"), RefOr::Item(PathItem { operations: vec![(s("post"), list_users)] })),
        ],
        components: pet_components(),
    }
}

const PET_TEXT: &str = r#"{"category":{"id":"integer","name":"string"},"children":["Pet"],"id":"integer","name":"string","photoUrls":["string"],"status":"string","tags":[{"id":"integer","name":"string"}]}"#;

const USERS_TEXT: &str = r#"[{"email":"string","firstName":"string","id":"integer","lastName":"string","password":"string","phone":"string","userStatus":"integer","username":"string"}]"#;

fn find<'a>(infos: &'a [ApiInfo], path: &str, method: &str) -> &'a ApiInfo {
    infos.iter().find(|i| i.path == path && i.method == method).unwrap()
}

#[test]
fn humbler_content_to_value_test() {
    let content = json_content(array_of(reference("User")));
    let actual = content_to_value(&content, &pet_components()).unwrap().unwrap();
    assert_eq!(actual, USERS_TEXT);
}

#[test]
fn humbler_parse_recursive_schema() {
    let humbler = Humbler::new(s("http://localhost:4000/swagger-ui/index.html"), s("data/pet.json"));
    let api_infos = humbler.get_api_infos(&pet_document()).unwrap();
    let post_pet = find(&api_infos, "/pet", "post");
    assert_eq!(post_pet.request_body.as_deref().unwrap(), PET_TEXT);
}

#[test]
fn end_to_end_pet_entry() {
    let humbler = Humbler::new(s("http://docs"), s("pet.json"));
    let infos = humbler.get_api_infos(&pet_document()).unwrap();
    assert_eq!(infos.len(), 4);
    let post_pet = find(&infos, "/pet", "post");
    assert_eq!(post_pet.request_body.as_deref(), Some(PET_TEXT));
    assert_eq!(post_pet.response.as_deref(), Some(PET_TEXT));
    assert_eq!(post_pet.swagger_url, "http://docs/pet/addPet");
    assert!(post_pet.parameters.is_empty());
}

#[test]
fn response_array_of_users() {
    let mut op = operation(Some("listUsers"), "user");
    op.responses = vec![
        (s("200"), RefOr::Item(Response { content: json_content(array_of(reference("User"))) })),
        (s("404"), RefOr::Item(Response { content: json_content(Schema::Unsupported) })),
    ];
    let info = extract_api_info(&s("http://docs"), &pet_components(), &s("/users"), &s("get"), &op).unwrap();
    assert_eq!(info.response.as_deref(), Some(USERS_TEXT));
    assert_eq!(info.request_body, None);
}

#[test]
fn content_less_response_is_empty() {
    let humbler = Humbler::new(s("http://docs"), s("pet.json"));
    let infos = humbler.get_api_infos(&pet_document()).unwrap();
    let get_pet = find(&infos, "/pet/{petId}", "get");
    assert_eq!(get_pet.response, None);
    assert_eq!(get_pet.request_body, None);
}

#[test]
fn header_parameters_excluded() {
    let params = vec![query("status", Schema::String), header("api_key")];
    let parsed = parse_parameters(&vec![], &params).unwrap();
    assert_eq!(parsed.len(), 1);
    assert_eq!(parsed[0].0, "status");
    assert_eq!(parsed[0].1, TypeSkeleton::Primitive(Primitive::String));
}

#[test]
fn parameter_references_skipped() {
    let params = vec![RefOr::Reference(s("#/components/parameters/limit")), path_param("id", Schema::Integer)];
    let parsed = parse_parameters(&vec![], &params).unwrap();
    assert_eq!(parsed.len(), 1);
    assert_eq!(parsed[0].0, "id");
}

#[test]
fn cookie_parameter_is_unsupported() {
    let params = vec![RefOr::Item(Parameter {
        name: s("session"),
        location: ParameterLocation::Cookie,
        format: ParameterFormat::Schema(Schema::String),
    })];
    assert_eq!(parse_parameters(&vec![], &params).unwrap_err(), CatalogError::UnsupportedParameterLocation);
}

#[test]
fn content_parameter_is_unsupported() {
    let params = vec![RefOr::Item(Parameter {
        name: s("filter"),
        location: ParameterLocation::Query,
        format: ParameterFormat::Content,
    })];
    assert_eq!(parse_parameters(&vec![], &params).unwrap_err(), CatalogError::UnsupportedParameterContent);
}

#[test]
fn filter_and_semantics() {
    let keywords = vec![s("pet"), s("id")];
    assert!(path_matches(&keywords, &s("/pet/{id}")));
    assert!(!path_matches(&keywords, &s("/pet")));
    assert!(!path_matches(&keywords, &s("/store/order/{id}")));
    assert!(path_matches(&vec![], &s("/anything")));
}

#[test]
fn contains_text_cases() {
    assert!(contains_text("/pet/{petId}", "pet"));
    assert!(contains_text("abc", ""));
    assert!(!contains_text("pe", "pet"));
    assert!(contains_text("/store/order", "order"));
}

#[test]
fn filtered_catalog_keeps_matching_paths() {
    let humbler = Humbler::new(s("http://docs"), s("pet.json"))
        .filter_on(Config { filter_keywords: vec![s("pet"), s("Id")] });
    let infos = humbler.get_api_infos(&pet_document()).unwrap();
    assert_eq!(infos.len(), 1);
    assert_eq!(infos[0].path, "/pet/{petId}");
    assert_eq!(infos[0].swagger_url, "http://docs/pet/getPetById");
}

#[test]
fn missing_operation_id_aborts_build() {
    let mut doc = pet_document();
    doc.paths.push((s("/broken"), RefOr::Item(PathItem { operations: vec![(s("get"), operation(None, "x"))] })));
    let humbler = Humbler::new(s("http://docs"), s("pet.json"));
    let expected = BuildError { path: s("/broken"), method: s("get"), kind: CatalogError::MissingOperationId };
    assert_eq!(humbler.get_api_infos(&doc).unwrap_err(), expected);
    assert_eq!(humbler.run(&doc).unwrap_err(), expected);
}

#[test]
fn missing_tag_fails() {
    let mut op = operation(Some("x"), "t");
    op.tags.clear();
    let err = extract_api_info(&s("b"), &vec![], &s("/p"), &s("get"), &op).unwrap_err();
    assert_eq!(err, CatalogError::MissingTag);
}

#[test]
fn missing_content_schema_fails() {
    let content = vec![MediaType { media_type: s("application/json"), schema: None }];
    assert_eq!(content_to_value(&content, &vec![]), Some(Err(CatalogError::MissingContentSchema)));
    assert_eq!(content_to_value(&vec![], &vec![]), None);
}

#[test]
fn primitives_resolve_to_tags() {
    let mut parser = Parser::new();
    for (schema, tag) in [
        (Schema::String, Primitive::String),
        (Schema::Number, Primitive::Number),
        (Schema::Integer, Primitive::Integer),
        (Schema::Boolean, Primitive::Boolean),
    ] {
        assert_eq!(parser.parse_schema(&vec![], &schema).unwrap(), TypeSkeleton::Primitive(tag));
        let nested = array_of(array_of(schema));
        let mut fresh = Parser::new();
        let expected = TypeSkeleton::Array(Box::new(TypeSkeleton::Array(Box::new(TypeSkeleton::Primitive(tag)))));
        assert_eq!(fresh.parse_schema(&vec![], &nested).unwrap(), expected);
    }
    assert_eq!(TypeSkeleton::Primitive(Primitive::Number).to_json(), "\"number\"");
    assert_eq!(TypeSkeleton::Primitive(Primitive::Boolean).to_json(), "\"boolean\"");
}

#[test]
fn array_wraps_object() {
    let mut parser = Parser::new();
    let skeleton = parser.parse_schema(&vec![], &array_of(id_name_object())).unwrap();
    let expected = TypeSkeleton::Array(Box::new(TypeSkeleton::Object(vec![
        (s("id"), TypeSkeleton::Primitive(Primitive::Integer)),
        (s("name"), TypeSkeleton::Primitive(Primitive::String)),
    ])));
    assert_eq!(skeleton, expected);
    assert_eq!(skeleton.to_json(), r#"[{"id":"integer","name":"string"}]"#);
}

#[test]
fn cycle_through_chain_terminates() {
    let comps = vec![
        (s("A"), Schema::Object(vec![prop("b", reference("B")), prop("n", Schema::Number)])),
        (s("B"), Schema::Object(vec![prop("a", reference("A")), prop("flag", Schema::Boolean)])),
    ];
    let mut parser = Parser::new();
    let skeleton = parser.parse_schema(&comps, &reference("A")).unwrap();
    assert_eq!(skeleton.to_json(), r#"{"b":{"a":"A","flag":"boolean"},"n":"number"}"#);
}

#[test]
fn sibling_reference_collapses_to_name() {
    let comps = vec![
        (s("Category"), id_name_object()),
        (s("Pair"), Schema::Object(vec![prop("first", reference("Category")), prop("second", reference("Category"))])),
    ];
    let mut parser = Parser::new();
    let skeleton = parser.parse_schema(&comps, &reference("Pair")).unwrap();
    assert_eq!(skeleton.to_json(), r#"{"first":{"id":"integer","name":"string"},"second":"Category"}"#);
}

#[test]
fn resolution_errors() {
    let comps = vec![
        (s("Alias"), Schema::Reference(s("#/components/schemas/Other"))),
        (s("Loose"), Schema::Object(vec![Property { name: s("x"), schema: None }])),
    ];
    let mut parser = Parser::new();
    assert_eq!(parser.parse_schema(&comps, &Schema::Reference(s("#/components/schemas/"))), Err(CatalogError::MalformedReference));
    assert_eq!(parser.parse_schema(&comps, &reference("Missing")), Err(CatalogError::UnknownSchemaReference));
    assert_eq!(parser.parse_schema(&comps, &reference("Alias")), Err(CatalogError::UnknownSchemaReference));
    assert_eq!(parser.parse_schema(&comps, &Schema::Array(None)), Err(CatalogError::MissingArrayItems));
    assert_eq!(parser.parse_schema(&comps, &reference("Loose")), Err(CatalogError::MissingPropertySchema));
    assert_eq!(parser.parse_schema(&comps, &Schema::Unsupported), Err(CatalogError::UnsupportedSchemaKind));
}

#[test]
fn reference_without_slash_names_whole_string() {
    let comps = vec![(s("Plain"), Schema::Boolean)];
    let mut parser = Parser::new();
    let skeleton = parser.parse_schema(&comps, &Schema::Reference(s("Plain"))).unwrap();
    assert_eq!(skeleton, TypeSkeleton::Primitive(Primitive::Boolean));
}

#[test]
fn names_are_json_escaped() {
    let skeleton = TypeSkeleton::Name(s("Quote\"d"));
    assert_eq!(skeleton.to_json(), r#""Quote\"d""#);
    assert_eq!(TypeSkeleton::Name(s("Pet")).to_json(), "\"Pet\"");
}

#[test]
fn record_insert_orders_and_replaces() {
    let mut entries = Vec::new();
    record_insert_entry(&mut entries, s("name"), TypeSkeleton::Primitive(Primitive::String));
    record_insert_entry(&mut entries, s("id"), TypeSkeleton::Primitive(Primitive::Integer));
    record_insert_entry(&mut entries, s("name"), TypeSkeleton::Primitive(Primitive::Boolean));
    assert_eq!(entries.len(), 2);
    assert_eq!(entries[0].0, "id");
    assert_eq!(entries[1], (s("name"), TypeSkeleton::Primitive(Primitive::Boolean)));
}

#[test]
fn text_order() {
    assert!(text_precedes("Zebra", "apple"));
    assert!(text_precedes("id", "ids"));
    assert!(!text_precedes("id", "id"));
    assert!(!text_precedes("photoUrls", "name"));
}

#[test]
fn markdown_table_rows() {
    let info = ApiInfo {
        path: s("/pet/{id}"),
        method: s("get"),
        parameters: vec![
            (s("z"), TypeSkeleton::Primitive(Primitive::String)),
            (s("a"), TypeSkeleton::Array(Box::new(TypeSkeleton::Primitive(Primitive::Integer)))),
        ],
        request_body: None,
        response: Some(s("\"string\"")),
        swagger_url: s("http://docs/pet/getPet"),
    };
    let expected = "| Path | Method | Parameters | Request Body | Response | Swagger URL |\n\
| ---- | ------ | ---------- | ------------ | -------- | ----------- |\n\
| /pet/{id} | get | \"a\": [\"integer\"], \"z\": \"string\" |  | \"string\" | http://docs/pet/getPet |\n";
    assert_eq!(render_markdown_table(vec![info]), expected);
}

#[test]
fn run_renders_catalog() {
    let humbler = Humbler::new(s("http://docs"), s("pet.json"))
        .filter_on(Config { filter_keywords: vec![s("order")] });
    let table = humbler.run(&pet_document()).unwrap();
    let expected = "| Path | Method | Parameters | Request Body | Response | Swagger URL |\n\
| ---- | ------ | ---------- | ------------ | -------- | ----------- |\n\
| /store/order/{orderId} | get | \"orderId\": \"integer\" |  |  | http://docs/store/getOrderById |\n";
    assert_eq!(table, expected);
    assert_eq!(humbler.openapi_json_url(), "pet.json");
}

#[test]
fn into_reference_gives_reference() {
    let r: RefOr<PathItem> = RefOr::Reference(s("#/paths/x"));
    assert_eq!(r.into_reference(), Some(s("#/paths/x")));
    let i: RefOr<RequestBody> = RefOr::Item(RequestBody { content: vec![] });
    assert_eq!(i.into_reference(), None);
}
