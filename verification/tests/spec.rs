use para_api::json::Document;
use para_api::names::{derived_name, unique};
use para_api::spec::{noeta_type, parse, parse_document, snake_case, In};

#[test]
fn snake_case_lands_every_convention_on_one() {
    assert_eq!(snake_case("listPets"), "list_pets");
    assert_eq!(snake_case("list-pets"), "list_pets");
    assert_eq!(snake_case("List Pets"), "list_pets");
    assert_eq!(snake_case("pets.list"), "pets_list");
    assert_eq!(snake_case("HTTPProxy"), "httpproxy");
    // Must still be an identifier afterwards, whatever went in.
    assert_eq!(snake_case("2fa"), "op_2fa");
    assert_eq!(snake_case("---"), "op_");
}

#[test]
fn snake_case_treats_edges_and_runs_of_separators_alike() {
    assert_eq!(snake_case("  list   pets  "), "list_pets");
    assert_eq!(snake_case("_private_"), "private");
    assert_eq!(snake_case("list_Pets"), "list_pets");
    assert_eq!(snake_case("v2Pets"), "v2_pets");
    assert_eq!(snake_case("petsÉtat"), "pets_tat");
    assert_eq!(snake_case(""), "op_");
    assert_eq!(snake_case("list_pets"), "list_pets");
}

#[test]
fn a_path_parameter_is_required_even_when_the_document_says_otherwise() {
    let spec = parse(
        r#"{"paths":{"/pets/{id}":{"get":{"operationId":"getPet","parameters":[
           {"name":"id","in":"path","required":false,"schema":{"type":"string"}}]}}}}"#,
    )
    .expect("spec parses");
    assert!(spec.operations[0].params[0].required);
}

#[test]
fn a_path_level_parameter_reaches_every_operation_under_it() {
    let spec = parse(
        r#"{"paths":{"/pets/{id}":{
           "parameters":[{"name":"id","in":"path","schema":{"type":"string"}}],
           "get":{"operationId":"getPet"},"delete":{"operationId":"deletePet"}}}}"#,
    )
    .expect("spec parses");
    assert_eq!(spec.operations.len(), 2);
    for op in &spec.operations {
        assert_eq!(op.params.len(), 1, "{} lost the shared parameter", op.name);
    }
}

#[test]
fn an_operation_parameter_overrides_the_path_level_one_it_shadows() {
    let spec = parse(
        r#"{"paths":{"/pets":{
           "parameters":[{"name":"limit","in":"query","schema":{"type":"string"}}],
           "get":{"operationId":"listPets","parameters":[
             {"name":"limit","in":"query","required":true,"schema":{"type":"integer"}}]}}}}"#,
    )
    .expect("spec parses");
    let params = &spec.operations[0].params;
    assert_eq!(params.len(), 1, "the duplicate was not collapsed");
    assert_eq!(params[0].ty, "int", "the path-level declaration won");
    assert!(params[0].required);
}

#[test]
fn required_parameters_are_ordered_before_optional_ones() {
    let spec = parse(
        r#"{"paths":{"/pets/{id}":{"get":{"operationId":"getPet","parameters":[
           {"name":"verbose","in":"query","schema":{"type":"boolean"}},
           {"name":"id","in":"path","schema":{"type":"string"}}]}}}}"#,
    )
    .expect("spec parses");
    let names: Vec<&str> = spec.operations[0]
        .params
        .iter()
        .map(|p| p.name.as_str())
        .collect();
    assert_eq!(names, ["id", "verbose"]);
}

#[test]
fn path_parameters_come_first_then_required_query_ones_then_the_rest() {
    let spec = parse(
        r#"{"paths":{"/x/{a}/{b}":{"get":{"parameters":[
           {"name":"o1","in":"query"},
           {"name":"q1","in":"query","required":true},
           {"name":"b","in":"path"},
           {"name":"q2","in":"query","required":true},
           {"name":"o2","in":"query","required":false},
           {"name":"a","in":"path"}]}}}}"#,
    )
    .expect("spec parses");
    let names: Vec<&str> = spec.operations[0]
        .params
        .iter()
        .map(|p| p.name.as_str())
        .collect();
    assert_eq!(names, ["b", "a", "q1", "q2", "o1", "o2"]);
}

#[test]
fn a_local_ref_resolves_and_an_external_one_is_refused() {
    let spec = parse(
        r##"{"paths":{"/pets/{id}":{"get":{"operationId":"getPet","parameters":[
           {"$ref":"#/components/parameters/Id"}]}}},
           "components":{"parameters":{"Id":{"name":"id","in":"path","schema":{"type":"integer"}}}}}"##,
    )
    .expect("spec parses");
    assert_eq!(spec.operations[0].params[0].ty, "int");

    let external = parse(
        r##"{"paths":{"/pets":{"get":{"operationId":"listPets","parameters":[
           {"$ref":"common.json#/Id"}]}}}}"##,
    )
    .expect_err("an external ref must be refused, never silently dropped");
    assert!(external.contains("another file"), "{external}");
}

#[test]
fn pointers_with_escapes_and_through_lists_resolve_and_dangling_ones_are_refused() {
    let spec = parse(
        r##"{"paths":{"/pets":{"get":{"parameters":[
           {"$ref":"#/x/a~1b/0"},{"$ref":"#/x/m~0n"}]}}},
           "x":{"a/b":[{"name":"p","in":"query"}],"m~n":{"name":"q","in":"query"}}}"##,
    )
    .expect("spec parses");
    let names: Vec<&str> = spec.operations[0]
        .params
        .iter()
        .map(|p| p.name.as_str())
        .collect();
    assert_eq!(names, ["p", "q"]);

    let dangling = parse(
        r##"{"paths":{"/pets":{"get":{"parameters":[{"$ref":"#/components/Nope"}]}}}}"##,
    )
    .unwrap_err();
    assert_eq!(
        dangling,
        "`#/components/Nope` does not resolve inside the spec"
    );
    let relative =
        parse(r##"{"paths":{"/pets":{"get":{"parameters":[{"$ref":"#Id"}]}}}}"##).unwrap_err();
    assert_eq!(relative, "`#Id` does not resolve inside the spec");
    let empty = parse(r##"{"paths":{"/pets":{"get":{"parameters":[{"$ref":""}]}}}}"##).unwrap_err();
    assert_eq!(
        empty,
        "`` refers to another file, which is not supported yet — inline it, or bundle the spec first"
    );
}

#[test]
fn the_document_answers_pointers_into_itself() {
    let doc = Document::read(r#"{"a":{"b":[true,"x"]}}"#).expect("it is JSON");
    assert_eq!(
        doc.pointer("/a/b/1").unwrap().text().map(String::as_str),
        Some("x")
    );
    assert!(doc.pointer("").unwrap().member("a").is_some());
    assert!(doc.pointer("a").is_none());
    assert!(doc.pointer("/a/c").is_none());
}

#[test]
fn a_missing_operation_id_derives_a_name_that_distinguishes_paths() {
    let spec = parse(
        r#"{"paths":{
           "/pets":{"get":{}},
           "/pets/{petId}":{"get":{"parameters":[{"name":"petId","in":"path"}]}}}}"#,
    )
    .expect("spec parses");
    let names: Vec<&str> = spec.operations.iter().map(|o| o.name.as_str()).collect();
    assert_eq!(names, ["get_pets", "get_pets_by_pet_id"]);
}

#[test]
fn derived_names_skip_empty_segments_and_stay_identifiers() {
    assert_eq!(derived_name("get", "/"), "get");
    assert_eq!(derived_name("get", ""), "get");
    assert_eq!(derived_name("post", "//a//B-c/"), "post_a_b_c");
    assert_eq!(derived_name("get", "/{}/{"), "get_by_op__op_");
    assert_eq!(derived_name("get", "/2fa"), "get_op_2fa");
}

#[test]
fn a_document_that_cannot_generate_a_client_says_which_way_it_failed() {
    assert!(parse("not json").unwrap_err().contains("not valid JSON"));
    assert!(
        parse(r#"{"openapi":"3.0.0"}"#)
            .unwrap_err()
            .contains("`paths`")
    );
    assert!(
        parse(r#"{"paths":{}}"#)
            .unwrap_err()
            .contains("no operations")
    );
    let mismatch = parse(
        r#"{"paths":{"/pets":{"get":{"operationId":"listPets","parameters":[
           {"name":"id","in":"path"}]}}}}"#,
    )
    .expect_err("a path parameter with no placeholder must be refused");
    assert!(mismatch.contains("does not contain"), "{mismatch}");
}

#[test]
fn each_failure_has_its_exact_message() {
    assert_eq!(
        parse("not json").unwrap_err(),
        "the spec is not valid JSON: expected ident at line 1 column 2 (only JSON specs are read — convert a YAML spec first)"
    );
    assert_eq!(
        parse("[]").unwrap_err(),
        "the spec has no `paths` object"
    );
    assert_eq!(
        parse(r#"{"paths":{"/a":7}}"#).unwrap_err(),
        "the spec declares no operations"
    );
    assert_eq!(
        parse(r#"{"paths":{"/a":{"get":{"parameters":[{"name":"x","in":"path"}]}}}}"#).unwrap_err(),
        "`/a` declares a path parameter `x` that the path template does not contain"
    );
}

#[test]
fn the_first_error_in_document_order_is_the_one_reported() {
    let error = parse(
        r#"{"paths":{
           "/z":{"get":{"parameters":[{"$ref":"one.json"},{"name":"x","in":"path"}]}},
           "/a":{"parameters":[{"$ref":"two.json"}]}}}"#,
    )
    .unwrap_err();
    assert!(error.contains("`one.json`"), "{error}");
}

#[test]
fn paths_keep_document_order_and_verbs_their_own() {
    let spec = parse(
        r#"{"paths":{
           "/z":{"query":{},"post":{},"get":{},"trace":{},"summary":"s"},
           "/a":{"delete":{},"put":{},"patch":{},"head":{},"options":{}}}}"#,
    )
    .expect("spec parses");
    let names: Vec<&str> = spec.operations.iter().map(|o| o.name.as_str()).collect();
    assert_eq!(
        names,
        [
            "get_z", "post_z", "query_z", "put_a", "delete_a", "options_a", "head_a", "patch_a"
        ]
    );
}

#[test]
fn header_cookie_and_nameless_parameters_are_dropped() {
    let spec = parse(
        r#"{"paths":{"/a":{"get":{"parameters":[
           {"name":"h","in":"header"},{"name":"c","in":"cookie"},{"in":"query"},{"name":"n"},
           7,{"name":"q","in":"query"}]}}}}"#,
    )
    .expect("spec parses");
    assert_eq!(spec.operations[0].params.len(), 1);
    assert_eq!(spec.operations[0].params[0].name, "q");
    assert_eq!(spec.operations[0].params[0].loc, In::Query);
}

#[test]
fn one_name_in_two_places_is_two_parameters() {
    let spec = parse(
        r#"{"paths":{"/a/{id}":{"parameters":[{"name":"id","in":"path"}],
           "get":{"parameters":[{"name":"id","in":"query"}]}}}}"#,
    )
    .expect("spec parses");
    let places: Vec<In> = spec.operations[0].params.iter().map(|p| p.loc).collect();
    assert_eq!(places, [In::Path, In::Query]);
}

#[test]
fn schema_types_map_to_noeta_types() {
    let spec = parse(
        r#"{"paths":{"/a":{"get":{"parameters":[
           {"name":"i","in":"query","schema":{"type":"integer"}},
           {"name":"n","in":"query","schema":{"type":"number"}},
           {"name":"b","in":"query","schema":{"type":"boolean"}},
           {"name":"s","in":"query","schema":{"type":"string"}},
           {"name":"a","in":"query","schema":{"type":"array"}},
           {"name":"x","in":"query"}]}}}}"#,
    )
    .expect("spec parses");
    let types: Vec<&str> = spec.operations[0].params.iter().map(|p| p.ty).collect();
    assert_eq!(types, ["int", "float", "bool", "string", "string", "string"]);
    assert_eq!(noeta_type(None), "string");
}

#[test]
fn the_server_the_body_and_the_summary_are_read() {
    let doc = Document::read(
        r#"{"servers":[{"url":"http://one"},{"url":"http://two"}],
           "paths":{"/a":{"post":{"requestBody":null,"summary":"s","description":"d"},
           "get":{"description":"d"},"put":{"summary":7,"description":"d"}}}}"#,
    )
    .expect("it is JSON");
    let spec = parse_document(&doc).expect("spec parses");
    assert_eq!(spec.base_url.as_deref(), Some("http://one"));
    let docs: Vec<Option<&str>> = spec.operations.iter().map(|o| o.doc.as_deref()).collect();
    assert_eq!(docs, [Some("d"), None, Some("s")]);
    let bodies: Vec<bool> = spec.operations.iter().map(|o| o.has_body).collect();
    assert_eq!(bodies, [false, false, true]);
    assert_eq!(spec.operations[2].method, "post");
    assert_eq!(spec.operations[2].path, "/a");
}

#[test]
fn a_taken_name_gets_the_least_free_number() {
    let mut taken = vec!["a".to_string(), "a_2".to_string(), "a_4".to_string()];
    assert_eq!(unique("b", &mut taken), "b");
    assert_eq!(unique("a", &mut taken), "a_3");
    assert_eq!(unique("a", &mut taken), "a_5");
    assert_eq!(taken, ["a", "a_2", "a_4", "b", "a_3", "a_5"]);
    for n in 2..12 {
        assert_eq!(unique("b", &mut taken), format!("b_{n}"));
    }
}

#[test]
fn pointers_take_escapes_in_order_and_indices_in_decimal() {
    let doc = Document::read(r#"{"~1":["a","b"],"/":{"":"c"},"01":"d"}"#).expect("it is JSON");
    let at = |pointer: &str| doc.pointer(pointer).and_then(|j| j.text().cloned());
    assert_eq!(at("/~01/1").as_deref(), Some("b"));
    assert_eq!(at("/~1/").as_deref(), Some("c"));
    assert_eq!(at("/01").as_deref(), Some("d"));
    for missing in ["/~01/2", "/~01/01", "/~01/+1", "/~01/-0", "/~01/", "/~01/x", "/01/0"] {
        assert!(doc.pointer(missing).is_none(), "{missing}");
    }
}
