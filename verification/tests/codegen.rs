use para_api::codegen::{client, escape};
use para_api::spec;

fn generate(json: &str) -> String {
    client("PetStore", &spec::parse(json).expect("spec parses"))
}

#[test]
fn the_field_and_constructor_are_generated_not_demanded() {
    let out = generate(r#"{"paths":{"/pets":{"get":{"operationId":"listPets"}}}}"#);
    assert!(out.contains("api: Api"), "{out}");
    assert!(out.contains("fn new(api: Api): PetStore"), "{out}");
    assert!(out.contains("return PetStore { api: api }"), "{out}");
}

#[test]
fn a_namespaced_target_generates_its_bare_name() {
    let spec = spec::parse(r#"{"paths":{"/pets":{"get":{"operationId":"listPets"}}}}"#)
        .expect("spec parses");
    let out = client("shop.upstream.PetStore", &spec);
    assert!(out.contains("fn new(api: Api): PetStore"), "{out}");
    assert!(out.contains("return PetStore { api: api }"), "{out}");
    assert!(!out.contains("shop.upstream"), "{out}");
}

#[test]
fn a_path_parameter_is_substituted_and_encoded() {
    let out = generate(
        r#"{"paths":{"/pets/{petId}":{"get":{"operationId":"showPetById","parameters":[
           {"name":"petId","in":"path","schema":{"type":"string"}}]}}}}"#,
    );
    assert!(
        out.contains(r#"path = "/pets/{petId}".replace("{petId}", Api.encode("${pet_id}"))"#),
        "{out}"
    );
}

#[test]
fn a_required_query_parameter_joins_the_callers_map() {
    let out = generate(
        r#"{"paths":{"/search":{"get":{"operationId":"search","parameters":[
           {"name":"q","in":"query","required":true,"schema":{"type":"string"}}]}}}}"#,
    );
    assert!(
        out.contains("fn search(q: string, query: Map<string, string> = {})"),
        "{out}"
    );
    assert!(
        out.contains(r#"Api.query_string(query.set("q", "${q}"))"#),
        "{out}"
    );
}

#[test]
fn optional_parameters_are_documented_since_the_map_erases_their_types() {
    let out = generate(
        r#"{"paths":{"/pets":{"get":{"operationId":"listPets","parameters":[
           {"name":"limit","in":"query","schema":{"type":"integer"}}]}}}}"#,
    );
    assert!(
        out.contains("// Optional query parameters, by key: limit (int)"),
        "{out}"
    );
}

#[test]
fn a_body_operation_takes_a_body_and_a_bodyless_one_does_not() {
    let with =
        generate(r#"{"paths":{"/pets":{"post":{"operationId":"createPet","requestBody":{}}}}}"#);
    assert!(
        with.contains(r#"fn create_pet(body: string = "", query"#),
        "{with}"
    );
    assert!(with.contains(", body)"), "{with}");

    let without = generate(r#"{"paths":{"/pets":{"get":{"operationId":"listPets"}}}}"#);
    assert!(!without.contains("body"), "{without}");
}

#[test]
fn every_call_goes_through_the_middleware_chain() {
    let out = generate(r#"{"paths":{"/pets":{"get":{"operationId":"listPets"}}}}"#);
    assert!(out.contains("self.api.request("), "{out}");
    assert!(!out.contains("client.send"), "{out}");
}

#[test]
fn a_spec_cannot_inject_code_through_a_string_it_controls() {
    // Paths and summaries are remote input. A quote or a `${` in either must stay data.
    let out = generate(
        r#"{"paths":{"/a\"b":{"get":{"operationId":"x","summary":"hi"}}},
           "servers":[{"url":"http://h/${evil}"}]}"#,
    );
    assert!(out.contains(r#"path = "/a\"b""#), "{out}");
    assert!(out.contains(r"http://h/\${evil}"), "{out}");
}

#[test]
fn an_operation_may_not_take_a_generated_members_name() {
    let out = generate(
        r#"{"paths":{"/a":{"get":{"operationId":"new"}},"/b":{"get":{"operationId":"new"}}}}"#,
    );
    assert!(out.contains("fn new(api: Api): PetStore"), "{out}");
    assert!(out.contains("fn new_2("), "{out}");
    assert!(out.contains("fn new_3("), "{out}");
}

#[test]
fn a_parameter_may_not_shadow_the_query_map() {
    let out = generate(
        r#"{"paths":{"/x/{query}":{"get":{"operationId":"x","parameters":[
           {"name":"query","in":"path","schema":{"type":"string"}}]}}}}"#,
    );
    assert!(
        out.contains("fn x(query_2: string, query: Map<string, string> = {})"),
        "{out}"
    );
    assert!(out.contains(r#"Api.encode("${query_2}")"#), "{out}");
}

#[test]
fn the_whole_client_is_exactly_this() {
    let spec = spec::parse(
        r#"{"servers":[{"url":"http://h"}],"paths":{"/pets/{id}":{"post":{
           "operationId":"addPet","summary":" one \r\n\n two","requestBody":{},"parameters":[
             {"name":"dry","in":"query","schema":{"type":"boolean"}},
             {"name":"why","in":"query"},
             {"name":"n","in":"query","required":true,"schema":{"type":"integer"}},
             {"name":"id","in":"path"}]}}}}"#,
    )
    .expect("spec parses");
    let expected = r#"// The middleware chain every generated call goes through. Generated rather than required
// of you, so the constructor below can be generated too.
api: Api

pub fn new(api: Api): Shop {
    return Shop { api: api }
}

// The first server the spec names, so a client can be built without copying the URL.
pub fn base_url(): string {
    return "http://h"
}

// one
// two
// POST /pets/{id}
// Optional query parameters, by key: dry (bool), why (string)
pub fn add_pet(id: string, n: int, body: string = "", query: Map<string, string> = {}): Result<Response, HttpError> {
    path = "/pets/{id}".replace("{id}", Api.encode("${id}"))
    return self.api.request("post", path ~ Api.query_string(query.set("n", "${n}")), body)
}

"#;
    assert_eq!(client("my.Shop", &spec), expected);
    assert_eq!(client("Shop", &spec), expected);
}

#[test]
fn every_special_character_of_a_literal_is_escaped() {
    assert_eq!(escape("a\"b\\c\nd$e{f}"), "a\\\"b\\\\c\\nd\\$e{f}");
    assert_eq!(escape("é"), "é");
    assert_eq!(escape(""), "");
}

#[test]
fn a_verb_is_written_in_upper_case() {
    let mut spec = spec::parse(r#"{"paths":{"/pets":{"get":{}}}}"#).expect("spec parses");
    assert!(client("S", &spec).contains("\n// GET /pets\n"));
    spec.operations[0].method = "straße".to_string();
    assert!(client("S", &spec).contains("\n// STRASSE /pets\n"));
}

#[test]
fn colliding_operations_all_survive() {
    let out = generate(
        r#"{"paths":{"/a":{"get":{"operationId":"x"},"put":{"operationId":"X"}},
           "/b":{"get":{"operationId":"x-2"},"put":{"operationId":"x"}}}}"#,
    );
    for name in ["x(", "x_2(", "x_2_2(", "x_3("] {
        assert!(out.contains(&format!("pub fn {name}")), "{out}");
    }
}
