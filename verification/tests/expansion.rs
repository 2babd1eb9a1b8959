use para_api::expansion::{
    begin_expansion, finish_expansion, locate, DirectiveCtx, Expansion, TierSite,
};
use para_api::extension::{openapi_directive, Hook, ParaApiExtension};

const PETSTORE: &str = r##"{
  "openapi": "3.0.0",
  "servers": [{"url": "https://petstore.example.com/v1"}],
  "paths": {
    "/pets": {
      "get": {"operationId": "listPets", "summary": "List all pets", "parameters": [
        {"name": "limit", "in": "query", "schema": {"type": "integer"}}]},
      "post": {"operationId": "createPet", "requestBody": {}},
      "query": {"operationId": "searchPets", "requestBody": {}}
    },
    "/pets/{petId}": {
      "parameters": [{"$ref": "#/components/parameters/PetId"}],
      "get": {"operationId": "showPetById", "summary": "Info for a pet"},
      "delete": {"operationId": "deletePet"}
    }
  },
  "components": {"parameters": {
    "PetId": {"name": "petId", "in": "path", "required": true, "schema": {"type": "string"}}
  }}
}"##;

fn ctx(args: &[&str], source_dir: &str) -> DirectiveCtx {
    DirectiveCtx {
        args: args.iter().map(|a| a.to_string()).collect(),
        named: Vec::new(),
        target: "PetStore".to_string(),
        site: TierSite::Type,
        source_dir: source_dir.to_string(),
    }
}

fn expand() -> Expansion {
    let reading = begin_expansion(&ctx(&["petstore.json"], "/proj")).expect("a JSON spec is read");
    finish_expansion(&reading, Ok(PETSTORE.to_string())).expect("the spec expands")
}

/// The lines of the generated source that declare a method.
fn declarations(source: &str) -> Vec<&str> {
    source
        .lines()
        .filter(|l| l.starts_with("pub fn ") || l.starts_with("fn "))
        .collect()
}

fn method_names(source: &str) -> Vec<&str> {
    declarations(source)
        .iter()
        .map(|l| {
            let from = l.find("fn ").expect("a declaration") + 3;
            &l[from..l.find('(').expect("a parameter list")]
        })
        .collect()
}

#[test]
fn the_directive_declares_only_what_it_honours() {
    let directive = openapi_directive();
    assert_eq!(directive.max_args, Some(1));
    assert!(directive.named_keys.is_empty());
    assert_eq!(directive.sites, &[TierSite::Type]);
    assert!(directive.expand.is_some());
}

#[test]
fn a_missing_argument_is_answered_rather_than_panicking() {
    let error = begin_expansion(&ctx(&[], "")).expect_err("no argument cannot expand");
    assert!(
        error.message.contains("needs the path"),
        "{}",
        error.message
    );
    // No path was named, so nothing was read.
    assert!(error.reads.is_empty(), "{:?}", error.reads);
}

#[test]
fn a_yaml_spec_is_refused_by_name_rather_than_parsed_hopefully() {
    let error = begin_expansion(&ctx(&["petstore.yaml"], "/proj")).expect_err("yaml is not read");
    assert!(
        error.message.contains("convert it first"),
        "{}",
        error.message
    );
}

#[test]
fn a_failure_reports_the_spec_it_tried_so_creating_it_re_runs() {
    let reading = begin_expansion(&ctx(&["does-not-exist.json"], "/proj/api"))
        .expect("the document is to be read");
    let missing = "No such file or directory (os error 2)".to_string();
    let error =
        finish_expansion(&reading, Err(missing)).expect_err("a missing spec cannot expand");
    assert!(
        error.message.contains("could not read"),
        "{}",
        error.message
    );
    assert_eq!(
        error.reads,
        vec!["/proj/api/does-not-exist.json".to_string()],
        "the missing spec must be reported so its later appearance re-runs the hook"
    );
}

#[test]
fn every_operation_in_the_spec_becomes_a_method() {
    assert_eq!(
        method_names(&expand().source),
        vec![
            "new",
            "base_url",
            "list_pets",
            "create_pet",
            "search_pets",
            "show_pet_by_id",
            "delete_pet",
        ]
    );
}

#[test]
fn a_query_operation_becomes_a_body_carrying_read() {
    let expansion = expand();
    let line = declarations(&expansion.source)
        .into_iter()
        .find(|l| l.contains("fn search_pets("))
        .expect("the method is generated");
    assert!(line.contains("(body: "), "{line}");
    assert!(line.contains(", query: "), "{line}");
}

#[test]
fn the_struct_is_written_empty_and_the_directive_supplies_the_plumbing() {
    let expansion = expand();
    let fields: Vec<&str> = expansion
        .source
        .lines()
        .filter(|l| l.ends_with(": Api"))
        .collect();
    assert_eq!(fields, vec!["api: Api"]);
}

#[test]
fn every_generated_method_survives_the_parse_as_public() {
    let expansion = expand();
    let private: Vec<&str> = declarations(&expansion.source)
        .into_iter()
        .filter(|l| !l.starts_with("pub fn "))
        .collect();
    assert!(
        private.is_empty(),
        "generated but not callable: {private:?}"
    );
}

#[test]
fn the_spec_path_is_reported_as_a_read() {
    assert_eq!(expand().reads, vec!["/proj/petstore.json".to_string()]);
}

#[test]
fn a_missing_spec_is_blamed_on_the_directive_and_names_the_path() {
    let reading = begin_expansion(&ctx(&["nope.json"], "/proj")).expect("it is to be read");
    let error = finish_expansion(&reading, Err("not found".to_string()))
        .expect_err("a missing spec cannot expand");
    assert!(
        error.message.contains("could not read"),
        "unexpected message: {}",
        error.message
    );
    assert!(
        error.message.contains("nope.json"),
        "the message must name the path it tried: {}",
        error.message
    );
    assert_eq!(error.message, "could not read `/proj/nope.json`: not found");
}

#[test]
fn a_spec_that_is_not_a_spec_says_so_rather_than_generating_nothing() {
    let reading = begin_expansion(&ctx(&["notaspec.json"], "/proj")).expect("it is to be read");
    let error = finish_expansion(&reading, Ok(r#"{"openapi":"3.0.0"}"#.to_string()))
        .expect_err("a document with no paths cannot expand");
    assert!(
        error.message.contains("`paths`"),
        "unexpected message: {}",
        error.message
    );
    assert_eq!(
        error.message,
        "`notaspec.json`: the spec has no `paths` object"
    );
    assert_eq!(error.reads, vec!["/proj/notaspec.json".to_string()]);
}

#[test]
fn a_yaml_spec_is_refused_with_the_conversion_advice() {
    let error = begin_expansion(&ctx(&["petstore.yaml"], "/proj")).expect_err("yaml is not read");
    assert!(
        error.message.contains("convert it first"),
        "unexpected message: {}",
        error.message
    );
    assert_eq!(error.reads, vec!["/proj/petstore.yaml".to_string()]);
    assert!(begin_expansion(&ctx(&["petstore.yml"], "/proj")).is_err());
    assert!(begin_expansion(&ctx(&["petstore.YAML"], "/proj")).is_ok());
    assert!(begin_expansion(&ctx(&[".yaml"], "/proj")).is_ok());
}

#[test]
fn a_path_and_its_extension_decide_whether_a_document_is_read() {
    let reading = locate("a.json", "T", "/x/a.json", Some("json")).expect("JSON is read");
    assert_eq!(reading.path, "/x/a.json");
    assert_eq!(reading.arg, "a.json");
    assert_eq!(reading.target, "T");
    let refused = locate("a", "T", "/x/a", Some("yml")).unwrap_err();
    assert_eq!(
        refused.message,
        "`a` is YAML, and only JSON specs are read — convert it first (any OpenAPI tool will, and both spellings are the same document)"
    );
    assert!(locate("a", "T", "/x/a", None).is_ok());
}

#[test]
fn an_absolute_argument_takes_the_directorys_place() {
    let reading = begin_expansion(&ctx(&["/etc/spec.json"], "/proj")).expect("it is to be read");
    assert_eq!(reading.path, "/etc/spec.json");
}

#[test]
fn the_extension_registers_the_directive_and_the_url_module() {
    let extension = ParaApiExtension;
    assert_eq!(extension.name(), "para.api");
    assert_eq!(extension.root(), "para");
    let modules = extension.modules();
    assert_eq!(modules.len(), 1);
    assert_eq!(modules[0].name, "url");
    let functions: Vec<&str> = modules[0].functions.iter().map(|f| f.name).collect();
    assert_eq!(functions, ["encode", "decode"]);
    let directives = extension.directives();
    assert_eq!(directives.len(), 1);
    assert_eq!(directives[0].name, "openapi");
    assert_eq!(directives[0].expand, Some(Hook::OpenApi));
}
