use para_api::codegen::{client, escape, method};
use para_api::expansion::{begin_expansion, finish_expansion, DirectiveCtx, TierSite};
use para_api::names::derived_name;
use para_api::spec::{parse, snake_case, Spec};
use para_api::url::percent_encode;
use para_api::ParaApiExtension;

fn read(json: &str) -> Spec {
    parse(json).expect("spec parses")
}

/// Reads a string literal from behind its opening quote.
fn literal(source: &str) -> Option<(String, &str)> {
    let mut text = String::new();
    let mut rest = source.chars();
    loop {
        match rest.next()? {
            '"' => return Some((text, rest.as_str())),
            '\n' => return None,
            '$' if rest.as_str().starts_with('{') => return None,
            '\\' => match rest.next()? {
                'n' => text.push('\n'),
                c if "\"\\$".contains(c) => text.push(c),
                _ => return None,
            },
            c => text.push(c),
        }
    }
}

#[test]
fn an_escaped_text_reads_back_whatever_it_holds() {
    for value in ["", "\"", "\\", "${x}", "a\nb", "\\\"$\n", "$", "{$}", "é\\n\""] {
        let source = format!("{}\" rest \"", escape(value));
        assert_eq!(literal(&source), Some((value.to_string(), " rest \"")));
        assert!(!escape(value).contains('\n'));
    }
}

#[test]
fn texts_of_a_spec_stay_data_in_the_generated_source() {
    let spec = read(
        r#"{"servers":[{"url":"h\"${u}\\"}],"paths":{"/a\"${p}/{i\"d}":{"get":{"parameters":[
           {"name":"i\"d","in":"path"},{"name":"q$\"","in":"query","required":true}]}}}}"#,
    );
    let out = client("S", &spec);
    let behind = |mark: &str| {
        let at = out.find(mark).expect("the mark is there") + mark.len();
        literal(&out[at..]).expect("the literal closes").0
    };
    assert_eq!(behind("return \""), "h\"${u}\\");
    assert_eq!(behind("path = \""), "/a\"${p}/{i\"d}");
    assert_eq!(behind(".replace(\""), "{i\"d}");
    assert_eq!(behind(".set(\""), "q$\"");
}

#[test]
fn a_comment_above_a_method_is_comments_only() {
    let spec = read(
        r#"{"paths":{"/a":{"get":{"summary":"one\n\n  fn two() {\r\n\t","parameters":[
           {"name":"o","in":"query"}]}}}}"#,
    );
    let out = method("get_a", &spec.operations[0]);
    let comment = &out[..out.find("pub fn").expect("the signature is there")];
    let lines: Vec<&str> = comment.lines().collect();
    assert_eq!(
        lines,
        [
            "// one",
            "// fn two() {",
            "// GET /a",
            "// Optional query parameters, by key: o (string)"
        ]
    );
}

#[test]
fn names_of_methods_and_parameters_never_collide() {
    let spec = read(
        r#"{"paths":{"/{self}/{body}/{Body}":{"get":{"operationId":"api","parameters":[
           {"name":"self","in":"path"},{"name":"body","in":"path"},{"name":"Body","in":"path"},
           {"name":"body","in":"query","required":true}]},
           "put":{"operationId":"base url"},"post":{"operationId":"api_2"}}}}"#,
    );
    let out = client("S", &spec);
    assert!(
        out.contains(
            "pub fn api_2(self_2: string, body_2: string, body_3: string, body_4: string, query"
        ),
        "{out}"
    );
    assert!(out.contains("pub fn base_url_2("), "{out}");
    assert!(out.contains("pub fn api_2_2("), "{out}");
}

#[test]
fn an_operation_that_is_added_at_the_end_only_appends() {
    let mut spec = read(r#"{"paths":{"/a":{"get":{"operationId":"x"},"put":{"operationId":"x"}}}}"#);
    let before = client("S", &spec);
    let mut more = spec.operations[0].clone();
    more.name = "x_2".to_string();
    spec.operations.push(more);
    let after = client("S", &spec);
    assert!(after.starts_with(&before), "{after}");
    assert!(after[before.len()..].contains("pub fn x_2_2("), "{after}");
}

#[test]
fn an_optional_parameter_does_not_move_the_required_ones() {
    let with = read(
        r#"{"paths":{"/{b}/{a}":{"get":{"parameters":[{"name":"q","in":"query","required":true},
           {"name":"b","in":"path"},{"name":"new","in":"query"},{"name":"a","in":"path"}]}}}}"#,
    );
    let without = read(
        r#"{"paths":{"/{b}/{a}":{"get":{"parameters":[{"name":"q","in":"query","required":true},
           {"name":"b","in":"path"},{"name":"a","in":"path"}]}}}}"#,
    );
    let signature = |spec: &Spec| {
        let out = method("m", &spec.operations[0]);
        let from = out.find("pub fn").expect("the signature is there");
        out[from..].to_string()
    };
    assert_eq!(signature(&with), signature(&without));
    assert!(signature(&with).contains("(b: string, a: string, q: string, query"));
}

#[test]
fn keys_that_nothing_reads_change_nothing() {
    let plain = read(r#"{"paths":{"/a":{"get":{"operationId":"x"}}}}"#);
    let dressed = read(
        r#"{"openapi":"3.1.0","x-y":[1],"paths":{"/a":{"trace":{"operationId":"t"},"$ref":"b.json",
           "get":{"operationId":"x","responses":{"200":null},"tags":["t"],"security":7}}}}"#,
    );
    assert_eq!(client("S", &plain), client("S", &dressed));
}

#[test]
fn a_bad_reference_fails_the_document_wherever_it_stands() {
    for json in [
        r#"{"paths":{"/ok":{"get":{}},"/a":{"parameters":[{"$ref":"x.json"}],"get":{}}}}"#,
        r#"{"paths":{"/ok":{"get":{}},"/a":{"get":{},"query":{"parameters":[{},{"$ref":"x.json"}]}}}}"#,
        r#"{"paths":{"/a":{"parameters":[{"$ref":"x.json"}]}}}"#,
    ] {
        let error = parse(json).expect_err("the reference cannot be followed");
        assert!(error.contains("`x.json`"), "{error}");
    }
}

#[test]
fn a_shared_parameter_is_followed_by_the_operations_own() {
    let spec = read(
        r#"{"paths":{"/a":{"parameters":[
             {"name":"s","in":"query","required":true,"schema":{"type":"number"}},
             {"name":"t","in":"query","required":true},{"name":"t","in":"query"}],
           "get":{"parameters":[{"name":"o","in":"query","required":true}]},
           "put":{"parameters":[{"name":"s","in":"query","required":true}]}}}}"#,
    );
    let listed = |i: usize| -> Vec<(&str, &str, bool)> {
        spec.operations[i]
            .params
            .iter()
            .map(|p| (p.name.as_str(), p.ty, p.required))
            .collect()
    };
    assert_eq!(
        listed(0),
        [("s", "float", true), ("o", "string", true), ("t", "string", false)]
    );
    assert_eq!(listed(1), [("s", "string", true), ("t", "string", false)]);
}

#[test]
fn derived_names_tell_parameters_from_segments() {
    assert_ne!(derived_name("get", "/a/{id}"), derived_name("get", "/a"));
    assert_ne!(derived_name("get", "/a/{id}"), derived_name("get", "/a/id"));
    assert_eq!(derived_name("get", "/a/{id}"), "get_a_by_id");
}

#[test]
fn names_in_snake_case_stay_as_they_are() {
    for name in ["a", "list_pets", "v2_x9", "get_a_by_id"] {
        assert_eq!(snake_case(name), name);
    }
}

#[test]
fn an_encoded_value_cannot_look_like_a_placeholder() {
    assert_eq!(percent_encode("{id}"), "%7Bid%7D");
    assert_ne!(percent_encode("a/b"), percent_encode("a%2Fb"));
}

#[test]
fn copies_are_what_they_are_copies_of() {
    let spec = read(
        r#"{"servers":[{"url":"u"}],"paths":{"/{a}":{"get":{"summary":"s","requestBody":{},
           "parameters":[{"name":"a","in":"path"}]}}}}"#,
    );
    let copy = spec.clone();
    assert_eq!(format!("{spec:?}"), format!("{copy:?}"));
    assert_eq!(client("S", &spec), client("S", &copy));
}

#[test]
fn every_outcome_of_an_expansion_reports_the_document() {
    let ctx = |arg: &str| DirectiveCtx {
        args: vec![arg.to_string()],
        named: Vec::new(),
        target: "a.S".to_string(),
        site: TierSite::Type,
        source_dir: "/p".to_string(),
    };
    let expected = ["/p/x.json".to_string()];
    let reading = begin_expansion(&ctx("x.json")).expect("it is to be read");
    let unread = finish_expansion(&reading, Err("gone".to_string())).unwrap_err();
    assert_eq!(unread.reads, expected);
    let invalid = finish_expansion(&reading, Ok("{".to_string())).unwrap_err();
    assert_eq!(invalid.reads, expected);
    assert!(invalid.message.starts_with("`x.json`: the spec is not valid JSON: "));
    let text = r#"{"paths":{"/a":{"get":{}}}}"#;
    let expansion = finish_expansion(&reading, Ok(text.to_string())).expect("it expands");
    assert_eq!(expansion.reads, expected);
    assert_eq!(expansion.source, client("S", &read(text)));
    let refused = begin_expansion(&ctx("x.yml")).unwrap_err();
    assert_eq!(refused.reads, ["/p/x.yml".to_string()]);
}

#[test]
fn the_extension_is_at_the_crate_root() {
    assert_eq!(ParaApiExtension.name(), "para.api");
}

#[test]
fn a_line_break_in_a_spec_never_becomes_a_line_of_code() {
    let spec = read(
        r#"{"paths":{"/a\nb":{"get":{"operationId":"x","parameters":[
           {"name":"o\nfn evil() {","in":"query"}]}}}}"#,
    );
    let out = method("x", &spec.operations[0]);
    assert!(out.lines().all(|l| l != "b"), "{out}");
    assert!(out.contains("path = \"/a\\nb\""), "{out}");
    let lines: Vec<&str> = out.lines().collect();
    assert_eq!(
        lines,
        [
            "// GET /a\\nb",
            "// Optional query parameters, by key: o\\nfn evil() { (string)",
            "pub fn x(query: Map<string, string> = {}): Result<Response, HttpError> {",
            "    path = \"/a\\nb\"",
            "    return self.api.request(\"get\", path ~ Api.query_string(query))",
            "}",
        ]
    );
}

#[test]
fn comments_keep_a_path_on_one_line_as_it_stands() {
    let spec = read(r#"{"paths":{"/a\"$b\\c":{"get":{}}}}"#);
    let out = method("x", &spec.operations[0]);
    assert!(out.starts_with("// GET /a\"$b\\c\n"), "{out}");
}

#[test]
fn paths_that_differ_in_a_parameter_have_different_names() {
    assert_eq!(derived_name("get", "/a/{x}/c"), "get_a_by_x_c");
    assert_ne!(derived_name("get", "/a/{x}/c"), derived_name("get", "/a/{y}/c"));
    assert_ne!(derived_name("get", "/{x}"), derived_name("get", "/{y}"));
    // The same name in snake case is the same name.
    assert_eq!(derived_name("get", "/{petId}"), derived_name("get", "/{pet_id}"));
}

fn begin(arg: &str, source_dir: &str) -> Result<String, String> {
    let ctx = DirectiveCtx {
        args: vec![arg.to_string()],
        named: Vec::new(),
        target: "S".to_string(),
        site: TierSite::Type,
        source_dir: source_dir.to_string(),
    };
    begin_expansion(&ctx).map(|r| r.path).map_err(|e| e.reads.join(" "))
}

#[test]
fn documents_are_resolved_against_the_directory_of_the_source() {
    assert_eq!(begin("x.json", "/proj/api"), Ok("/proj/api/x.json".to_string()));
    assert_eq!(begin("x.json", "/proj/api/"), Ok("/proj/api/x.json".to_string()));
    assert_eq!(begin("x.json", ""), Ok("x.json".to_string()));
    assert_eq!(begin("x.json", "."), Ok("./x.json".to_string()));
    assert_eq!(begin("x.json", "/"), Ok("/x.json".to_string()));
    assert_eq!(begin("specs/x.json", "/proj"), Ok("/proj/specs/x.json".to_string()));
    assert_eq!(begin("../x.json", "/proj"), Ok("/proj/../x.json".to_string()));
    assert_eq!(begin("/x.json", "/proj"), Ok("/x.json".to_string()));
}

#[test]
fn yaml_is_refused_in_every_directory_and_by_its_extension_alone() {
    assert_eq!(begin("specs/x.yaml", "/proj"), Err("/proj/specs/x.yaml".to_string()));
    assert_eq!(begin("x.yml", ""), Err("x.yml".to_string()));
    assert_eq!(begin("x.json.yaml", "."), Err("./x.json.yaml".to_string()));
    assert_eq!(begin("/x.yaml", "/proj"), Err("/x.yaml".to_string()));
    assert_eq!(begin("yaml", "/proj"), Ok("/proj/yaml".to_string()));
    assert_eq!(begin("specs.yaml/x", "/proj"), Ok("/proj/specs.yaml/x".to_string()));
    assert_eq!(begin("specs/.yaml", "/proj"), Ok("/proj/specs/.yaml".to_string()));
}

#[test]
fn separators_and_dots_behind_a_name_do_not_hide_its_extension() {
    assert_eq!(begin("x.yaml/", "/p"), Err("/p/x.yaml/".to_string()));
    assert_eq!(begin("x.yaml/./", "/p"), Err("/p/x.yaml/./".to_string()));
    assert_eq!(begin("x.json/", "/p"), Ok("/p/x.json/".to_string()));
    assert_eq!(begin("..", "/p.yaml"), Ok("/p.yaml/..".to_string()));
    assert_eq!(begin("", "/p.yaml"), Err("/p.yaml/".to_string()));
    assert_eq!(begin("", ""), Ok("".to_string()));
}

#[test]
fn directories_that_begin_with_two_separators_are_joined_as_others_are() {
    assert_eq!(begin("x.json", "//srv/h"), Ok("//srv/h/x.json".to_string()));
    assert_eq!(begin("s/x.yml", "//srv/h/"), Err("//srv/h/s/x.yml".to_string()));
}

#[test]
fn a_key_that_is_written_twice_gives_no_operation_twice() {
    let spec = read(
        r#"{"paths":{"/a":{"get":{"operationId":"x"}},"/b":{"get":{}},
           "/a":{"get":{"operationId":"y"},"put":{},"get":{"operationId":"z"}}}}"#,
    );
    let calls: Vec<(&str, &str, &str)> = spec
        .operations
        .iter()
        .map(|o| (o.path.as_str(), o.method.as_str(), o.name.as_str()))
        .collect();
    assert_eq!(
        calls,
        [("/a", "get", "z"), ("/a", "put", "put_a"), ("/b", "get", "get_b")]
    );
}
