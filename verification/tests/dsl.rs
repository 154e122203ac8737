//! The `.cru` front end: lexing, parsing and lowering.

use crucible::dsl::ast::{Clause, CmpOp, File, Value};
use crucible::dsl::compile;
use crucible::dsl::diagnostics::Diag;
use crucible::dsl::lexer::{lex, TokenKind as T};
use crucible::dsl::lower::{lower, validate};
use crucible::dsl::parser::parse;
use crucible::dsl::registry::Registry;
use crucible::dsl::span::Span;
use crucible::plan;
use crucible::schema::{
    self, AttrDecl, AttrSchema, ClauseDecl, ClauseShape, HeadPattern, OpSig, Param, ParamType,
    ValueType,
};
use crucible::time::Duration;
use std::hash::{Hash, Hasher};

fn kinds(src: &str) -> Vec<T> {
    let (tokens, errors) = lex(src);
    assert!(errors.is_empty(), "unexpected lex errors: {errors:?}");
    tokens
        .into_iter()
        .map(|t| t.kind)
        .filter(|k| *k != T::Eof)
        .collect()
}

#[test]
fn punctuation_and_comparison_operators() {
    assert_eq!(
        kinds("{ } [ ] : ; , . = == != < <= > >="),
        vec![
            T::LBrace,
            T::RBrace,
            T::LBracket,
            T::RBracket,
            T::Colon,
            T::Semi,
            T::Comma,
            T::Dot,
            T::Eq,
            T::EqEq,
            T::Ne,
            T::Lt,
            T::Le,
            T::Gt,
            T::Ge,
        ],
    );
}

#[test]
fn identifiers_strings_ints_and_durations() {
    assert_eq!(
        kinds(r#"service api "a/b:0.1" 8080 30s 500ms"#),
        vec![
            T::Ident("service".to_string()),
            T::Ident("api".to_string()),
            T::Str("a/b:0.1".to_string()),
            T::Int(8080),
            T::Duration(Duration::from_secs(30)),
            T::Duration(Duration::from_millis(500)),
        ],
    );
}

#[test]
fn a_service_line_lexes() {
    assert_eq!(
        kinds("service api { kind: http; port: 8080 }"),
        vec![
            T::Ident("service".to_string()),
            T::Ident("api".to_string()),
            T::LBrace,
            T::Ident("kind".to_string()),
            T::Colon,
            T::Ident("http".to_string()),
            T::Semi,
            T::Ident("port".to_string()),
            T::Colon,
            T::Int(8080),
            T::RBrace,
        ],
    );
}

#[test]
fn line_comments_are_skipped() {
    assert_eq!(
        kinds("api // this is the api service\nbroker"),
        vec![T::Ident("api".to_string()), T::Ident("broker".to_string())],
    );
}

#[test]
fn string_escapes_resolve() {
    assert_eq!(kinds(r#""a\"b\\c""#), vec![T::Str("a\"b\\c".to_string())],);
}

#[test]
fn an_unexpected_character_is_reported_and_skipped() {
    let (tokens, errors) = lex("api ? broker");
    assert_eq!(errors.len(), 1);
    assert_eq!(errors[0].span, Span::new(4, 5));
    // The `?` is skipped, so both identifiers still lex.
    let idents: Vec<_> = tokens
        .into_iter()
        .filter_map(|t| match t.kind {
            T::Ident(s) => Some(s),
            _ => None,
        })
        .collect();
    assert_eq!(idents, vec!["api".to_string(), "broker".to_string()]);
}

#[test]
fn an_unterminated_string_is_reported() {
    let (_, errors) = lex(r#""no closing quote"#);
    assert_eq!(errors.len(), 1);
    assert!(errors[0].message.contains("unterminated"));
}

#[test]
fn spans_are_byte_offsets() {
    let src = "\"\u{e9}\u{4e16}\" api";
    let (tokens, errors) = lex(src);
    assert!(errors.is_empty());
    assert_eq!(tokens[0].kind, T::Str("\u{e9}\u{4e16}".to_string()));
    let api = tokens[1].span;
    assert_eq!(&src[api.start..api.end], "api");
    assert_eq!(tokens[2].kind, T::Eof);
    assert_eq!(tokens[2].span.end, src.len());
}

fn parse_src(src: &str) -> Result<File, Vec<Diag>> {
    let (tokens, lex_errors) = lex(src);
    assert!(lex_errors.is_empty(), "lex errors: {lex_errors:?}");
    parse(tokens)
}

/// Parse a fleet block, completing the file with the least a scenario can
/// say, so a test about the fleet need not restate one.
fn parse_fleet(src: &str) -> Result<File, Vec<Diag>> {
    parse_src(&format!(
        r#"{src} scenario "s" {{ consistent_within: 1s; do {{ http GET api "/" }}; expect {{ db.t.count == 0; }} }}"#
    ))
}

#[test]
fn a_fleet_with_services_parses() {
    let file = parse_fleet(
        r#"fleet "orders" { deployment: docker; service api { kind: http, ports: { http: 8080 } }; service db { kind: sql, ports: { sql: 3306 } }; }"#,
    )
    .expect("parses");
    assert_eq!(file.fleet.node.name.node, "orders");
    assert_eq!(file.fleet.node.deployment.node, "docker");
    assert_eq!(file.fleet.node.services.len(), 2);
    assert_eq!(file.fleet.node.services[0].node.name.node, "api");
    assert_eq!(file.fleet.node.services[1].node.name.node, "db");
}

#[test]
fn a_file_without_a_scenario_is_an_error() {
    let errors = parse_src(r#"fleet "f" { deployment: docker; }"#).unwrap_err();
    assert!(errors.iter().any(|d| d.message.contains("scenario")));
}

#[test]
fn a_fleet_without_a_deployment_is_an_error() {
    let errors = parse_src(r#"fleet "f" { service api { port: 80 } }"#).unwrap_err();
    assert!(errors.iter().any(|d| d.message.contains("deployment")));
}

#[test]
fn service_attrs_parse_as_a_map() {
    let file = parse_fleet(
        r#"fleet "f" { deployment: docker; service api { kind: http, ports: { http: 8080 } } }"#,
    )
    .expect("parses");
    let Value::Mapping(entries) = &file.fleet.node.services[0].node.attrs.node else {
        panic!("expected a map");
    };
    assert_eq!(entries.len(), 2);
    assert_eq!(entries[0].0.node, "kind");
    assert_eq!(entries[0].1.node, Value::Ident("http".to_string()));
    assert_eq!(entries[1].0.node, "ports");
    let Value::Mapping(ports) = &entries[1].1.node else {
        panic!("expected a map of ports");
    };
    assert_eq!(ports[0].0.node, "http");
    assert_eq!(ports[0].1.node, Value::Int(8080));
}

#[test]
fn a_list_attribute_parses() {
    let file =
        parse_fleet(r#"fleet "f" { deployment: docker; service api { env: ["A=1", "B=2"] } }"#)
            .expect("parses");
    let Value::Mapping(entries) = &file.fleet.node.services[0].node.attrs.node else {
        panic!("expected a map");
    };
    let Value::List(items) = &entries[0].1.node else {
        panic!("expected a list");
    };
    let values: Vec<&Value> = items.iter().map(|i| &i.node).collect();
    assert_eq!(
        values,
        vec![
            &Value::Str("A=1".to_string()),
            &Value::Str("B=2".to_string()),
        ],
    );
}

#[test]
fn a_scenario_body_parses() {
    let file = parse_src(
        r#"fleet "f" { deployment: docker; }
           scenario "s" {
             consistent_within: 30s;
             do { http POST api "/orders" body { item: "book", quantity: 4 } };
             expect {
               db.orders.count == 2;
               db.orders.count where item = "book" == 1;
             }
           }"#,
    )
    .expect("parses");

    let scenario = &file.scenarios[0].node;
    assert_eq!(scenario.name.node, "s");
    assert_eq!(
        scenario.consistent_within.node,
        Duration::from_secs(30),
    );

    let step = &scenario.steps[0].node.action.node;
    let head: Vec<&str> = step.head.iter().map(|h| h.node.as_str()).collect();
    assert_eq!(head, ["http", "POST"]);
    let args: Vec<&Value> = step.args.iter().map(|a| &a.node).collect();
    assert_eq!(
        args,
        [
            &Value::Ident("api".to_string()),
            &Value::Str("/orders".to_string())
        ],
    );
    assert!(matches!(step.clauses[0].node, Clause::Body(_)));

    assert_eq!(scenario.expect.len(), 2);
    let first = &scenario.expect[0].node;
    let observable: Vec<&str> = first
        .left
        .node
        .head
        .iter()
        .map(|h| h.node.as_str())
        .collect();
    assert_eq!(observable, ["db", "orders", "count"]);
    assert_eq!(first.op.node, CmpOp::Eq);
    assert_eq!(first.right.node, Value::Int(2));
    assert!(matches!(
        scenario.expect[1].node.left.node.clauses[0].node,
        Clause::Where(_),
    ));
}

#[test]
fn a_scenario_without_consistent_within_is_an_error() {
    let errors =
        parse_src(r#"fleet "f" { deployment: docker; } scenario "s" { }"#).unwrap_err();
    assert!(errors
        .iter()
        .any(|d| d.message.contains("consistent_within")));
}

#[test]
fn a_missing_fleet_is_an_error() {
    let errors = parse_src("service api { }").unwrap_err();
    assert!(errors.iter().any(|d| d.message.contains("fleet")));
}

#[test]
fn recovery_reports_an_error_from_each_malformed_service() {
    // Two services each missing a value; both surface in one pass.
    let errors =
        parse_src(r#"fleet "f" { deployment: docker; service a { x: }; service b { y: }; }"#)
            .unwrap_err();
    assert_eq!(errors.len(), 2);
}

fn http() -> (String, Vec<OpSig>) {
    let call = |method: &str| {
        OpSig::action(
            HeadPattern::exact(method),
            vec![
                Param::required("service", ParamType::ServiceRef),
                Param::required("path", ParamType::Path),
            ],
            ValueType::Int,
        )
        .with_clause(ClauseDecl::new("body", ClauseShape::Block))
    };
    ("http".to_string(), vec![call("POST"), call("GET")])
}

fn table(tail: &str, result: ValueType) -> OpSig {
    OpSig::observable(HeadPattern::wildcard(&["table"], tail), result, schema::CmpOp::all())
        .with_clause(ClauseDecl::new("where", ClauseShape::Filter))
}

/// Plugins like the ones a build ships.
fn builtins() -> Registry {
    Registry {
        deployments: vec![(
            "docker".to_string(),
            AttrSchema::new(vec![
                AttrDecl::required("image", ValueType::Str),
                AttrDecl::required("ports", ValueType::MapOf(Box::new(ValueType::Int))),
                AttrDecl::optional("env", ValueType::List(Box::new(ValueType::Str))),
                AttrDecl::optional("healthcheck", ValueType::List(Box::new(ValueType::Str))),
            ]),
        )],
        kinds: Vec::new(),
        drivers: vec![http()],
        observers: vec![(
            "mariadb".to_string(),
            vec![
                table("count", ValueType::Int),
                table("select", ValueType::Scalar)
                    .with_param(Param::required("column", ParamType::Ident)),
            ],
        )],
    }
}

fn parse_file(src: &str) -> File {
    parse_src(src).expect("parses")
}

fn diagnose(src: &str) -> Vec<Diag> {
    validate(&parse_file(src), &builtins())
}

fn lower_ok(src: &str) -> plan::Plan {
    lower(&parse_file(src), &builtins()).expect("lowers")
}

fn find<'a>(diags: &'a [Diag], needle: &str) -> &'a Diag {
    diags
        .iter()
        .find(|diag| diag.message.contains(needle))
        .unwrap_or_else(|| panic!("no diagnostic matching {needle:?} in {diags:?}"))
}

const VALID: &str = r#"
    fleet "orders" {
      deployment: docker;
      service api { kinds: [http], image: "api:1", ports: { http: 80 } };
      service db  { kinds: [mariadb], image: "mariadb:11", ports: { mariadb: 3306 } };
    }
    scenario "s" {
      consistent_within: 10s;
      do { http POST api "/orders" body { item: "book", quantity: 1 } };
      expect { db.orders.count where item = "book" == 1; }
    }
"#;

#[test]
fn lower_the_example_shape_validates_clean() {
    assert!(diagnose(VALID).is_empty(), "{:?}", diagnose(VALID));
}

#[test]
fn a_body_may_state_a_value_is_absent() {
    let plan = lower_ok(&VALID.replace(r#"item: "book", quantity: 1"#, "item: null"));
    let body = plan.scenarios[0].steps[0]
        .body
        .as_ref()
        .expect("the step carries a body");
    assert_eq!(body[0].1, plan::Value::Null);
}

#[test]
fn an_attribute_of_a_stated_type_may_not_be_absent() {
    let diags = diagnose(&VALID.replace("http: 80", "http: null"));
    find(&diags, "expected an integer");
}

#[test]
fn the_example_lowers_to_a_plan() {
    let plan = lower_ok(VALID);
    assert_eq!(plan.fleet.name, "orders");
    assert_eq!(plan.fleet.deployment, "docker");
    assert_eq!(plan.fleet.services.len(), 2);

    let scenario = &plan.scenarios[0];
    assert_eq!(scenario.consistent_within, Duration::from_secs(10));

    let step = &scenario.steps[0];
    assert_eq!(step.driver, "http");
    assert_eq!(step.operation, "POST");
    assert!(step.body.is_some());

    // The check binds `db`'s kind to the mariadb observer, and keeps the filter.
    let check = &scenario.checks[0];
    assert_eq!(check.service, "db");
    assert_eq!(check.observer, "mariadb");
    assert_eq!(check.observable, ["orders", "count"]);
    assert_eq!(
        check.filter,
        Some(("item".to_string(), plan::Value::Str("book".to_string()))),
    );
}

#[test]
fn lowering_fails_on_a_semantic_error() {
    let src = r#"fleet "f" { deployment: docker; service api { kinds: [http], image: "x", ports: { http: 80 } } }
                 scenario "s" { consistent_within: 1s; expect { db.orders.count == 1; } }"#;
    let error = lower(&parse_file(src), &builtins()).unwrap_err();
    assert!(error
        .iter()
        .any(|diag| diag.message.contains("unknown service")));
}

#[test]
fn consistent_within_must_be_within_bound() {
    let src = r#"fleet "f" { deployment: docker; service api { kinds: [http], image: "x", ports: { http: 80 } } }
                 scenario "s" { consistent_within: 10m; }"#;
    let diags = diagnose(src);
    find(&diags, "may be given at most");
}

#[test]
fn the_spec_hash_is_stable_and_content_sensitive() {
    assert_eq!(lower_ok(VALID).spec_hash(), lower_ok(VALID).spec_hash());
    let renamed = lower_ok(&VALID.replace(r#"scenario "s""#, r#"scenario "t""#));
    assert_ne!(lower_ok(VALID).spec_hash(), renamed.spec_hash());
}

#[test]
fn every_part_of_a_plan_is_hashed() {
    let whole = lower_ok(VALID).spec_hash();
    for (from, to) in [
        ("10s", "11s"),
        ("item: \"book\"", "item: \"books\""),
        ("quantity: 1", "quantity: 2"),
        ("== 1", "!= 1"),
        ("POST", "GET"),
        ("3306", "3307"),
        ("where item = \"book\"", ""),
    ] {
        let changed = lower_ok(&VALID.replace(from, to)).spec_hash();
        assert_ne!(whole, changed, "{from} -> {to}");
    }
}

#[test]
fn the_hash_is_the_one_the_plan_derives() {
    let plan = lower_ok(VALID);
    let mut hasher = std::collections::hash_map::DefaultHasher::new();
    plan.hash(&mut hasher);
    assert_eq!(plan.spec_hash().0, hasher.finish());
}

#[test]
fn lower_an_unknown_deployment_suggests_the_known_ones() {
    let src = r#"fleet "f" { deployment: podman; service api { image: "x", port: 80 } }
                 scenario "s" { consistent_within: 1s; }"#;
    let diags = diagnose(src);
    let diag = find(&diags, "deployment plugin `podman`");
    assert_eq!(diag.help.as_ref().unwrap().suggestions, ["docker"]);
}

#[test]
fn lower_an_unknown_attribute_suggests_the_schema() {
    let src = r#"fleet "f" { deployment: docker; service api { image: "x", port: 80, colour: "red" } }
                 scenario "s" { consistent_within: 1s; }"#;
    let diags = diagnose(src);
    let diag = find(&diags, "unknown attribute `colour`");
    assert!(diag
        .help
        .as_ref()
        .unwrap()
        .suggestions
        .contains(&"image".to_string()));
}

#[test]
fn lower_a_missing_required_attribute_is_reported() {
    let src = r#"fleet "f" { deployment: docker; service api { image: "x" } }
                 scenario "s" { consistent_within: 1s; }"#;
    // Naming the plugin that reads it says where the requirement came from,
    // which matters once several plugins read a service's attributes.
    let diags = diagnose(src);
    let diag = find(&diags, "is missing `ports`");
    assert!(diag.message.contains("docker"), "{}", diag.message);
}

#[test]
fn lower_an_unknown_service_lists_the_defined_ones() {
    let src = r#"fleet "f" { deployment: docker; service api { kinds: [http], image: "x", ports: { http: 80 } } }
                 scenario "s" { consistent_within: 1s; do { http POST gateway "/x" }; }"#;
    let diags = diagnose(src);
    let diag = find(&diags, "unknown service `gateway`");
    assert_eq!(diag.help.as_ref().unwrap().suggestions, ["api"]);
}

#[test]
fn lower_a_service_that_does_not_speak_the_driver_has_no_driver_to_suggest() {
    // api's only kind, mariadb, is an observer, so there is no driver to suggest.
    let src = r#"fleet "f" { deployment: docker; service api { kinds: [mariadb], image: "x", ports: { mariadb: 80 } } }
                 scenario "s" { consistent_within: 1s; do { http POST api "/x" }; }"#;
    let diags = diagnose(src);
    let diag = find(&diags, "does not speak `http`");
    let help = diag.help.as_ref().unwrap();
    assert!(help.suggestions.is_empty());
    assert!(help.lead.contains("no available drivers"));
}

#[test]
fn lower_an_unknown_observable_suggests_the_observables() {
    let src = r#"fleet "f" { deployment: docker; service db { kinds: [mariadb], image: "x", ports: { mariadb: 80 } } }
                 scenario "s" { consistent_within: 1s; expect { db.orders.rows == 1; } }"#;
    let diags = diagnose(src);
    let diag = find(&diags, "no observable `orders.rows`");
    assert_eq!(
        diag.help.as_ref().unwrap().suggestions,
        ["<table>.count", "<table>.select"],
    );
    // The span covers the observable path, not the valid `db` service.
    assert_eq!(&src[diag.span.start..diag.span.end], "orders.rows");
}

#[test]
fn every_clause_of_a_call_is_held_to_its_signature() {
    let few = diagnose(&VALID.replace(r#"api "/orders""#, "api"));
    find(&few, "takes 2 argument(s), got 1");
    let unknown_driver = diagnose(&VALID.replace("http POST", "grpc POST"));
    let diag = find(&unknown_driver, "unknown driver `grpc`");
    assert_eq!(diag.help.as_ref().unwrap().suggestions, ["http"]);
    let unknown_operation = diagnose(&VALID.replace("http POST", "http PATCH"));
    let diag = find(&unknown_operation, "has no operation `PATCH`");
    assert_eq!(diag.help.as_ref().unwrap().suggestions, ["GET", "POST"]);
    let not_a_service = diagnose(&VALID.replace("POST api", "POST 3"));
    find(&not_a_service, "expected a service name");
    let not_a_path = diagnose(&VALID.replace(r#""/orders""#, "orders"));
    find(&not_a_path, "expected a string");
    let another_type = diagnose(&VALID.replace("== 1", "== \"one\""));
    find(&another_type, "expected an integer");
}

#[test]
fn a_source_compiles_or_says_why_not() {
    assert_eq!(compile(VALID, &builtins()).expect("compiles"), lower_ok(VALID));
    let lexed = compile("fleet ? ?", &builtins()).expect_err("does not lex");
    assert_eq!(lexed.len(), 2);
    let parsed = compile("service api { }", &builtins()).expect_err("does not parse");
    assert!(!parsed.is_empty());
    let lowered = compile(&VALID.replace("docker", "podman"), &builtins())
        .expect_err("does not lower");
    find(&lowered, "podman");
}

/// Plugins of a build whose deployment reads one port of a service.
fn one_port() -> Registry {
    Registry {
        deployments: vec![(
            "docker".to_string(),
            AttrSchema::new(vec![
                AttrDecl::required("image", ValueType::Str),
                AttrDecl::required("port", ValueType::Int),
            ]),
        )],
        kinds: Vec::new(),
        drivers: vec![http()],
        observers: vec![("mariadb".to_string(), vec![table("count", ValueType::Int)])],
    }
}

fn diagnose_one_port(src: &str) -> Vec<Diag> {
    validate(&parse_file(src), &one_port())
}

const ONE_PORT: &str = r#"
    fleet "orders" {
      deployment: docker;
      service api { kinds: [http], image: "api:1", port: 80 };
      service db  { kinds: [mariadb], image: "mariadb:11", port: 3306 };
    }
    scenario "s" {
      consistent_within: 10s;
      do { http POST api "/orders" body { item: "book", quantity: 1 } };
      expect { db.orders.count == 1; }
    }
"#;

#[test]
fn validate_the_example_shape_validates_clean() {
    assert!(
        diagnose_one_port(ONE_PORT).is_empty(),
        "{:?}",
        diagnose_one_port(ONE_PORT)
    );
}

#[test]
fn validate_an_unknown_deployment_suggests_the_known_ones() {
    let src = r#"fleet "f" { deployment: podman; service api { image: "x", port: 80 } }
                 scenario "s" { consistent_within: 1s; }"#;
    let diags = diagnose_one_port(src);
    let diag = find(&diags, "deployment plugin `podman`");
    assert_eq!(diag.help.as_ref().unwrap().suggestions, ["docker"]);
}

#[test]
fn validate_an_unknown_attribute_suggests_the_schema() {
    let src = r#"fleet "f" { deployment: docker; service api { image: "x", port: 80, colour: "red" } }
                 scenario "s" { consistent_within: 1s; }"#;
    let diags = diagnose_one_port(src);
    let diag = find(&diags, "unknown attribute `colour`");
    assert!(diag
        .help
        .as_ref()
        .unwrap()
        .suggestions
        .contains(&"image".to_string()));
}

#[test]
fn validate_an_unknown_service_lists_the_defined_ones() {
    let src = r#"fleet "f" { deployment: docker; service api { kinds: [http], image: "x", port: 80 } }
                 scenario "s" { consistent_within: 1s; do { http POST gateway "/x" }; }"#;
    let diags = diagnose_one_port(src);
    let diag = find(&diags, "unknown service `gateway`");
    assert_eq!(diag.help.as_ref().unwrap().suggestions, ["api"]);
}

#[test]
fn validate_a_service_that_does_not_speak_the_driver_has_no_driver_to_suggest() {
    // api's only kind, mariadb, is an observer, so there is no driver to suggest.
    let src = r#"fleet "f" { deployment: docker; service api { kinds: [mariadb], image: "x", port: 80 } }
                 scenario "s" { consistent_within: 1s; do { http POST api "/x" }; }"#;
    let diags = diagnose_one_port(src);
    let diag = find(&diags, "does not speak `http`");
    let help = diag.help.as_ref().unwrap();
    assert!(help.suggestions.is_empty());
    assert!(help.lead.contains("no available drivers"));
}

#[test]
fn validate_an_unknown_observable_suggests_the_observables() {
    let src = r#"fleet "f" { deployment: docker; service db { kinds: [mariadb], image: "x", port: 80 } }
                 scenario "s" { consistent_within: 1s; expect { db.orders.rows == 1; } }"#;
    let diags = diagnose_one_port(src);
    let diag = find(&diags, "no observable `orders.rows`");
    assert_eq!(diag.help.as_ref().unwrap().suggestions, ["<table>.count"]);
    // The span covers the observable path, not the valid `db` service.
    assert_eq!(&src[diag.span.start..diag.span.end], "orders.rows");
}
