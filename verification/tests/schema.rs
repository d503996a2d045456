use fluent_typegen::ast::{
    Attribute,
    CallArguments,
    Entry,
    Expression,
    InlineExpression,
    Message,
    NamedArgument,
    Pattern,
    PatternElement,
    Resource,
    Variant,
    VariantKey,
};
use fluent_typegen::codegen::{generate_ts, quote_str};
use fluent_typegen::parse::{parse_resource, ParsedMessage, ParsedMessages};

fn s(t: &str) -> String {
    t.to_string()
}

fn text(t: &str) -> PatternElement {
    PatternElement::TextElement { value: s(t) }
}

fn var(name: &str) -> InlineExpression {
    InlineExpression::VariableReference { name: s(name) }
}

fn inline(e: InlineExpression) -> PatternElement {
    PatternElement::Placeable { expression: Expression::Inline(e) }
}

fn pattern(elements: Vec<PatternElement>) -> Pattern {
    Pattern { elements }
}

fn ident_arm(key: &str) -> Variant {
    Variant { key: VariantKey::Identifier { name: s(key) }, value: pattern(vec![text("x")]) }
}

fn number_arm(key: &str) -> Variant {
    Variant { key: VariantKey::NumberLiteral { value: s(key) }, value: pattern(vec![text("x")]) }
}

fn select(selector: InlineExpression, variants: Vec<Variant>) -> PatternElement {
    PatternElement::Placeable { expression: Expression::Select { selector, variants } }
}

fn message(name: &str, value: Option<Pattern>) -> Entry {
    Entry::Message(Message { name: s(name), comment: None, value, attributes: vec![] })
}

fn message_full(
    name: &str,
    value: Option<Pattern>,
    attributes: Vec<Attribute>,
    comment: Option<Vec<&str>>,
) -> Entry {
    Entry::Message(Message {
        name: s(name),
        comment: comment.map(|c| c.into_iter().map(s).collect()),
        value,
        attributes,
    })
}

fn resource(body: Vec<Entry>) -> Resource {
    Resource { body }
}

fn only(parsed: &ParsedMessages) -> &ParsedMessage {
    assert_eq!(parsed.msgs.len(), 1);
    &parsed.msgs[0]
}

#[test]
fn greeting_scenario() {
    let r = resource(vec![message(
        "greeting",
        Some(pattern(vec![text("Hello, "), inline(var("name")), text("!")])),
    )]);
    let parsed = parse_resource(r);
    let m = only(&parsed);
    assert_eq!(m.name, "greeting");
    assert!(m.has_value);
    assert!(m.attrs.is_none());
    let phs = m.placeholders.as_ref().unwrap();
    assert_eq!(phs.len(), 1);
    assert_eq!(phs[0].name, "name");
    assert!(phs[0].variants.is_none());
}

#[test]
fn plural_arms_give_no_variants() {
    let r = resource(vec![message(
        "items",
        Some(pattern(vec![select(var("count"), vec![ident_arm("one"), ident_arm("other")])])),
    )]);
    let parsed = parse_resource(r);
    let m = only(&parsed);
    let phs = m.placeholders.as_ref().unwrap();
    assert_eq!(phs.len(), 1);
    assert_eq!(phs[0].name, "count");
    assert!(phs[0].variants.is_none());
}

#[test]
fn closed_arms_give_variants_without_other() {
    let r = resource(vec![message(
        "status",
        Some(pattern(vec![select(
            var("state"),
            vec![ident_arm("active"), ident_arm("inactive"), ident_arm("other")],
        )])),
    )]);
    let parsed = parse_resource(r);
    let m = only(&parsed);
    let phs = m.placeholders.as_ref().unwrap();
    assert_eq!(phs.len(), 1);
    assert_eq!(phs[0].name, "state");
    assert_eq!(phs[0].variants, Some(vec![s("active"), s("inactive")]));
}

#[test]
fn short_long_other_arms() {
    let r = resource(vec![message(
        "len",
        Some(pattern(vec![select(
            var("style"),
            vec![ident_arm("short"), ident_arm("long"), ident_arm("other")],
        )])),
    )]);
    let parsed = parse_resource(r);
    let phs = only(&parsed).placeholders.as_ref().unwrap();
    assert_eq!(phs[0].variants, Some(vec![s("short"), s("long")]));
}

#[test]
fn sorted_case_insensitively_first_collision_wins() {
    let r = resource(vec![
        message("beta", Some(pattern(vec![text("b")]))),
        message("Alpha", Some(pattern(vec![inline(var("first"))]))),
        message("ALPHA", Some(pattern(vec![inline(var("second"))]))),
        message("gamma", Some(pattern(vec![text("g")]))),
    ]);
    let parsed = parse_resource(r);
    let names: Vec<&str> = parsed.msgs.iter().map(|m| m.name.as_str()).collect();
    assert_eq!(names, vec!["Alpha", "beta", "gamma"]);
    let alpha_phs = parsed.msgs[0].placeholders.as_ref().unwrap();
    assert_eq!(alpha_phs[0].name, "first");
}

#[test]
fn lowercase_keys_drive_the_order() {
    let r = resource(vec![
        message("B", Some(pattern(vec![text("x")]))),
        message("a", Some(pattern(vec![text("y")]))),
    ]);
    let parsed = parse_resource(r);
    let names: Vec<&str> = parsed.msgs.iter().map(|m| m.name.as_str()).collect();
    assert_eq!(names, vec!["a", "B"]);
}

#[test]
fn exact_name_collision_keeps_first() {
    let r = resource(vec![
        message("dup", Some(pattern(vec![inline(var("first"))]))),
        message("dup", Some(pattern(vec![inline(var("second"))]))),
    ]);
    let parsed = parse_resource(r);
    let m = only(&parsed);
    assert_eq!(m.placeholders.as_ref().unwrap()[0].name, "first");
}

#[test]
fn attributes_only_message_has_no_value() {
    let r = resource(vec![message_full(
        "toolbar",
        None,
        vec![Attribute { name: s("title"), value: pattern(vec![inline(var("user"))]) }],
        None,
    )]);
    let parsed = parse_resource(r);
    let m = only(&parsed);
    assert!(!m.has_value);
    assert!(m.placeholders.is_none());
    let attrs = m.attrs.as_ref().unwrap();
    assert_eq!(attrs.len(), 1);
    assert_eq!(attrs[0].name, "title");
    let aphs = attrs[0].placeholders.as_ref().unwrap();
    assert_eq!(aphs[0].name, "user");
}

#[test]
fn attribute_placeholders_stay_out_of_the_message_list() {
    let r = resource(vec![message_full(
        "login",
        Some(pattern(vec![inline(var("main"))])),
        vec![Attribute { name: s("tooltip"), value: pattern(vec![inline(var("hint"))]) }],
        None,
    )]);
    let parsed = parse_resource(r);
    let m = only(&parsed);
    let phs = m.placeholders.as_ref().unwrap();
    assert_eq!(phs.len(), 1);
    assert_eq!(phs[0].name, "main");
    assert!(phs.iter().all(|p| p.name != "hint"));
    let attrs = m.attrs.as_ref().unwrap();
    assert_eq!(attrs[0].placeholders.as_ref().unwrap()[0].name, "hint");
}

#[test]
fn attribute_without_placeholders_records_none() {
    let r = resource(vec![message_full(
        "plain",
        None,
        vec![Attribute { name: s("label"), value: pattern(vec![text("just text")]) }],
        None,
    )]);
    let parsed = parse_resource(r);
    let attrs = only(&parsed).attrs.as_ref().unwrap();
    assert!(attrs[0].placeholders.is_none());
}

#[test]
fn function_call_arguments_are_traversed() {
    let call = InlineExpression::FunctionReference {
        name: s("NUMBER"),
        arguments: CallArguments {
            positional: vec![var("a")],
            named: vec![NamedArgument { name: s("opt"), value: var("b") }],
        },
    };
    let r = resource(vec![message("calc", Some(pattern(vec![inline(call)])))]);
    let parsed = parse_resource(r);
    let phs = only(&parsed).placeholders.as_ref().unwrap();
    let names: Vec<&str> = phs.iter().map(|p| p.name.as_str()).collect();
    assert_eq!(names, vec!["a", "b"]);
    assert!(phs.iter().all(|p| p.variants.is_none()));
}

#[test]
fn selector_over_function_call_constrains_its_arguments() {
    let call = InlineExpression::FunctionReference {
        name: s("PLATFORM"),
        arguments: CallArguments { positional: vec![var("os")], named: vec![] },
    };
    let r = resource(vec![message(
        "shortcut",
        Some(pattern(vec![select(call, vec![ident_arm("mac"), ident_arm("other")])])),
    )]);
    let parsed = parse_resource(r);
    let phs = only(&parsed).placeholders.as_ref().unwrap();
    assert_eq!(phs.len(), 1);
    assert_eq!(phs[0].name, "os");
    assert_eq!(phs[0].variants, Some(vec![s("mac")]));
}

#[test]
fn nested_placeable_is_not_surfaced() {
    let nested = InlineExpression::Placeable {
        expression: Box::new(Expression::Inline(var("hidden"))),
    };
    let r = resource(vec![message("outer", Some(pattern(vec![inline(nested)])))]);
    let parsed = parse_resource(r);
    let m = only(&parsed);
    assert!(m.has_value);
    assert_eq!(m.placeholders.as_ref().unwrap().len(), 0);
}

#[test]
fn literal_one_is_generic_but_other_numbers_are_not() {
    let generic = resource(vec![message(
        "g",
        Some(pattern(vec![select(var("n"), vec![number_arm("1"), ident_arm("other")])])),
    )]);
    let phs = parse_resource(generic);
    assert!(only(&phs).placeholders.as_ref().unwrap()[0].variants.is_none());

    let closed = resource(vec![message(
        "c",
        Some(pattern(vec![select(var("n"), vec![number_arm("2"), ident_arm("other")])])),
    )]);
    let phs = parse_resource(closed);
    assert_eq!(
        only(&phs).placeholders.as_ref().unwrap()[0].variants,
        Some(vec![s("2")]),
    );
}

#[test]
fn all_other_arms_give_no_variants() {
    let r = resource(vec![message(
        "fallback",
        Some(pattern(vec![select(var("x"), vec![ident_arm("other")])])),
    )]);
    let parsed = parse_resource(r);
    assert!(only(&parsed).placeholders.as_ref().unwrap()[0].variants.is_none());
}

#[test]
fn duplicate_arm_keys_are_retained() {
    let r = resource(vec![message(
        "dupkeys",
        Some(pattern(vec![select(
            var("x"),
            vec![ident_arm("a"), ident_arm("a"), ident_arm("other")],
        )])),
    )]);
    let parsed = parse_resource(r);
    assert_eq!(
        only(&parsed).placeholders.as_ref().unwrap()[0].variants,
        Some(vec![s("a"), s("a")]),
    );
}

#[test]
fn non_message_entries_are_ignored() {
    let r = resource(vec![
        Entry::Term,
        Entry::Comment,
        Entry::GroupComment,
        Entry::ResourceComment,
        Entry::Junk,
        message("kept", Some(pattern(vec![text("v")]))),
    ]);
    let parsed = parse_resource(r);
    assert_eq!(only(&parsed).name, "kept");
}

#[test]
fn comments_are_kept_only_with_a_value() {
    let with_value = resource(vec![message_full(
        "documented",
        Some(pattern(vec![text("v")])),
        vec![],
        Some(vec!["Line one", "Line two"]),
    )]);
    let parsed = parse_resource(with_value);
    assert_eq!(
        only(&parsed).comments,
        Some(vec![s("Line one"), s("Line two")]),
    );

    let without_value = resource(vec![message_full(
        "undocumented",
        None,
        vec![Attribute { name: s("a"), value: pattern(vec![text("t")]) }],
        Some(vec!["Dropped"]),
    )]);
    let parsed = parse_resource(without_value);
    assert!(only(&parsed).comments.is_none());
}

#[test]
fn empty_resource_yields_no_messages() {
    let parsed = parse_resource(resource(vec![]));
    assert_eq!(parsed.msgs.len(), 0);
}

#[test]
fn extraction_and_rendering_are_deterministic() {
    let build = || {
        resource(vec![
            message("zulu", Some(pattern(vec![inline(var("z"))]))),
            message_full(
                "Echo",
                Some(pattern(vec![select(
                    var("mode"),
                    vec![ident_arm("loud"), ident_arm("quiet"), ident_arm("other")],
                )])),
                vec![Attribute { name: s("aria"), value: pattern(vec![inline(var("who"))]) }],
                Some(vec!["Docs"]),
            ),
            message("echo", Some(pattern(vec![text("shadowed")]))),
        ])
    };
    let first = generate_ts(&parse_resource(build()));
    let second = generate_ts(&parse_resource(build()));
    assert_eq!(first, second);
}

#[test]
fn quote_str_wraps_in_double_quotes() {
    assert_eq!(quote_str("abc"), "\"abc\"");
    assert_eq!(quote_str(""), "\"\"");
}

#[test]
fn rendered_declaration_matches_exactly() {
    let r = resource(vec![message(
        "greeting",
        Some(pattern(vec![text("Hello, "), inline(var("name")), text("!")])),
    )]);
    let ts = generate_ts(&parse_resource(r));
    let expected = "export type FluentPlaceholder = string | number | Date;\nexport type Messages = {\n  \"greeting\": {\n    hasValue: true;\n    attributes: {\n    };\n    placeholders: {\n      \"name\": FluentPlaceholder;\n    };\n  };\n};\n";
    assert_eq!(ts, expected);
}

#[test]
fn rendered_declaration_with_variants_attributes_and_comments() {
    let r = resource(vec![message_full(
        "status",
        Some(pattern(vec![select(
            var("state"),
            vec![ident_arm("active"), ident_arm("inactive"), ident_arm("other")],
        )])),
        vec![Attribute { name: s("title"), value: pattern(vec![inline(var("user"))]) }],
        Some(vec!["The status line"]),
    )]);
    let ts = generate_ts(&parse_resource(r));
    let expected = "export type FluentPlaceholder = string | number | Date;\nexport type Messages = {\n  // The status line\n  \"status\": {\n    hasValue: true;\n    attributes: {\n      \"title\": {\n        placeholders: {\n          \"user\": FluentPlaceholder;\n        };\n      };\n    };\n    placeholders: {\n      \"state\": \"active\" | \"inactive\" | FluentPlaceholder;\n    };\n  };\n};\n";
    assert_eq!(ts, expected);
}

#[test]
fn rendered_empty_resource() {
    let ts = generate_ts(&parse_resource(resource(vec![])));
    let expected = "export type FluentPlaceholder = string | number | Date;\nexport type Messages = {\n};\n";
    assert_eq!(ts, expected);
}

#[test]
fn message_without_attributes_but_no_value_pattern_placeholders() {
    let r = resource(vec![message("textonly", Some(pattern(vec![text("just text")])))]);
    let parsed = parse_resource(r);
    let m = only(&parsed);
    assert!(m.has_value);
    let phs = m.placeholders.as_ref().unwrap();
    assert!(phs.is_empty());
    assert!(m.attrs.is_none());
}
