use ptip_ffi::codegen::{placeholder_pattern, render_captures, TemplateEngine, TemplateError};

#[test]
fn replaces_single_placeholder() {
    let engine = TemplateEngine::new("${name}").expect("pattern should be valid");
    let values = [("name", "Steve")];
    let rendered = engine.render("Hello ${name}!", &values);

    assert_eq!(rendered, "Hello Steve!");
}

#[test]
fn replaces_multiple_placeholders() {
    let engine = TemplateEngine::new("${name}").expect("pattern should be valid");
    let values = [("greeting", "Hi"), ("name", "Steve")];
    let rendered = engine.render("${greeting}, ${name}. ${greeting} again!", &values);

    assert_eq!(rendered, "Hi, Steve. Hi again!");
}

#[test]
fn keeps_unknown_placeholders_unchanged() {
    let engine = TemplateEngine::new("${name}").expect("pattern should be valid");
    let values = [("known", "Alice")];
    let rendered = engine.render("Hello ${known} and ${unknown}!", &values);

    assert_eq!(rendered, "Hello Alice and ${unknown}!");
}

#[test]
fn supports_custom_pattern() {
    let engine = TemplateEngine::new("{{name}}").expect("pattern should be valid");
    let values = [("first", "Ada"), ("last", "Lovelace")];
    let rendered = engine.render("{{first}} {{last}}", &values);

    assert_eq!(rendered, "Ada Lovelace");
}

#[test]
fn rejects_pattern_without_name_token() {
    let result = TemplateEngine::new("${}");

    assert!(matches!(result, Err(TemplateError::InvalidPattern)));
}

#[test]
fn rejects_pattern_with_multiple_name_tokens() {
    let result = TemplateEngine::new("${name}_${other}");

    assert!(matches!(result, Err(TemplateError::InvalidPattern)));
}

#[test]
fn rendering_without_values_keeps_the_input() {
    let engine = TemplateEngine::new("<%name%>").expect("pattern should be valid");
    let input = "<%a%> and <%b_2%> stay, <% c %> is no placeholder";
    assert_eq!(engine.render(input, &[]), input);
}

#[test]
fn last_value_of_a_name_wins() {
    let engine = TemplateEngine::new("${name}").expect("pattern should be valid");
    let values = [("name", "first"), ("name", "second")];
    assert_eq!(engine.render("${name}", &values), "second");
}

#[test]
fn placeholder_text_is_escaped_around_the_name() {
    let source = placeholder_pattern(&[("${", "name", "}")]).unwrap();
    assert_eq!(source, r"\$\{(?P<key>[A-Za-z_][A-Za-z0-9_]*)\}");
    assert!(matches!(placeholder_pattern(&[]), Err(TemplateError::InvalidPattern)));
    assert!(matches!(
        placeholder_pattern(&[("", "a", "_b"), ("a_", "b", "")]),
        Err(TemplateError::InvalidPattern)
    ));
}

#[test]
fn captures_are_replaced_in_place() {
    let input = "x=${a}; y=${b};";
    let captures = [("x=", "${a}", Some("a")), ("x=${a}; y=", "${b}", Some("b"))];
    let rendered = render_captures(input, &captures, &[("b", "2")]);
    assert_eq!(rendered, "x=${a}; y=2;");
}
