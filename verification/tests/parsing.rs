use robinson::css::{Color, Selector, Unit, Value};
use robinson::parser::{parse, SyntaxError};

fn parse_ok(src: &str) -> robinson::css::Stylesheet {
    parse(String::from(src)).expect("parse should succeed")
}

fn parse_err(src: &str) -> SyntaxError {
    parse(String::from(src)).err().expect("parse should fail")
}

#[test]
fn selector_order_is_by_specificity() {
    let sheet = parse_ok("#a, .b.c, div { }");
    assert_eq!(sheet.rules.len(), 1);
    let rule = &sheet.rules[0];
    assert_eq!(rule.selectors.len(), 3);
    let Selector::Simple(s0) = &rule.selectors[0];
    let Selector::Simple(s1) = &rule.selectors[1];
    let Selector::Simple(s2) = &rule.selectors[2];
    assert_eq!(s0.id.as_deref(), Some("a"));
    assert_eq!(rule.selectors[0].specificity(), (1, 0, 0));
    assert_eq!(s1.class, vec![String::from("b"), String::from("c")]);
    assert_eq!(rule.selectors[1].specificity(), (0, 2, 0));
    assert_eq!(s2.tag_name.as_deref(), Some("div"));
    assert_eq!(rule.selectors[2].specificity(), (0, 0, 1));
}

#[test]
fn selector_sort_is_stable_on_ties() {
    // b and c carry the same specificity (0,0,1): source order is kept.
    let sheet = parse_ok("b, #x, c { }");
    let rule = &sheet.rules[0];
    let Selector::Simple(s0) = &rule.selectors[0];
    let Selector::Simple(s1) = &rule.selectors[1];
    let Selector::Simple(s2) = &rule.selectors[2];
    assert_eq!(s0.id.as_deref(), Some("x"));
    assert_eq!(s1.tag_name.as_deref(), Some("b"));
    assert_eq!(s2.tag_name.as_deref(), Some("c"));
}

#[test]
fn combined_selector_and_universal() {
    let sheet = parse_ok("div#main.note.wide, * { margin: auto; }");
    let rule = &sheet.rules[0];
    let Selector::Simple(s0) = &rule.selectors[0];
    assert_eq!(s0.tag_name.as_deref(), Some("div"));
    assert_eq!(s0.id.as_deref(), Some("main"));
    assert_eq!(s0.class, vec![String::from("note"), String::from("wide")]);
    assert_eq!(rule.selectors[0].specificity(), (1, 2, 1));
    // The universal selector matches nothing extra and scores zero.
    let Selector::Simple(s1) = &rule.selectors[1];
    assert!(s1.tag_name.is_none());
    assert!(s1.id.is_none());
    assert!(s1.class.is_empty());
    assert_eq!(rule.selectors[1].specificity(), (0, 0, 0));
}

#[test]
fn color_value_and_pixel_extraction() {
    let sheet = parse_ok("p { background: #ff0080; }");
    let decl = &sheet.rules[0].declarations[0];
    assert_eq!(decl.name, "background");
    match &decl.value {
        Value::ColorValue(c) => {
            assert_eq!(*c, Color { r: 255, g: 0, b: 128, a: 255 });
        }
        _ => panic!("expected a color"),
    }
    // Pixel extraction of a non-length is zero.
    assert_eq!(decl.value.to_px(), 0);
    assert_eq!(Value::Keyword(String::from("auto")).to_px(), 0);
}

#[test]
fn length_value_fixed_point() {
    let sheet = parse_ok("p { width: 12.5px; }");
    let decl = &sheet.rules[0].declarations[0];
    assert_eq!(decl.name, "width");
    match &decl.value {
        Value::Length(n, Unit::Px) => assert_eq!(*n, 12_500),
        _ => panic!("expected a length"),
    }
    assert_eq!(decl.value.to_px(), 12_500);
}

#[test]
fn unit_keyword_is_case_insensitive() {
    let sheet = parse_ok("p { width: 3PX; height: 4Px; }");
    assert_eq!(sheet.rules[0].declarations[0].value.to_px(), 3_000);
    assert_eq!(sheet.rules[0].declarations[1].value.to_px(), 4_000);
}

#[test]
fn keyword_and_several_rules() {
    let sheet = parse_ok("p { display: block; }\n.x { display: inline; }");
    assert_eq!(sheet.rules.len(), 2);
    match &sheet.rules[0].declarations[0].value {
        Value::Keyword(k) => assert_eq!(k, "block"),
        _ => panic!("expected a keyword"),
    }
}

#[test]
fn empty_source_is_empty_stylesheet() {
    let sheet = parse_ok("   \n\t ");
    assert!(sheet.rules.is_empty());
}

#[test]
fn error_selector_terminator() {
    assert_eq!(parse_err("div ; { }"), SyntaxError::SelectorTerminator);
    assert_eq!(parse_err("div"), SyntaxError::SelectorTerminator);
}

#[test]
fn error_missing_colon_and_semicolon() {
    assert_eq!(parse_err("p { width 10px; }"), SyntaxError::MissingColon);
    assert_eq!(parse_err("p { width: 10px }"), SyntaxError::MissingSemicolon);
}

#[test]
fn error_unterminated_rule() {
    assert_eq!(parse_err("p { width: 10px;"), SyntaxError::UnterminatedRule);
}

#[test]
fn error_truncated_or_invalid_hex() {
    assert_eq!(parse_err("p { color: #ff00; }"), SyntaxError::InvalidHexColor);
    assert_eq!(parse_err("p { color: #ggijkl; }"), SyntaxError::InvalidHexColor);
}

#[test]
fn error_unrecognized_unit() {
    assert_eq!(parse_err("p { width: 12.5em; }"), SyntaxError::UnrecognizedUnit);
    assert_eq!(parse_err("p { width: 10; }"), SyntaxError::UnrecognizedUnit);
}

#[test]
fn error_invalid_number() {
    assert_eq!(parse_err("p { width: 1.2.3px; }"), SyntaxError::InvalidNumber);
}

#[test]
fn parse_is_reachable_through_the_css_module() {
    let sheet = robinson::css::parse(String::from("p { width: 1px; }")).unwrap();
    assert_eq!(sheet.rules.len(), 1);
}

#[test]
fn non_ascii_input_is_handled_by_character() {
    // 'ü' is no identifier character: the keyword ends before it and the
    // declaration then lacks its semicolon.
    assert_eq!(parse_err("p { font: ünicode; }"), SyntaxError::MissingSemicolon);
    // A non-ASCII character cannot terminate a selector group.
    assert_eq!(parse_err("ä { }"), SyntaxError::SelectorTerminator);
}

#[test]
fn unicode_whitespace_separates_tokens() {
    // Form feed, no-break space and em space carry Unicode's White_Space
    // property and separate tokens like any blank.
    let sheet = parse_ok("p\u{000C}{ width:\u{00A0}1px; }\u{2003}q { height: 2px; }");
    assert_eq!(sheet.rules.len(), 2);
    assert_eq!(sheet.rules[0].declarations[0].value.to_px(), 1_000);
    assert_eq!(sheet.rules[1].declarations[0].value.to_px(), 2_000);
}

#[test]
fn fraction_digits_past_the_third_carry_no_weight() {
    let sheet = parse_ok("p { width: 1.0004px; }");
    assert_eq!(sheet.rules[0].declarations[0].value.to_px(), 1_000);
}
