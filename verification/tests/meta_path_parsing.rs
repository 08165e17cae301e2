use hetnet::errors::MetaPathDefinitionError;
use hetnet::meta_path::{MetaPath, PathComponent};
use hetnet::type_table::TypeTable;

fn typed(c: &PathComponent<String>) -> Option<&str> {
    match c {
        PathComponent::Typed(name) => Some(name.as_str()),
        PathComponent::Wildcard => None,
    }
}

fn syntax_detail(r: Result<MetaPath<String>, MetaPathDefinitionError>) -> String {
    match r {
        Err(MetaPathDefinitionError::InvalidSyntax { detail }) => detail,
        other => panic!("expected a syntax error, got {:?}", other),
    }
}

#[test]
fn parses_typed_and_wildcard_steps() {
    let mp = MetaPath::new("[Author] -{writes}-> [Paper] -> [*]").unwrap();
    assert_eq!(typed(&mp.start), Some("Author"));
    assert_eq!(mp.steps.len(), 2);
    assert_eq!(typed(&mp.steps[0].0), Some("writes"));
    assert_eq!(typed(&mp.steps[0].1), Some("Paper"));
    assert_eq!(typed(&mp.steps[1].0), None);
    assert_eq!(typed(&mp.steps[1].1), None);
}

#[test]
fn whitespace_is_ignored_everywhere() {
    let a = MetaPath::new("[ A u t h o r ]\n-{ writes }->\t[Paper]").unwrap();
    assert_eq!(a.pattern(), "[Author]-{writes}->[Paper]");
}

#[test]
fn from_str_agrees_with_new() {
    let mp: MetaPath<String> = "[A]->[B]".parse().unwrap();
    assert_eq!(mp.pattern(), "[A]->[B]");
}

#[test]
fn empty_pattern_is_rejected() {
    assert_eq!(
        syntax_detail(MetaPath::new("")),
        "Unexpected end of input while parsing node type (expected '[')"
    );
}

#[test]
fn a_single_node_is_not_a_meta_path() {
    assert_eq!(
        syntax_detail(MetaPath::new("[Author]")),
        "Unexpected end of input while parsing edge type (expected '-')"
    );
}

#[test]
fn wrong_opening_bracket() {
    assert_eq!(
        syntax_detail(MetaPath::new("(Author]->[B]")),
        "Invalid syntax in node type: expected '[', got '('"
    );
}

#[test]
fn digits_in_a_type_name() {
    assert_eq!(
        syntax_detail(MetaPath::new("[Au1]->[B]")),
        "Expected ASCII character in node type, got '1'"
    );
}

#[test]
fn empty_node_type_name() {
    assert_eq!(syntax_detail(MetaPath::new("[]->[B]")), "Node type name must be ASCII");
}

#[test]
fn empty_edge_type_name() {
    assert_eq!(syntax_detail(MetaPath::new("[A]-{}->[B]")), "Empty type name in edge type");
}

#[test]
fn bad_character_after_dash() {
    assert_eq!(syntax_detail(MetaPath::new("[A]-x[B]")), "Invalid character in edge type: 'x'");
}

#[test]
fn edge_type_cut_off() {
    assert_eq!(syntax_detail(MetaPath::new("[A]-{ab")), "Unexpected end of input in edge type");
}

#[test]
fn dash_at_the_end() {
    assert_eq!(
        syntax_detail(MetaPath::new("[A]-")),
        "Unexpected end of input (expected edge type)"
    );
}

#[test]
fn missing_node_after_edge() {
    assert_eq!(
        syntax_detail(MetaPath::new("[A]->")),
        "Unexpected end of input while parsing node type (expected '[')"
    );
}

#[test]
fn wildcard_must_be_closed() {
    assert_eq!(
        syntax_detail(MetaPath::new("[*x->[B]")),
        "Invalid syntax in node type: expected ']', got 'x'"
    );
}

#[test]
fn missing_arrow_head() {
    assert_eq!(
        syntax_detail(MetaPath::new("[A]-{e}-[B]")),
        "Invalid syntax in edge type: expected '>', got '['"
    );
}

#[test]
fn node_name_cut_off() {
    assert_eq!(syntax_detail(MetaPath::new("[Ab")), "Unexpected end of input in node type");
}

#[test]
fn pattern_round_trips_through_new() {
    let text = "[Author]-{writes}->[Paper]->[*]-{cites}->[Paper]";
    let mp = MetaPath::new(text).unwrap();
    assert_eq!(mp.pattern(), text);
    let again = MetaPath::new(&mp.pattern()).unwrap();
    assert_eq!(again.pattern(), text);
}

#[test]
fn reverse_walks_backwards() {
    let mp = MetaPath::new("[A]-{e}->[B]->[*]").unwrap();
    let r = mp.reverse();
    assert_eq!(r.pattern(), "[*]->[B]-{e}->[A]");
    assert_eq!(r.reverse().pattern(), "[A]-{e}->[B]->[*]");
}

#[test]
fn reversed_pattern_parses() {
    let mp = MetaPath::new("[A]-{x}->[B]-{y}->[C]").unwrap();
    let text = mp.reverse().pattern();
    let parsed = MetaPath::new(&text).unwrap();
    assert_eq!(parsed.pattern(), "[C]-{y}->[B]-{x}->[A]");
}

#[test]
fn resolves_known_names() {
    let nodes = TypeTable::from_names(&vec!["Author".to_string(), "Paper".to_string()]);
    let edges = TypeTable::from_names(&vec!["writes".to_string()]);
    let mp = MetaPath::new("[Paper]-{writes}->[*]").unwrap();
    let resolved = mp.resolve_types(&nodes, &edges).unwrap();
    assert!(matches!(resolved.start, PathComponent::Typed(1)));
    assert!(matches!(resolved.steps[0].0, PathComponent::Typed(0)));
    assert!(matches!(resolved.steps[0].1, PathComponent::Wildcard));
    assert!(resolved.start.matches(1));
    assert!(!resolved.start.matches(0));
    assert!(resolved.steps[0].1.matches(7));
}

#[test]
fn unknown_edge_type_is_named() {
    let nodes = TypeTable::from_names(&vec!["Author".to_string()]);
    let edges = TypeTable::from_names(&vec!["writes".to_string()]);
    let mp = MetaPath::new("[Author]-{reads}->[Author]").unwrap();
    match mp.resolve_types(&nodes, &edges) {
        Err(MetaPathDefinitionError::UnknownType { kind, name }) => {
            assert_eq!(kind, "edge");
            assert_eq!(name, "reads");
        }
        other => panic!("expected an unknown type, got {:?}", other.map(|m| m.steps.len())),
    }
}

#[test]
fn unknown_start_type_is_named() {
    let nodes = TypeTable::from_names(&vec!["Author".to_string()]);
    let edges = TypeTable::from_names(&vec!["writes".to_string()]);
    let mp = MetaPath::new("[Venue]->[Author]").unwrap();
    match mp.resolve_types(&nodes, &edges) {
        Err(MetaPathDefinitionError::UnknownType { kind, name }) => {
            assert_eq!(kind, "node");
            assert_eq!(name, "Venue");
        }
        other => panic!("expected an unknown type, got {:?}", other.map(|m| m.steps.len())),
    }
}

#[test]
fn whitespace_matches_std() {
    let all: String = (0u32..0x3100).filter_map(char::from_u32).collect();
    let expected: Vec<char> = all.chars().filter(|c| !c.is_whitespace()).collect();
    assert_eq!(hetnet::text::non_whitespace_chars(&all), expected);
}

#[test]
fn ideographic_space_is_whitespace() {
    let mp = MetaPath::new("[A]\u{3000}->[B]").unwrap();
    assert_eq!(mp.pattern(), "[A]->[B]");
    assert_eq!(
        syntax_detail(MetaPath::new("[A]\u{200b}->[B]")),
        "Invalid syntax in edge type: expected '-', got '\u{200b}'"
    );
}
