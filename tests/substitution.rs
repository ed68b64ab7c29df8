use std::collections::HashMap;

use minitmpl::{minitmpl, minitmpl_fn, Error};

fn unresolved_name(r: Result<String, Error>) -> String {
    match r {
        Err(Error::UnresolvedVariable(name)) => name,
        other => panic!("expected an unresolved variable, got {:?}", other),
    }
}

fn vars(pairs: &[(&str, &str)]) -> HashMap<String, String> {
    let mut m = HashMap::new();
    for (k, v) in pairs {
        m.insert(k.to_string(), v.to_string());
    }
    m
}

#[test]
fn simple() {
    let template = "{{color}}";
    let closure = |x| match x {
        "color" => Some("red"),
        _ => None,
    };
    let result = minitmpl_fn(template, closure).unwrap();

    assert_eq!(result, "red");
}

#[test]
fn plain_template_is_returned_unchanged() {
    let template = "no placeholders here }} { } done";
    let r = minitmpl_fn(template, |_: &str| None::<&str>).unwrap();
    assert_eq!(r, template);
    let r = minitmpl_fn(template, |_: &str| Some("x")).unwrap();
    assert_eq!(r, template);
}

#[test]
fn empty_template_gives_empty_text() {
    assert_eq!(minitmpl_fn("", |_: &str| None::<&str>).unwrap(), "");
    assert_eq!(minitmpl_fn("", |_: &str| Some("v")).unwrap(), "");
}

#[test]
fn placeholders_are_replaced_in_order() {
    let r = minitmpl_fn("<{{a}}|{{b}}|{{a}}>", |x: &str| match x {
        "a" => Some("1"),
        "b" => Some("2"),
        _ => None,
    })
    .unwrap();
    assert_eq!(r, "<1|2|1>");
}

#[test]
fn unresolved_name_is_the_trimmed_inner_text() {
    let r = minitmpl_fn("x {{  foo bar  }} y", |_: &str| None::<&str>);
    assert_eq!(unresolved_name(r), "foo bar");
}

#[test]
fn first_unresolved_name_is_reported() {
    let r = minitmpl_fn("{{a}}{{b}}{{c}}", |x: &str| match x {
        "a" => Some("1"),
        _ => None,
    });
    assert_eq!(unresolved_name(r), "b");
}

#[test]
fn unterminated_placeholder_is_a_syntax_error() {
    let r = minitmpl_fn("abc {{ def", |_: &str| Some("v"));
    assert!(matches!(r, Err(Error::SyntaxError)));
    let r = minitmpl_fn("{{a}} then {{b", |_: &str| Some("v"));
    assert!(matches!(r, Err(Error::SyntaxError)));
}

#[test]
fn unresolved_name_before_unterminated_marker_wins() {
    let r = minitmpl_fn("{{x}} {{", |_: &str| None::<&str>);
    assert_eq!(unresolved_name(r), "x");
}

#[test]
fn surrounding_white_space_is_trimmed() {
    let lookup = |x: &str| match x {
        "color" => Some("red"),
        "col or" => Some("blue"),
        _ => None,
    };
    assert_eq!(minitmpl_fn("{{ color }}", lookup).unwrap(), "red");
    assert_eq!(minitmpl_fn("{{color}}", lookup).unwrap(), "red");
    assert_eq!(minitmpl_fn("{{ col or }}", lookup).unwrap(), "blue");
    assert_eq!(minitmpl_fn("{{\t\u{3000}color\u{a0}\n}}", lookup).unwrap(), "red");
}

#[test]
fn inner_white_space_is_kept() {
    let r = minitmpl_fn("{{ col or }}", |x: &str| match x {
        "color" => Some("red"),
        _ => None,
    });
    assert_eq!(unresolved_name(r), "col or");
}

#[test]
fn inserted_values_are_not_scanned_again() {
    let r = minitmpl_fn("{{a}}", |x: &str| match x {
        "a" => Some("{{b}}"),
        _ => None,
    });
    assert_eq!(r.unwrap(), "{{b}}");
}

#[test]
fn empty_placeholder_looks_up_the_empty_name() {
    let lookup = |x: &str| match x {
        "" => Some("E"),
        _ => None,
    };
    assert_eq!(minitmpl_fn("[{{}}]", lookup).unwrap(), "[E]");
    assert_eq!(minitmpl_fn("[{{   }}]", lookup).unwrap(), "[E]");
    let r = minitmpl_fn("{{ }}", |_: &str| None::<&str>);
    assert_eq!(unresolved_name(r), "");
}

#[test]
fn first_open_and_first_close_markers_are_taken() {
    let r = minitmpl_fn("{{{{x}}", |x: &str| match x {
        "{{x" => Some("Y"),
        _ => None,
    });
    assert_eq!(r.unwrap(), "Y");
    let r = minitmpl_fn("{{x}}}", |x: &str| match x {
        "x" => Some("Y"),
        _ => None,
    });
    assert_eq!(r.unwrap(), "Y}");
}

#[test]
fn close_marker_before_any_open_marker_is_text() {
    let r = minitmpl_fn("}} {{a}}", |_: &str| Some("1"));
    assert_eq!(r.unwrap(), "}} 1");
}

#[test]
fn displayable_values_are_rendered() {
    let r = minitmpl_fn("{{n}} items", |x: &str| match x {
        "n" => Some(42u32),
        _ => None,
    });
    assert_eq!(r.unwrap(), "42 items");
}

#[test]
fn mapping_end_to_end_greeting() {
    let r = minitmpl(
        "Hello, {{name}}! You have {{count}} new messages.",
        vars(&[("name", "Ava"), ("count", "3")]),
    );
    assert_eq!(r.unwrap(), "Hello, Ava! You have 3 new messages.");
}

#[test]
fn mapping_with_numbers() {
    let mut m: HashMap<String, u64> = HashMap::new();
    m.insert("count".to_string(), 3);
    assert_eq!(minitmpl("You have {{ count }} new messages.", m).unwrap(), "You have 3 new messages.");
}

#[test]
fn mapping_missing_variable() {
    let r = minitmpl("{{missing}}", vars(&[]));
    assert_eq!(unresolved_name(r), "missing");
}

#[test]
fn mapping_unterminated_placeholder() {
    let r = minitmpl("unterminated {{oops", vars(&[("oops", "x")]));
    assert!(matches!(r, Err(Error::SyntaxError)));
    let r = minitmpl("unterminated {{oops", vars(&[]));
    assert!(matches!(r, Err(Error::SyntaxError)));
}

#[test]
fn mapping_keys_are_case_sensitive() {
    let r = minitmpl("{{Name}}", vars(&[("name", "Ava")]));
    assert_eq!(unresolved_name(r), "Name");
}

#[test]
fn many_placeholders_in_one_template() {
    let template = "{{x}}.".repeat(200_000);
    let r = minitmpl_fn(&template, |x: &str| match x {
        "x" => Some("ab"),
        _ => None,
    })
    .unwrap();
    assert_eq!(r, "ab.".repeat(200_000));
}
