use shorter::catalog::{Catalog, Group, Step};
use shorter::json::{parse_catalog, to_json, ParseError};

fn step(command: &str, args: &[&str]) -> Step {
    Step { command: command.to_string(), args: args.iter().map(|a| a.to_string()).collect() }
}

fn catalogs_equal(a: &Catalog, b: &Catalog) -> bool {
    if a.groups.len() != b.groups.len() {
        return false;
    }
    for (ga, gb) in a.groups.iter().zip(b.groups.iter()) {
        if ga.0 != gb.0 || ga.1.steps.len() != gb.1.steps.len() {
            return false;
        }
        for (sa, sb) in ga.1.steps.iter().zip(gb.1.steps.iter()) {
            if sa.0 != sb.0 || sa.1.command != sb.1.command || sa.1.args != sb.1.args {
                return false;
            }
        }
    }
    true
}

#[test]
fn parses_the_documented_example() {
    let text = r#"
{
  "deploy": {
    "01": { "command": "cd", "args": ["build"] },
    "02": { "command": "make", "args": ["release"] }
  }
}
"#;
    let c = parse_catalog(text).unwrap();
    assert_eq!(c.groups.len(), 1);
    assert_eq!(c.groups[0].0, "deploy");
    let steps = &c.groups[0].1.steps;
    assert_eq!(steps.len(), 2);
    assert_eq!(steps[0].0, "01");
    assert_eq!(steps[0].1.command, "cd");
    assert_eq!(steps[0].1.args, vec!["build".to_string()]);
    assert_eq!(steps[1].0, "02");
    assert_eq!(steps[1].1.command, "make");
    assert_eq!(steps[1].1.args, vec!["release".to_string()]);
}

#[test]
fn missing_args_field_is_a_format_error() {
    // valid JSON, but the step object lacks its arguments field: no silent
    // default of an empty list
    let text = r#"{"g":{"s":{"command":"x"}}}"#;
    assert_eq!(parse_catalog(text).unwrap_err(), ParseError::InvalidFormat);
}

#[test]
fn missing_command_field_is_a_format_error() {
    let text = r#"{"g":{"s":{"args":[]}}}"#;
    assert_eq!(parse_catalog(text).unwrap_err(), ParseError::InvalidFormat);
}

#[test]
fn wrong_typed_args_is_a_format_error() {
    let text = r#"{"g":{"s":{"command":"x","args":[1]}}}"#;
    assert_eq!(parse_catalog(text).unwrap_err(), ParseError::InvalidFormat);
    let text2 = r#"{"g":{"s":{"command":"x","args":"y"}}}"#;
    assert_eq!(parse_catalog(text2).unwrap_err(), ParseError::InvalidFormat);
}

#[test]
fn wrong_typed_command_is_a_format_error() {
    let text = r#"{"g":{"s":{"command":3,"args":[]}}}"#;
    assert_eq!(parse_catalog(text).unwrap_err(), ParseError::InvalidFormat);
}

#[test]
fn fields_may_come_in_either_order() {
    let text = r#"{"g":{"s":{"args":["a","b"],"command":"x"}}}"#;
    let c = parse_catalog(text).unwrap();
    assert_eq!(c.groups[0].1.steps[0].1.command, "x");
    assert_eq!(c.groups[0].1.steps[0].1.args, vec!["a".to_string(), "b".to_string()]);
}

#[test]
fn duplicate_keys_are_refused() {
    let steps = r#"{"s":{"command":"x","args":[]},"s":{"command":"y","args":[]}}"#;
    let text = format!("{{\"g\":{}}}", steps);
    assert_eq!(parse_catalog(&text).unwrap_err(), ParseError::InvalidFormat);
    let text2 = r#"{"g":{"s":{"command":"x","args":[]}},"g":{"s":{"command":"x","args":[]}}}"#;
    assert_eq!(parse_catalog(text2).unwrap_err(), ParseError::InvalidFormat);
}

#[test]
fn unknown_step_fields_are_refused() {
    let text = r#"{"g":{"s":{"command":"x","args":[],"note":"hi"}}}"#;
    assert_eq!(parse_catalog(text).unwrap_err(), ParseError::InvalidFormat);
}

#[test]
fn other_json_documents_are_refused() {
    assert!(parse_catalog("").is_err());
    assert!(parse_catalog("[]").is_err());
    assert!(parse_catalog("3").is_err());
    assert!(parse_catalog(r#"{"g":3}"#).is_err());
    assert!(parse_catalog(r#"{"g":{"s":3}}"#).is_err());
    assert!(parse_catalog(r#"{"g":{}} trailing"#).is_err());
}

#[test]
fn empty_catalog_and_empty_group_parse() {
    let c = parse_catalog("{}").unwrap();
    assert_eq!(c.groups.len(), 0);
    let c2 = parse_catalog(r#" { "g" : { } } "#).unwrap();
    assert_eq!(c2.groups.len(), 1);
    assert_eq!(c2.groups[0].1.steps.len(), 0);
}

#[test]
fn string_escapes_are_understood() {
    let text = r#"{"g":{"s":{"command":"a\"b\\c\nd\te\u0041","args":["\u00e9"]}}}"#;
    let c = parse_catalog(text).unwrap();
    let st = &c.groups[0].1.steps[0].1;
    assert_eq!(st.command, "a\"b\\c\nd\teA");
    assert_eq!(st.args, vec!["\u{e9}".to_string()]);
}

#[test]
fn lone_surrogate_escape_is_refused() {
    let text = r#"{"g":{"s":{"command":"\ud800","args":[]}}}"#;
    assert_eq!(parse_catalog(text).unwrap_err(), ParseError::InvalidFormat);
}

#[test]
fn raw_control_character_in_string_is_refused() {
    let text = "{\"g\":{\"s\":{\"command\":\"a\nb\",\"args\":[]}}}";
    assert_eq!(parse_catalog(text).unwrap_err(), ParseError::InvalidFormat);
}

#[test]
fn serializer_writes_the_canonical_form() {
    let mut g = Group::new();
    assert!(g.insert("01".to_string(), step("cd", &["build"])));
    let mut c = Catalog::new();
    assert!(c.insert("build".to_string(), g));
    assert_eq!(to_json(&c), r#"{"build":{"01":{"command":"cd","args":["build"]}}}"#);
}

#[test]
fn serializer_escapes_strings() {
    let mut g = Group::new();
    assert!(g.insert("s".to_string(), step("say \"hi\"\\", &["tab\there", "ctl\u{1}"])));
    let mut c = Catalog::new();
    assert!(c.insert("g".to_string(), g));
    assert_eq!(
        to_json(&c),
        r#"{"g":{"s":{"command":"say \"hi\"\\","args":["tab\there","ctl\u0001"]}}}"#
    );
}

#[test]
fn round_trip_preserves_the_mapping() {
    let mut g1 = Group::new();
    assert!(g1.insert("b".to_string(), step("echo", &["hi", "there"])));
    assert!(g1.insert("a".to_string(), step("cd", &["src"])));
    let mut g2 = Group::new();
    assert!(g2.insert("only".to_string(), step("make", &[])));
    let mut c = Catalog::new();
    assert!(c.insert("second".to_string(), g2));
    assert!(c.insert("first".to_string(), g1));
    let text = to_json(&c);
    let d = parse_catalog(&text).unwrap();
    assert!(catalogs_equal(&c, &d));
}

#[test]
fn round_trip_with_awkward_strings() {
    let mut g = Group::new();
    assert!(g.insert("we ird\u{7}".to_string(), step("\"quoted\"", &["\\", "", "\r\n\t"])));
    assert!(g.insert("plain".to_string(), step("ls", &["-l"])));
    let mut c = Catalog::new();
    assert!(c.insert("g".to_string(), g));
    let text = to_json(&c);
    let d = parse_catalog(&text).unwrap();
    assert!(catalogs_equal(&c, &d));
}

#[test]
fn round_trip_of_the_empty_catalog() {
    let c = Catalog::new();
    let text = to_json(&c);
    assert_eq!(text, "{}");
    let d = parse_catalog(&text).unwrap();
    assert!(catalogs_equal(&c, &d));
}
