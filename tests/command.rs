use tracing_console::command::Command;
use tracing_console::filter::{GroupBy, Modifier, SpanCriterion, SpanSelector};

#[test]
fn parse_single_string() {
    assert_eq!(
        Command::parse_string(r#""example""#),
        Some("example".to_string())
    );
}

#[test]
fn parse_multi_string() {
    assert_eq!(
        Command::parse_string(r#""foo bar baz""#),
        Some("foo bar baz".to_string())
    );
}

#[test]
fn parse_command_field() {
    assert_eq!(
        r#"event.field.message == "example""#.parse(),
        Ok(Command::Modifier(Modifier::equals(
            "message".to_string(),
            "example".to_string()
        )))
    )
}

#[test]
fn parse_command_group_by() {
    assert_eq!(
        r#"event.group_by.field.foo"#.parse(),
        Ok(Command::GroupBy(GroupBy::Field("foo".to_string())))
    );

    assert_eq!(
        r#"event.group_by.span.field.foo"#.parse(),
        Ok(Command::GroupBy(GroupBy::Span(
            SpanSelector::SpanCriterion(SpanCriterion::Field("foo".to_string()))
        )))
    );

    assert_eq!(
        r#"event.group_by.span.parent_by_name("bar").field.foo"#.parse(),
        Ok(Command::GroupBy(GroupBy::Span(
            SpanSelector::ParentByName {
                name: "bar".to_string(),
                criterion: SpanCriterion::Field("foo".to_string())
            }
        )))
    );
}

#[test]
fn fail_command_group_by() {
    assert_ne!(
        r#"event.group_by.field.foos"#.parse(),
        Ok(Command::GroupBy(GroupBy::Field("foo".to_string())))
    );

    assert_ne!(
        r#"event.group_by.span.field.foos"#.parse(),
        Ok(Command::GroupBy(GroupBy::Span(
            SpanSelector::SpanCriterion(SpanCriterion::Field("foo".to_string()))
        )))
    );

    assert_ne!(
        r#"event.group_by.span.parent_by_name("bars").field.foos"#.parse(),
        Ok(Command::GroupBy(GroupBy::Span(
            SpanSelector::ParentByName {
                name: "bar".to_string(),
                criterion: SpanCriterion::Field("foo".to_string())
            }
        )))
    );
}

#[test]
fn parse_filter_equality() {
    assert_eq!(
        Command::from_str(r#"event.field.message == "hello""#),
        Some(Command::Modifier(Modifier::FieldEquals {
            name: "message".to_string(),
            value: "hello".to_string()
        }))
    );
}

#[test]
fn parse_each_operator() {
    assert_eq!(
        Command::from_str(r#"event.field.a contains "x y""#),
        Some(Command::Modifier(Modifier::contains("a".to_string(), "x y".to_string())))
    );
    assert_eq!(
        Command::from_str(r#"event.field.a   starts_with    "b"  "#),
        Some(Command::Modifier(Modifier::starts_with("a".to_string(), "b".to_string())))
    );
    assert_eq!(
        Command::from_str(r#"event.field.a matches "b[0-9]""#),
        Some(Command::Modifier(Modifier::matches("a".to_string(), "b[0-9]".to_string())))
    );
}

#[test]
fn parse_span_id_and_parent_id() {
    assert_eq!(
        Command::from_str("event.group_by.span.id"),
        Some(Command::GroupBy(GroupBy::Span(SpanSelector::SpanCriterion(SpanCriterion::Id))))
    );
    assert_eq!(
        Command::from_str(r#"event.group_by.span.parent_by_name("request").id"#),
        Some(Command::GroupBy(GroupBy::Span(SpanSelector::ParentByName {
            name: "request".to_string(),
            criterion: SpanCriterion::Id
        })))
    );
}

#[test]
fn reject_malformed_commands() {
    assert_eq!(Command::from_str(""), None);
    assert_eq!(Command::from_str("span.field.a == \"x\""), None);
    assert_eq!(Command::from_str("event.field.a == x"), None);
    assert_eq!(Command::from_str("event.field.a equals \"x\""), None);
    assert_eq!(Command::from_str("event.field.a"), None);
    assert_eq!(Command::from_str("event.group_by.span.name"), None);
    assert_eq!(Command::from_str("event.group_by.thread.foo"), None);
    assert_eq!(Command::from_str("event.group_by.span.parent_by_name(bar).id"), None);
    assert_eq!(Command::parse_string("\""), None);
    assert_eq!(Command::parse_string("\"\""), Some(String::new()));
}

#[test]
fn grammar_round_trip() {
    let lines = [
        r#"event.field.message == "hello world""#,
        r#"event.field.a contains "x""#,
        r#"event.field.a starts_with "" "#,
        r#"event.field.level matches "^(warn|error)$""#,
        "event.group_by.field.user",
        "event.group_by.span.field.user",
        "event.group_by.span.id",
        r#"event.group_by.span.parent_by_name("request").field.id"#,
        r#"event.group_by.span.parent_by_name("request").id"#,
    ];
    for line in lines.iter() {
        let cmd = Command::from_str(line).expect("parses");
        let text = cmd.to_text();
        assert_eq!(Command::from_str(&text), Some(cmd));
    }
    assert_eq!(
        Command::from_str(r#"event.field.a   ==   "q""#).unwrap().to_text(),
        r#"event.field.a == "q""#
    );
    assert_eq!(
        Command::from_str(r#"event.group_by.span.parent_by_name("r").id"#).unwrap().to_text(),
        r#"event.group_by.span.parent_by_name("r").id"#
    );
}
