use notes::note::{Comment, Inline, TagExtractor};
use notes::parser::{Attribute, InlineParser, ParseInlineError, TagParser};

fn parse(tag: &str) -> Result<Inline, ParseInlineError> {
    InlineParser::new().parse(tag)
}

fn comment(tag: &str) -> Comment {
    match parse(tag) {
        Ok(Inline::Comment(c)) => *c,
        other => panic!("expected a comment, got {:?}", other),
    }
}

#[test]
fn extraction_keeps_adjacent_tags_apart() {
    let tags = TagExtractor::new().tags("<note a=\"x\"><note b=\"y\">");
    assert_eq!(tags, vec!["<note a=\"x\">".to_string(), "<note b=\"y\">".to_string()]);
}

#[test]
fn extraction_finds_tags_in_running_text() {
    let text = "intro <note term=a definition=b> middle <note> end <note comment=c tags=t>";
    let tags = TagExtractor::new().tags(text);
    assert_eq!(
        tags,
        vec!["<note term=a definition=b>".to_string(), "<note comment=c tags=t>".to_string()]
    );
}

#[test]
fn extraction_stops_at_first_closing_bracket() {
    let tags = TagExtractor::new().tags("<note comment=\"a > b\" tags=x>");
    assert_eq!(tags, vec!["<note comment=\"a >".to_string()]);
}

#[test]
fn extraction_of_text_without_tags_is_empty() {
    assert!(TagExtractor::new().tags("").is_empty());
    assert!(TagExtractor::new().tags("<note> and <note").is_empty());
    assert_eq!(TagExtractor::new().tags("<notes>"), vec!["<notes>".to_string()]);
}

#[test]
fn comment_takes_precedence_over_term() {
    let c = comment("<note comment=\"c\" term=\"t\" definition=\"d\" tags=\"x\">");
    assert_eq!(c.comment, "c");
    assert_eq!(c.tags, vec!["x".to_string()]);
}

#[test]
fn duplicate_attribute_last_wins() {
    let c = comment("<note comment=\"first\" comment=\"second\" tags=\"t\">");
    assert_eq!(c.comment, "second");
    assert_eq!(c.tags, vec!["t".to_string()]);
}

#[test]
fn comment_with_heading_and_two_tags() {
    let c = comment("<note comment=\"Remember this\" tags=\"todo,important\" heading=\"Reminder\">");
    assert_eq!(c.heading, Some("Reminder".to_string()));
    assert_eq!(c.comment, "Remember this");
    assert_eq!(c.tags, vec!["todo".to_string(), "important".to_string()]);
}

#[test]
fn missing_tags_is_an_error() {
    match parse("<note comment=\"hi\">") {
        Err(ParseInlineError::MissingAttribute(Attribute::Tags)) => {}
        other => panic!("unexpected {:?}", other),
    }
}

#[test]
fn missing_definition_is_an_error() {
    match parse("<note term=\"x\">") {
        Err(ParseInlineError::MissingAttribute(Attribute::Definition)) => {}
        other => panic!("unexpected {:?}", other),
    }
}

#[test]
fn unknown_type_carries_interior() {
    match parse("<note heading=\"h\">") {
        Err(ParseInlineError::UnknownType(t)) => assert_eq!(t, "heading=\"h\""),
        other => panic!("unexpected {:?}", other),
    }
}

#[test]
fn invalid_attribute_names_the_key() {
    match parse("<note comment=\"c\" color=\"red\" tags=\"t\">") {
        Err(ParseInlineError::InvalidAttribute(k)) => assert_eq!(k, "color"),
        other => panic!("unexpected {:?}", other),
    }
}

#[test]
fn definition_is_unquoted() {
    match parse("<note term=\"api\" definition=\"application interface\">") {
        Ok(Inline::Definition(d)) => {
            assert_eq!(d.term, "api");
            assert_eq!(d.definition, "application interface");
        }
        other => panic!("unexpected {:?}", other),
    }
}

#[test]
fn keys_are_case_insensitive_and_tag_is_tags() {
    let c = comment("<note COMMENT=hello Tag=a>");
    assert_eq!(c.comment, "hello");
    assert_eq!(c.tags, vec!["a".to_string()]);
}

#[test]
fn tag_values_are_trimmed() {
    let c = comment("<note comment=x tags=\" a , b ,c\">");
    assert_eq!(c.tags, vec!["a".to_string(), "b".to_string(), "c".to_string()]);
    assert_eq!(c.heading, None);
}

#[test]
fn attribute_dictionary_values_are_trimmed() {
    let d = TagParser::new().build_attribute_dict("  term=  x y   definition= z ").unwrap();
    assert_eq!(d.term, Some("x y".to_string()));
    assert_eq!(d.definition, Some("z".to_string()));
    assert_eq!(d.comment, None);
}

#[test]
fn attribute_from_key() {
    assert!(matches!(Attribute::from_key("Heading"), Ok(Attribute::Heading)));
    assert!(matches!(Attribute::from_key("tags"), Ok(Attribute::Tags)));
    assert!(matches!(Attribute::from_key("terms"), Err(ParseInlineError::InvalidAttribute(_))));
}
