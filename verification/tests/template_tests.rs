use builder::template::{Error, Placeholder, Replacement, TemplateMapping};

#[test]
fn test_md_to_html() {
    let md = "# Test post\n\nThis is a **test post** in which I test the capabilities of the [markdown conversion lib](https://crates.io/crates/markdown/1.0.0-alpha.16).";

    let expected_html = "<h1>Test post</h1>\n<p>This is a <strong>test post</strong> in which I test the capabilities of the <a href=\"https://crates.io/crates/markdown/1.0.0-alpha.16\">markdown conversion lib</a>.</p>";

    let received_html = builder::markdown::to_html(md);

    assert!(received_html.is_ok());
    assert_eq!(received_html.unwrap(), expected_html);
}

#[test]
fn test_templ_placeholder_to_string() {
    let placeholder = Placeholder::new("key");
    assert_eq!(placeholder.to_display_token(), "{{ key }}");
}

#[test]
fn test_templ_placeholder_is_contained_in() {
    let placeholder = Placeholder::new("key");
    let templ = "Persistance is the {{ key }} to success";

    assert!(placeholder.is_contained_in(templ));
}

#[test]
fn test_templ_replacement_embedding() {
    let placeholder = Placeholder::new("key");
    let replacement = Replacement(String::from("secret ingredient"));
    let templ = "Persistance is the {{ key }} to success";

    assert_eq!(
        replacement.embed(templ, &placeholder.to_display_token()),
        "Persistance is the secret ingredient to success"
    );
}

/// Helper function to extract data/actions common across template population tests.
fn test_templ_populate(mapping: TemplateMapping) -> Result<String, Error> {
    let templ = String::from("Hello {{ receiver }}, {{ adjective }} to meet you!");

    mapping.populate(templ)
}

/// Correct template mapping for example in helper function
fn default_template_mapping() -> TemplateMapping {
    TemplateMapping(vec![
        (
            Placeholder::new("receiver"),
            Replacement(String::from("Matija")),
        ),
        (
            Placeholder::new("adjective"),
            Replacement(String::from("pleased")),
        ),
    ])
}

#[test]
fn test_templ_populate_correct() {
    let populated_template = test_templ_populate(default_template_mapping());

    assert!(populated_template.is_ok());
    assert_eq!(
        populated_template.unwrap(),
        "Hello Matija, pleased to meet you!"
    );
}

#[test]
fn test_templ_populate_no_placeholder() {
    // add extra placeholder to default (correct) ones
    let missing_placeholder = Placeholder::new("missing");
    let mut mapping = default_template_mapping();
    mapping.0.push((
        missing_placeholder.clone(),
        Replacement(String::from("value")),
    ));

    let populated_template = test_templ_populate(mapping);

    assert!(populated_template.is_err());
    assert_eq!(
        populated_template.unwrap_err(),
        Error::PlaceholderNotFound(missing_placeholder)
    );
}

#[test]
fn test_templ_populate_leftover_placeholder() {
    // remove placeholder from default (correct) ones
    let mut mapping = default_template_mapping();
    mapping.0.pop();

    let populated_template = test_templ_populate(mapping);

    assert!(populated_template.is_err());
    assert_eq!(
        populated_template.unwrap_err(),
        Error::LeftoverPlaceholders(vec![String::from("{{ adjective }}")])
    );
}

#[test]
fn test_populate_single_mapping_replaces_all_occurrences() {
    let mapping = TemplateMapping(vec![(
        Placeholder::new("x"),
        Replacement(String::from("v")),
    )]);
    let populated = mapping.populate(String::from("a {{ x }} b {{ x }} c"));

    assert_eq!(populated.unwrap(), "a v b v c");
}

#[test]
fn test_populate_round_trip_token_gone() {
    let mapping = TemplateMapping(vec![(
        Placeholder::new("k"),
        Replacement(String::from("value")),
    )]);
    let populated = mapping.populate(String::from("q {{ k }} w {{ k }} e")).unwrap();

    assert!(!populated.contains("{{ k }}"));
    assert_eq!(populated, "q value w value e");
}

#[test]
fn test_embed_round_trip_token_not_found_again() {
    let replacement = Replacement(String::from("plain text"));
    let token = Placeholder::new("slot").to_display_token();
    let embedded = replacement.embed("a {{ slot }} b {{ slot }}", &token);

    assert!(!embedded.contains(&token));
    assert_eq!(embedded, "a plain text b plain text");
}

#[test]
fn test_populate_reports_first_failing_mapping() {
    // the first pair already fails; the second would too, but only the
    // first is reported
    let absent = Placeholder::new("absent");
    let mapping = TemplateMapping(vec![
        (absent.clone(), Replacement(String::from("1"))),
        (Placeholder::new("also_absent"), Replacement(String::from("2"))),
    ]);
    let populated = mapping.populate(String::from("no placeholders here"));

    assert_eq!(populated.unwrap_err(), Error::PlaceholderNotFound(absent));
}

#[test]
fn test_populate_mapping_without_change() {
    // replacing a token with its own text leaves the template unchanged
    let pair = (
        Placeholder::new("k"),
        Replacement(String::from("{{ k }}")),
    );
    let mapping = TemplateMapping(vec![pair.clone()]);
    let populated = mapping.populate(String::from("x {{ k }} y"));

    assert_eq!(populated.unwrap_err(), Error::MappingWithoutChange(pair));
}

#[test]
fn test_populate_lists_every_leftover() {
    let mapping = TemplateMapping(vec![(
        Placeholder::new("a"),
        Replacement(String::from("1")),
    )]);
    let populated = mapping.populate(String::from("{{ a }} {{ b }} mid {{ long_name }}"));

    assert_eq!(
        populated.unwrap_err(),
        Error::LeftoverPlaceholders(vec![
            String::from("{{ b }}"),
            String::from("{{ long_name }}"),
        ])
    );
}

#[test]
fn test_populate_empty_mapping() {
    let unchanged = TemplateMapping(vec![]).populate(String::from("plain text"));
    assert_eq!(unchanged.unwrap(), "plain text");

    let leftover = TemplateMapping(vec![]).populate(String::from("has a {{ slot }}"));
    assert_eq!(
        leftover.unwrap_err(),
        Error::LeftoverPlaceholders(vec![String::from("{{ slot }}")])
    );
}

#[test]
fn test_leftover_tolerates_internal_whitespace() {
    let mapping = TemplateMapping(vec![(
        Placeholder::new("a"),
        Replacement(String::from("1")),
    )]);
    let populated = mapping.populate(String::from("{{ a }} and {{   spaced_out   }}"));

    assert_eq!(
        populated.unwrap_err(),
        Error::LeftoverPlaceholders(vec![String::from("{{   spaced_out   }}")])
    );
}

#[test]
fn test_leftover_token_shape() {
    // a name with a space inside is not placeholder-shaped
    let not_a_token = TemplateMapping(vec![]).populate(String::from("{{ bad name }}"));
    assert_eq!(not_a_token.unwrap(), "{{ bad name }}");

    // padding spaces around the name are optional
    let tight_token = TemplateMapping(vec![]).populate(String::from("{{name}}"));
    assert_eq!(
        tight_token.unwrap_err(),
        Error::LeftoverPlaceholders(vec![String::from("{{name}}")])
    );
}

#[test]
fn test_embed_empty_pattern_matches_every_boundary() {
    let replacement = Replacement(String::from("X"));

    assert_eq!(replacement.embed("a", ""), "a".replace("", "X"));
    assert_eq!(replacement.embed("a", ""), "XaX");
    assert_eq!(replacement.embed("", ""), "X");
    assert_eq!(replacement.embed("ab", ""), "XaXbX");
}

#[test]
fn test_leftover_unicode_identifier() {
    // the identifier class is the regex engine's Unicode one
    let with_token = TemplateMapping(vec![]).populate(String::from("x {{ caf\u{e9} }} y"));
    assert_eq!(
        with_token.unwrap_err(),
        Error::LeftoverPlaceholders(vec![String::from("{{ caf\u{e9} }}")])
    );

    // punctuation is no identifier, so this is not a token
    let without = TemplateMapping(vec![]).populate(String::from("x {{ ! }} y"));
    assert_eq!(without.unwrap(), "x {{ ! }} y");
}

#[test]
fn test_from_pairs_keeps_order() {
    let mapping = TemplateMapping::from_pairs(vec![
        ("receiver", String::from("Matija")),
        ("adjective", String::from("pleased")),
    ]);
    let populated = test_templ_populate(mapping);

    assert_eq!(populated.unwrap(), "Hello Matija, pleased to meet you!");
}
