use builder::date::Date;
use builder::pipeline::{
    build_post_list_template, build_web, collect_posts_metadata, construct_post_data,
    BuildError, PostInput,
};
use builder::post_metadata::PostMetadata;
use builder::template::Error;
use builder::{page_path, page_route, TemplateType};

const SUMMARY_TEMPL: &str = "<li>{{ page_path }}|{{ title }}|{{ date }}</li>";
const LIST_TEMPL: &str = "<ul>{{ items }}</ul>";
const POST_TEMPL: &str = "<h1>{{ title }}</h1><em>{{ date }}</em>{{ content }}";

fn input(path: &str, content: &str, date: Date) -> PostInput {
    PostInput {
        path: String::from(path),
        content: String::from(content),
        date_created: date,
    }
}

#[test]
fn test_page_route_and_path() {
    assert_eq!(page_route("my-post"), "./pages/my-post.html");
    assert_eq!(page_path("my-post"), "../pages/my-post.html");
}

#[test]
fn test_template_type_paths() {
    assert_eq!(
        TemplateType::PostSummary.to_path(),
        "../templates/post_summary.templ"
    );
    assert_eq!(
        TemplateType::PostList.to_path(),
        "../templates/post_list.templ"
    );
    assert_eq!(TemplateType::Post.to_path(), "../templates/post.templ");
}

#[test]
fn test_collect_sorts_by_file_stem_descending() {
    let inputs = vec![
        input("posts/a.md", "# A\n\nalpha", Date::new(2024, 1, 15).unwrap()),
        input("posts/c.md", "# C\n\ngamma", Date::new(2023, 5, 5).unwrap()),
        input("posts/b.md", "# B\n\nbeta", Date::new(2024, 3, 2).unwrap()),
    ];

    let entries = collect_posts_metadata(inputs).unwrap();
    let stems: Vec<&str> = entries.iter().map(|e| e.0.file_name.as_str()).collect();

    assert_eq!(stems, vec!["c", "b", "a"]);
}

#[test]
fn test_collect_keeps_equal_stems_together() {
    let inputs = vec![
        input("x/n.md", "# First\n\none", Date::new(2024, 1, 1).unwrap()),
        input("z/a.md", "# Third\n\nthree", Date::new(2024, 1, 3).unwrap()),
        input("y/n.md", "# Second\n\ntwo", Date::new(2024, 1, 2).unwrap()),
    ];

    let entries = collect_posts_metadata(inputs).unwrap();
    let stems: Vec<&str> = entries.iter().map(|e| e.0.file_name.as_str()).collect();

    assert_eq!(stems, vec!["n", "n", "a"]);
}

#[test]
fn test_construct_post_data_renders_body() {
    let metadata = PostMetadata::collect(
        "posts/a.md",
        "# Post A\n\nAlpha body.",
        Date::new(2024, 1, 15).unwrap(),
    )
    .unwrap();
    let post = construct_post_data(metadata, "# Post A\n\nAlpha body.").unwrap();

    assert_eq!(post.metadata.title, "Post A");
    assert_eq!(post.content, "<p>Alpha body.</p>");
}

#[test]
fn test_construct_post_data_missing_body() {
    let metadata = PostMetadata::collect(
        "posts/a.md",
        "# Only a title\n\nx",
        Date::new(2024, 1, 15).unwrap(),
    )
    .unwrap();
    let built = construct_post_data(metadata, "# Only a title, no line break at all");

    assert_eq!(built.unwrap_err(), BuildError::MissingPostBody);
}

#[test]
fn test_build_post_list_orders_summaries() {
    let inputs = vec![
        input("posts/a.md", "# Post A\n\nAlpha.", Date::new(2024, 1, 15).unwrap()),
        input("posts/b.md", "# Post B\n\nBeta.", Date::new(2024, 3, 2).unwrap()),
    ];
    let entries = collect_posts_metadata(inputs).unwrap();
    let list = build_post_list_template(&entries, SUMMARY_TEMPL, LIST_TEMPL).unwrap();

    assert_eq!(
        list,
        "<ul><li>./pages/b.html|Post B|02/03/2024</li>\n<li>./pages/a.html|Post A|15/01/2024</li></ul>"
    );
}

#[test]
fn test_build_web_end_to_end() {
    let inputs = vec![
        input("posts/a.md", "# Post A\n\nAlpha.", Date::new(2024, 1, 15).unwrap()),
        input("posts/b.md", "# Post B\n\nBeta.", Date::new(2024, 3, 2).unwrap()),
    ];

    let site = build_web(inputs, SUMMARY_TEMPL, LIST_TEMPL, POST_TEMPL).unwrap();

    assert_eq!(
        site.post_list,
        "<ul><li>./pages/b.html|Post B|02/03/2024</li>\n<li>./pages/a.html|Post A|15/01/2024</li></ul>"
    );
    assert_eq!(site.pages.len(), 2);
    assert_eq!(site.pages[0].path, "../pages/b.html");
    assert_eq!(
        site.pages[0].html,
        "<h1>Post B</h1><em>02/03/2024</em><p>Beta.</p>"
    );
    assert_eq!(site.pages[1].path, "../pages/a.html");
    assert_eq!(
        site.pages[1].html,
        "<h1>Post A</h1><em>15/01/2024</em><p>Alpha.</p>"
    );
}

#[test]
fn test_build_web_missing_summary_placeholder() {
    let inputs = vec![input(
        "posts/a.md",
        "# Post A\n\nAlpha.",
        Date::new(2024, 1, 15).unwrap(),
    )];

    // the summary template lacks the date slot, so its mapping fails
    let built = build_web(
        inputs,
        "<li>{{ page_path }}|{{ title }}</li>",
        LIST_TEMPL,
        POST_TEMPL,
    );

    match built.unwrap_err() {
        BuildError::Template(Error::PlaceholderNotFound(p)) => {
            assert_eq!(p.0, "date");
        },
        other => panic!("unexpected error: {:?}", other),
    }
}

#[test]
fn test_build_web_metadata_failure() {
    let inputs = vec![
        input("posts/a.md", "# Post A\n\nAlpha.", Date::new(2024, 1, 15).unwrap()),
        input("posts/empty.md", "", Date::new(2024, 1, 16).unwrap()),
    ];

    let built = build_web(inputs, SUMMARY_TEMPL, LIST_TEMPL, POST_TEMPL);

    assert_eq!(
        built.unwrap_err(),
        BuildError::Metadata(builder::post_metadata::MetadataError::MissingTitle)
    );
}

#[test]
fn test_build_web_leftover_in_post_template() {
    let inputs = vec![input(
        "posts/a.md",
        "# Post A\n\nAlpha.",
        Date::new(2024, 1, 15).unwrap(),
    )];

    // the post template holds a slot no mapping fills
    let built = build_web(
        inputs,
        SUMMARY_TEMPL,
        LIST_TEMPL,
        "<h1>{{ title }}</h1>{{ date }}{{ content }}{{ author }}",
    );

    match built.unwrap_err() {
        BuildError::Template(Error::LeftoverPlaceholders(tokens)) => {
            assert_eq!(tokens, vec![String::from("{{ author }}")]);
        },
        other => panic!("unexpected error: {:?}", other),
    }
}
