use builder::date::Date;
use builder::post_metadata::{MetadataError, PostMetadata};

fn some_date() -> Date {
    Date::new(2024, 6, 1).unwrap()
}

#[test]
fn test_post_metadata_formatted_date() {
    let metadata = PostMetadata {
        date_created: Date::new(2024, 2, 13).unwrap(),
        // irrelevant to the test, so leave empty
        file_name: String::new(),
        path: String::new(),
        title: String::new(),
    };

    assert_eq!(metadata.formatted_date(), "13/02/2024");
}

#[test]
fn test_collect_from_values() {
    let metadata = PostMetadata::collect(
        "./my-post.md",
        "# My Title\n\nParagraph inside the post.\n",
        some_date(),
    )
    .unwrap();

    assert_eq!(metadata.path, "./my-post.md");
    assert_eq!(metadata.file_name, "my-post");
    assert_eq!(metadata.title, "My Title");
    assert_eq!(metadata.date_created, some_date());
}

#[test]
fn test_collect_empty_file_has_no_title() {
    let collected = PostMetadata::collect("./a.md", "", some_date());

    assert_eq!(collected.unwrap_err(), MetadataError::MissingTitle);
}

#[test]
fn test_collect_no_file_stem() {
    assert_eq!(
        PostMetadata::collect("", "# T\n\nx", some_date()).unwrap_err(),
        MetadataError::MissingFileStem
    );
    assert_eq!(
        PostMetadata::collect("..", "# T\n\nx", some_date()).unwrap_err(),
        MetadataError::MissingFileStem
    );
    assert_eq!(
        PostMetadata::collect("/", "# T\n\nx", some_date()).unwrap_err(),
        MetadataError::MissingFileStem
    );
}

#[test]
fn test_file_stem_variants() {
    let title = "# T\n\nx";
    let stem = |path: &str| PostMetadata::collect(path, title, some_date()).unwrap().file_name;

    assert_eq!(stem("dir/name.tar.gz"), "name.tar");
    assert_eq!(stem(".hidden"), ".hidden");
    assert_eq!(stem("trailing-dot."), "trailing-dot");
    assert_eq!(stem("no_extension"), "no_extension");
    // trailing separators are ignored, as Path::file_stem ignores them
    assert_eq!(stem("posts/b/"), "b");
    assert_eq!(stem("posts//"), "posts");
}

#[test]
fn test_title_strips_heading_and_whitespace() {
    let title =
        |content: &str| PostMetadata::collect("./a.md", content, some_date()).unwrap().title;

    assert_eq!(title("# Simple\nbody"), "Simple");
    assert_eq!(title("# # Doubled\nbody"), "Doubled");
    assert_eq!(title("#NoSpaceIsKept\nbody"), "#NoSpaceIsKept");
    assert_eq!(title("# Padded   \r\nbody"), "Padded");
    assert_eq!(title("no heading at all"), "no heading at all");
    // trimming covers the whole White_Space set, as str::trim does
    assert_eq!(title("# Vertical\u{000B}\nbody"), "Vertical");
    assert_eq!(title("# \u{00A0}NoBreak\u{2003}\nbody"), "NoBreak");
    assert_eq!(
        title("# Vertical\u{000B}\nbody"),
        "# Vertical\u{000B}".trim_start_matches("# ").trim()
    );
}

#[test]
fn test_date_validity() {
    assert!(Date::new(2023, 2, 29).is_none());
    assert!(Date::new(2024, 2, 29).is_some());
    assert!(Date::new(1900, 2, 29).is_none());
    assert!(Date::new(2000, 2, 29).is_some());
    assert!(Date::new(2024, 4, 31).is_none());
    assert!(Date::new(2024, 0, 1).is_none());
    assert!(Date::new(2024, 1, 0).is_none());
    assert!(Date::new(10000, 1, 1).is_none());
}

#[test]
fn test_date_formatting_pads_with_zeros() {
    assert_eq!(
        PostMetadata {
            date_created: Date::new(5, 1, 7).unwrap(),
            file_name: String::new(),
            path: String::new(),
            title: String::new(),
        }
        .formatted_date(),
        "07/01/0005"
    );
}
