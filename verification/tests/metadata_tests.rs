use blog::metadata::{Metadata, MetadataParseError};
use chrono::NaiveDate;

fn date_of(meta: &Metadata) -> NaiveDate {
    NaiveDate::from_ymd_opt(meta.date.year, meta.date.month, meta.date.day).unwrap()
}

#[test]
fn parse_full_metadata() {
    let raw = r#"
title: "Rust Blog"
date: 2025-11-03
slug: "rust-blog"
tags: ["rust", "axum", "markdown"]
description: "A test blog metadata."
"#;

    let meta = Metadata::new(raw).unwrap();
    assert_eq!(meta.title, "Rust Blog");
    assert_eq!(date_of(&meta), NaiveDate::from_ymd_opt(2025, 11, 3).unwrap());
    assert_eq!(meta.slug, "rust-blog");
    assert_eq!(meta.tags, vec!["rust", "axum", "markdown"]);
    assert_eq!(meta.description, "A test blog metadata.");
}

#[test]
fn metadata_parse_missing_single_key() {
    let raw = r#"
title: "Rust Blog"
slug: "rust-blog"
tags: ["rust", "axum"]
description: "Missing date field."
"#;

    let err = Metadata::new(raw).unwrap_err();
    match err {
        MetadataParseError::MissingKey(key) => assert_eq!(key, "date"),
        _ => panic!("Expected MissingKey error"),
    }
}

#[test]
fn metadata_parse_missing_multiple_keys() {
    let raw = r#"
title: "Rust Blog"
tags: ["rust"]
"#;

    let err = Metadata::new(raw).unwrap_err();
    match err {
        MetadataParseError::MissingKeys(keys) => {
            assert!(keys.contains(&"date"));
            assert!(keys.contains(&"slug"));
            assert!(keys.contains(&"description"));
        }
        _ => panic!("Expected MissingKeys error"),
    }
}

#[test]
fn metadata_parse_invalid_date() {
    let raw = r#"
title: "Rust Blog"
date: 11-03-2025
slug: "rust-blog"
tags: ["rust"]
description: "Invalid date format."
"#;

    let err = Metadata::new(raw).unwrap_err();
    match err {
        MetadataParseError::InvalidDateTime => (),
        _ => panic!("Expected InvalidDateTime error"),
    }
}

#[test]
fn metadata_parse_duplicate_key() {
    let raw = r#"
title: "Rust Blog"
title: "Duplicate"
date: 2025-11-03
slug: "rust-blog"
tags: ["rust"]
description: "Duplicate title."
"#;

    let err = Metadata::new(raw).unwrap_err();
    match err {
        MetadataParseError::DuplicateKey(key) => assert_eq!(key, "title"),
        _ => panic!("Expected DuplicateKey error"),
    }
}

#[test]
fn metadata_parse_with_comments_and_empty_lines() {
    let raw = r#"
# This is a comment
title: "Rust Blog"

date: 2025-11-03

# Another comment
slug: "rust-blog"
tags: ["rust", "axum"]

description: "Handles comments and empty lines."
"#;

    let meta = Metadata::new(raw).unwrap();
    assert_eq!(meta.title, "Rust Blog");
    assert_eq!(date_of(&meta), NaiveDate::from_ymd_opt(2025, 11, 3).unwrap());
    assert_eq!(meta.slug, "rust-blog");
    assert_eq!(meta.tags, vec!["rust", "axum"]);
    assert_eq!(meta.description, "Handles comments and empty lines.");
}
