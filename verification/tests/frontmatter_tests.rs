use blog::frontmatter::{FrontMatter, FrontMatterParseError};
use chrono::NaiveDate;

fn date_of(meta: &FrontMatter) -> NaiveDate {
    NaiveDate::from_ymd_opt(meta.date.year, meta.date.month, meta.date.day).unwrap()
}

#[test]
fn parse_full_frontmatter() {
    let raw = r#"
title: "Rust Blog"
date: 2025-11-03
slug: "rust-blog"
tags: ["rust", "axum", "markdown"]
description: "A test blog FrontMatter."
"#;

    let meta = FrontMatter::new(raw).unwrap();
    assert_eq!(meta.title, "Rust Blog");
    assert_eq!(date_of(&meta), NaiveDate::from_ymd_opt(2025, 11, 3).unwrap());
    assert_eq!(meta.slug, "rust-blog");
    assert_eq!(meta.tags, vec!["rust", "axum", "markdown"]);
    assert_eq!(meta.description, "A test blog FrontMatter.");
}

#[test]
fn frontmatter_parse_missing_single_key() {
    let raw = r#"
title: "Rust Blog"
slug: "rust-blog"
tags: ["rust", "axum"]
description: "Missing date field."
"#;

    let err = FrontMatter::new(raw).unwrap_err();
    match err {
        FrontMatterParseError::MissingKey(key) => assert_eq!(key, "date"),
        _ => panic!("Expected MissingKey error"),
    }
}

#[test]
fn frontmatter_parse_missing_multiple_keys() {
    let raw = r#"
title: "Rust Blog"
tags: ["rust"]
"#;

    let err = FrontMatter::new(raw).unwrap_err();
    match err {
        FrontMatterParseError::MissingKeys(keys) => {
            assert!(keys.contains(&"date"));
            assert!(keys.contains(&"slug"));
            assert!(keys.contains(&"description"));
        }
        _ => panic!("Expected MissingKeys error"),
    }
}

#[test]
fn frontmatter_parse_invalid_date() {
    let raw = r#"
title: "Rust Blog"
date: 11-03-2025
slug: "rust-blog"
tags: ["rust"]
description: "Invalid date format."
"#;

    let err = FrontMatter::new(raw).unwrap_err();
    match err {
        FrontMatterParseError::InvalidDateTime => (),
        _ => panic!("Expected InvalidDateTime error"),
    }
}

#[test]
fn frontmatter_parse_duplicate_key() {
    let raw = r#"
title: "Rust Blog"
title: "Duplicate"
date: 2025-11-03
slug: "rust-blog"
tags: ["rust"]
description: "Duplicate title."
"#;

    let err = FrontMatter::new(raw).unwrap_err();
    match err {
        FrontMatterParseError::DuplicateKey(key) => assert_eq!(key, "title"),
        _ => panic!("Expected DuplicateKey error"),
    }
}

#[test]
fn frontmatter_parse_with_comments_and_empty_lines() {
    let raw = r#"
# This is a comment
title: "Rust Blog"

date: 2025-11-03

# Another comment
slug: "rust-blog"
tags: ["rust", "axum"]

description: "Handles comments and empty lines."
"#;

    let meta = FrontMatter::new(raw).unwrap();
    assert_eq!(meta.title, "Rust Blog");
    assert_eq!(date_of(&meta), NaiveDate::from_ymd_opt(2025, 11, 3).unwrap());
    assert_eq!(meta.slug, "rust-blog");
    assert_eq!(meta.tags, vec!["rust", "axum"]);
    assert_eq!(meta.description, "Handles comments and empty lines.");
}
