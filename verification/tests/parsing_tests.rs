use blog::date::{parse_iso_date, CalendarDate};
use blog::fields::{classify_line, parse_fields, Field, FieldError, FieldParser, LineKind};
use blog::metadata::{metadata_block, try_metadata_block, Metadata, MetadataParseError};
use blog::text::{split_chars, trim_chars};

fn chars(s: &str) -> Vec<char> {
    s.chars().collect()
}

const FULL: &str = "title: \"Rust Blog\"\ndate: 2025-11-03\nslug: \"rust-blog\"\ntags: [\"rust\", \"axum\"]\ndescription: \"Desc.\"\n";

#[test]
fn skipped_lines_leave_the_result_unchanged() {
    let with_noise = "\n# comment\ntitle: \"Rust Blog\"\n   \n\t# indented comment\ndate: 2025-11-03\nslug: \"rust-blog\"\n\ntags: [\"rust\", \"axum\"]\ndescription: \"Desc.\"\n# end\n";
    let a = Metadata::new(FULL).unwrap();
    let b = Metadata::new(with_noise).unwrap();
    assert_eq!(a.title, b.title);
    assert_eq!(a.date, b.date);
    assert_eq!(a.slug, b.slug);
    assert_eq!(a.tags, b.tags);
    assert_eq!(a.description, b.description);
}

#[test]
fn complete_block_in_any_order_reads_each_line() {
    let raw = "description: \"Desc.\"\ntags: [\"x\"]\nslug: s\ndate: 2024-02-29\ntitle: T";
    let m = Metadata::new(raw).unwrap();
    assert_eq!(m.title, "T");
    assert_eq!(m.slug, "s");
    assert_eq!(m.description, "Desc.");
    assert_eq!(m.tags, vec!["x"]);
    assert_eq!(m.date, CalendarDate { year: 2024, month: 2, day: 29 });
}

#[test]
fn missing_keys_are_listed_in_field_order() {
    let raw = "tags: [\"rust\"]\ntitle: \"Rust Blog\"\n";
    match Metadata::new(raw).unwrap_err() {
        MetadataParseError::MissingKeys(keys) => assert_eq!(keys, vec!["date", "slug", "description"]),
        e => panic!("unexpected {:?}", e),
    }
    match Metadata::new("").unwrap_err() {
        MetadataParseError::MissingKeys(keys) => {
            assert_eq!(keys, vec!["title", "date", "slug", "tags", "description"])
        }
        e => panic!("unexpected {:?}", e),
    }
    let one = "title: a\ndate: 2025-01-01\ntags: [\"a\"]\ndescription: d\n";
    match Metadata::new(one).unwrap_err() {
        MetadataParseError::MissingKey(key) => assert_eq!(key, "slug"),
        e => panic!("unexpected {:?}", e),
    }
}

#[test]
fn second_line_for_a_key_is_a_duplicate() {
    let raw = "tags: [\"a\"]\ndate: 2025-01-01\ntags: [\"b\"]\n";
    match Metadata::new(raw).unwrap_err() {
        MetadataParseError::DuplicateKey(key) => assert_eq!(key, "tags"),
        e => panic!("unexpected {:?}", e),
    }
    let raw = "date: 2025-01-01\ndate: 2025-01-02\n";
    match Metadata::new(raw).unwrap_err() {
        MetadataParseError::DuplicateKey(key) => assert_eq!(key, "date"),
        e => panic!("unexpected {:?}", e),
    }
}

#[test]
fn bad_date_is_reported_before_the_duplicate() {
    let raw = "date: 2025-01-01\ndate: 2025-13-01\n";
    match Metadata::new(raw).unwrap_err() {
        MetadataParseError::InvalidDateTime => (),
        e => panic!("unexpected {:?}", e),
    }
    let raw = "date: \"2025-01-01\"\n";
    match Metadata::new(raw).unwrap_err() {
        MetadataParseError::InvalidDateTime => (),
        e => panic!("unexpected {:?}", e),
    }
}

#[test]
fn tags_are_cut_at_commas() {
    let raw = "title: t\ndate: 2025-01-01\nslug: s\ndescription: d\ntags: [\"a\", \"b c\",\"d\" ]";
    assert_eq!(Metadata::new(raw).unwrap().tags, vec!["a", "b c", "d"]);
    let raw = "title: t\ndate: 2025-01-01\nslug: s\ndescription: d\ntags: [rust, axum]";
    assert_eq!(Metadata::new(raw).unwrap().tags, vec!["rust", "axum"]);
    let raw = "title: t\ndate: 2025-01-01\nslug: s\ndescription: d\ntags: []";
    assert_eq!(Metadata::new(raw).unwrap().tags, vec![""]);
}

#[test]
fn values_stop_at_a_second_colon_and_lose_quotes() {
    let raw = "title: \"a: b\"\ndate: 2025-01-01\nslug: \"s\"\"x\"\ndescription: d\ntags: [\"a\"]";
    let m = Metadata::new(raw).unwrap();
    assert_eq!(m.title, "a");
    assert_eq!(m.slug, "sx");
}

#[test]
fn carriage_returns_are_trimmed() {
    let raw = "title: T\r\ndate: 2025-01-01\r\nslug: s\r\ndescription: d\r\ntags: [\"a\"]\r\n";
    let m = Metadata::new(raw).unwrap();
    assert_eq!(m.title, "T");
    assert_eq!(m.tags, vec!["a"]);
}

#[test]
fn blocks_that_cannot_be_read_are_refused_by_try_new() {
    assert!(Metadata::try_new("title: a\nno colon here\n").is_none());
    assert!(Metadata::try_new("author: me\n").is_none());
    assert!(Metadata::try_new("tags: x\n").is_none());
    assert!(Metadata::try_new("tags: \u{e9}x]\n").is_none());
    match Metadata::try_new("title: a\ntitle: b\nno colon\n") {
        Some(Err(MetadataParseError::DuplicateKey(k))) => assert_eq!(k, "title"),
        _ => panic!("expected the duplicate first"),
    }
    assert!(Metadata::try_new(FULL).unwrap().is_ok());
    assert!(parse_fields("author: x").is_none());
}

#[test]
fn classify_lines() {
    assert!(matches!(classify_line(&chars("   ")), LineKind::Skipped));
    assert!(matches!(classify_line(&chars("  # x: y")), LineKind::Skipped));
    assert!(matches!(classify_line(&chars("title")), LineKind::Malformed));
    assert!(matches!(classify_line(&chars("Title: x")), LineKind::Malformed));
    match classify_line(&chars("  slug :  a b : c ")) {
        LineKind::Entry(Field::Slug, v) => assert_eq!(v, chars("a b")),
        _ => panic!("expected a slug entry"),
    }
}

#[test]
fn parser_steps_take_the_date_as_given() {
    let mut p = FieldParser::new();
    let d = CalendarDate { year: 1999, month: 12, day: 31 };
    assert!(matches!(p.apply_entry(Field::Date, &chars("not a date"), Some(d)), Some(Ok(()))));
    assert!(matches!(
        p.apply_entry(Field::Date, &chars("2025-01-01"), None),
        Some(Err(FieldError::InvalidDateTime))
    ));
    assert!(matches!(
        p.apply_entry(Field::Date, &chars("x"), Some(d)),
        Some(Err(FieldError::DuplicateKey(Field::Date)))
    ));
    assert!(p.apply_entry(Field::Tags, &chars("x"), None).is_none());
    assert!(matches!(p.apply_entry(Field::Title, &chars("\"T\""), Some(d)), Some(Ok(()))));
    match p.finish() {
        Err(FieldError::MissingKeys(fs)) => {
            assert_eq!(fs, vec![Field::Slug, Field::Tags, Field::Description])
        }
        other => panic!("unexpected {:?}", other),
    }
    let mut p = FieldParser::new();
    for (f, v) in [
        (Field::Title, "\"T\""),
        (Field::Date, "-"),
        (Field::Slug, "s"),
        (Field::Tags, "[\"a\"]"),
        (Field::Description, "d"),
    ] {
        assert!(matches!(p.apply_entry(f, &chars(v), Some(d)), Some(Ok(()))));
    }
    let fields = p.finish().unwrap();
    assert_eq!(fields.title, "T");
    assert_eq!(fields.date, d);
    assert_eq!(fields.tags, vec!["a"]);
}

#[test]
fn iso_dates_are_read_by_chrono() {
    assert_eq!(parse_iso_date("2025-11-03"), Some(CalendarDate { year: 2025, month: 11, day: 3 }));
    assert_eq!(parse_iso_date("2024-02-29"), Some(CalendarDate { year: 2024, month: 2, day: 29 }));
    assert_eq!(parse_iso_date("2025-02-30"), None);
    assert_eq!(parse_iso_date("11-03-2025"), None);
    assert_eq!(parse_iso_date(""), None);
}

#[test]
fn field_names() {
    assert_eq!(Field::Title.name(), "title");
    assert_eq!(Field::Description.name(), "description");
    assert_eq!(Field::from_key(&chars("tags")), Some(Field::Tags));
    assert_eq!(Field::from_key(&chars("tag")), None);
    assert_eq!(
        blog::fields::field_names(&vec![Field::Date, Field::Slug]),
        vec!["date", "slug"]
    );
}

#[test]
fn text_helpers() {
    assert_eq!(trim_chars(&chars("\u{3000} a b\u{a0}\r\n")), chars("a b"));
    assert_eq!(trim_chars(&chars(" \t ")), chars(""));
    let pieces = split_chars(&chars("a,,b,"), ',');
    assert_eq!(pieces, vec![chars("a"), chars(""), chars("b"), chars("")]);
    assert_eq!(split_chars(&chars(""), ','), vec![chars("")]);
}

#[test]
fn metadata_block_is_cut_from_the_post() {
    let post = "---\ntitle: \"x\"\ndate: 2025-11-03\n---\n# Body\n";
    assert_eq!(metadata_block(post), Some("title: \"x\"\ndate: 2025-11-03".to_string()));
    assert_eq!(metadata_block("no block"), None);
    assert_eq!(metadata_block("---\nnever closed"), None);
    assert_eq!(try_metadata_block("---"), None);
    assert_eq!(try_metadata_block("---x---"), None);
    assert_eq!(try_metadata_block("---\u{e9}---"), None);
    assert_eq!(try_metadata_block("---\n\u{e9}---"), None);
    assert_eq!(try_metadata_block("plain"), Some(None));
    assert_eq!(try_metadata_block("---\nab---"), Some(Some("a".to_string())));
}

#[test]
fn the_post_file_reads() {
    let post = "---\ntitle: \"Rust ile Kendi Blogunu Yapmak\"\ndate: 2025-11-03\nslug: \"rust-ile-blog-yapmak\"\ntags: [\"rust\", \"web\", \"markdown\", \"axum\"]\ndescription: \"Axum ve SQLite kullanarak basit bir markdown tabanl\u{131} blog API'si olu\u{15f}turmay\u{131} \u{f6}\u{11f}reniyoruz.\"\n---\n\n# Rust ile Blog Yapmak\n";
    let block = metadata_block(post).unwrap();
    let m = Metadata::new(&block).unwrap();
    assert_eq!(m.title, "Rust ile Kendi Blogunu Yapmak");
    assert_eq!(m.slug, "rust-ile-blog-yapmak");
    assert_eq!(m.tags, vec!["rust", "web", "markdown", "axum"]);
    assert_eq!(m.date, CalendarDate { year: 2025, month: 11, day: 3 });
    assert!(m.description.starts_with("Axum ve SQLite"));
}

#[test]
fn tags_written_as_a_list_read_back() {
    let names = ["a b", "c-d", "", "\u{e9}t\u{e9}"];
    let text = format!(
        "[{}]",
        names.iter().map(|n| format!("\"{}\"", n)).collect::<Vec<_>>().join(", ")
    );
    let tags = blog::fields::tag_values(&chars(&text));
    assert_eq!(tags, names.to_vec());
}

#[test]
fn reordered_lines_read_the_same() {
    let lines: Vec<&str> = FULL.lines().collect();
    let reordered = [lines[4], lines[2], lines[0], lines[3], lines[1]].join("\n");
    let a = Metadata::new(FULL).unwrap();
    let b = Metadata::new(&reordered).unwrap();
    assert_eq!(a.title, b.title);
    assert_eq!(a.date, b.date);
    assert_eq!(a.slug, b.slug);
    assert_eq!(a.tags, b.tags);
    assert_eq!(a.description, b.description);
}

#[test]
fn whitespace_at_line_ends_and_around_colons_is_ignored() {
    let spaced = " \ttitle \t:  \"Rust Blog\"  \n  date:2025-11-03\t\nslug\t:\"rust-blog\"\ntags :  [\"rust\", \"axum\"]\n\tdescription\t:\t\"Desc.\" \n";
    let a = Metadata::new(FULL).unwrap();
    let b = Metadata::new(spaced).unwrap();
    assert_eq!(a.title, b.title);
    assert_eq!(a.date, b.date);
    assert_eq!(a.slug, b.slug);
    assert_eq!(a.tags, b.tags);
    assert_eq!(a.description, b.description);
}

#[test]
fn default_values_are_empty_with_the_epoch_date() {
    let m = Metadata::default();
    assert_eq!(m.title, "");
    assert!(m.tags.is_empty());
    assert_eq!(m.date, CalendarDate { year: 1970, month: 1, day: 1 });
    let f = blog::frontmatter::FrontMatter::default();
    assert_eq!(f.date, CalendarDate { year: 1970, month: 1, day: 1 });
    assert_eq!(f.description, "");
}

#[test]
fn parsed_dates_are_real_days() {
    for text in ["2025-1-3", "2024-12-31", "0001-01-01"] {
        let d = parse_iso_date(text).unwrap();
        assert!((1..=12).contains(&d.month) && (1..=31).contains(&d.day));
    }
    assert_eq!(parse_iso_date("2025-1-3"), Some(CalendarDate { year: 2025, month: 1, day: 3 }));
    assert_eq!(parse_iso_date("2025-00-10"), None);
    assert_eq!(parse_iso_date("2025-04-31"), None);
}
