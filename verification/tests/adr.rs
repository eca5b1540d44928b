use adl::cli::dispatch;
use adl::cli::effective_title;
use adl::cli::help_text;
use adl::cli::join_title;
use adl::cli::Action;
use adl::gen::create_adr;
use adl::index::rebuild_index;
use adl::index::rebuild_readme;
use adl::index::render_index;
use adl::scan::files_after_create;
use adl::scan::list_adr_files;
use adl::text::format_padded;
use adl::text::lex_le_exec;
use adl::text::slugify;

fn strings(names: &[&str]) -> Vec<String> {
    names.iter().map(|n| n.to_string()).collect()
}

const INDEX_HEAD: &str = "# Architecture Decision Records\n\nRegenerated: ";
const TIMESTAMP_LEN: usize = 29;

#[test]
fn padded_numerals() {
    assert_eq!(format_padded(0), "00000");
    assert_eq!(format_padded(7), "00007");
    assert_eq!(format_padded(42), "00042");
    assert_eq!(format_padded(999), "00999");
    assert_eq!(format_padded(4321), "04321");
    assert_eq!(format_padded(99999), "99999");
    assert_eq!(format_padded(123456), "123456");
}

#[test]
fn slug_replaces_separators_only() {
    assert_eq!(slugify("My Decision"), "My-Decision");
    assert_eq!(slugify("a/b\\c d"), "a-b-c-d");
    assert_eq!(slugify("NoSeparators"), "NoSeparators");
    assert_eq!(slugify(""), "");
    assert_eq!(slugify("  "), "--");
    assert_eq!(slugify("Mixed CASE kept"), "Mixed-CASE-kept");
}

#[test]
fn lexicographic_comparison() {
    assert!(lex_le_exec("", "a"));
    assert!(lex_le_exec("a", "a"));
    assert!(lex_le_exec("a", "b"));
    assert!(!lex_le_exec("b", "a"));
    assert!(lex_le_exec("ab", "b"));
    assert!(lex_le_exec("00000-a.md", "00001-b.md"));
    assert!(!lex_le_exec("00002-c.md", "00001-b.md"));
}

#[test]
fn created_file_numbered_by_count() {
    let entries = strings(&["00000-a.md", "00001-b.md", "README.md", "assets"]);
    let files = list_adr_files(&entries);
    assert_eq!(files.len(), 2);
    let (name, _contents) = create_adr(files.len(), "Third One");
    assert_eq!(name, "00002-Third-One.md");
}

#[test]
fn record_document_from_template() {
    let (name, contents) = create_adr(3, "Use Rust");
    assert_eq!(name, "00003-Use-Rust.md");
    assert_eq!(
        contents,
        "# 00003 - Use Rust\n\n## Status\n\nProposed\n\n## Context\n\n## Decision\n\n## Consequences\n"
    );
}

#[test]
fn heading_keeps_original_title() {
    let (name, contents) = create_adr(0, "a/b c");
    assert_eq!(name, "00000-a-b-c.md");
    assert!(contents.starts_with("# 00000 - a/b c\n"));
}

#[test]
fn round_trip_single_record() {
    let files = list_adr_files(&strings(&[]));
    assert_eq!(files.len(), 0);
    let (name, _contents) = create_adr(files.len(), "My Decision");
    assert_eq!(name, "00000-My-Decision.md");
    let listed = files_after_create(&files, &name);
    assert_eq!(listed, strings(&["00000-My-Decision.md"]));
    let index = render_index(&listed, "Tue, 15 Nov 1994 08:12:31 GMT");
    let expected = "# Architecture Decision Records\n\nRegenerated: Tue, 15 Nov 1994 08:12:31 GMT\n\n - [00000-My-Decision.md](00000-My-Decision.md)\n";
    assert_eq!(index, expected);
    let link_lines: Vec<&str> = index.lines().filter(|l| l.starts_with(" - [")).collect();
    assert_eq!(link_lines, vec![" - [00000-My-Decision.md](00000-My-Decision.md)"]);
}

#[test]
fn created_record_joins_the_listing_in_order() {
    let files = strings(&["00000-a.md", "00002-c.md"]);
    let listed = files_after_create(&files, &"00001-b.md".to_string());
    assert_eq!(listed, strings(&["00000-a.md", "00001-b.md", "00002-c.md"]));
    let appended = files_after_create(&listed, &"00003-d.md".to_string());
    assert_eq!(appended.len(), 4);
    assert_eq!(appended[3], "00003-d.md");
}

#[test]
fn out_of_order_listing_is_sorted() {
    let entries = strings(&["00000-a.md", "00002-c.md", "00001-b.md"]);
    let files = list_adr_files(&entries);
    assert_eq!(files, strings(&["00000-a.md", "00001-b.md", "00002-c.md"]));
    let index = render_index(&files, "ts");
    let expected_lines = "\
 - [00000-a.md](00000-a.md)\n - [00001-b.md](00001-b.md)\n - [00002-c.md](00002-c.md)";
    assert!(index.contains(expected_lines));
}

#[test]
fn reserved_entries_are_excluded() {
    let entries = strings(&["README.md", "00000-a.md", "assets", "00001-b.md"]);
    let files = list_adr_files(&entries);
    assert_eq!(files, strings(&["00000-a.md", "00001-b.md"]));
    let index = render_index(&files, "ts");
    assert!(!index.contains("[README.md]"));
    assert!(!index.contains("[assets]"));
}

#[test]
fn empty_listing_gives_empty_link_list() {
    let files = list_adr_files(&strings(&["README.md", "assets"]));
    assert_eq!(files.len(), 0);
    let index = render_index(&files, "ts");
    assert_eq!(index, "# Architecture Decision Records\n\nRegenerated: ts\n\n\n");
}

#[test]
fn regen_differs_only_in_timestamp() {
    let entries = strings(&["00001-b.md", "00000-a.md", "README.md"]);
    let first = rebuild_readme(&entries).unwrap();
    let second = rebuild_readme(&entries).unwrap();
    assert_eq!(first.len(), second.len());
    assert_eq!(&first[..INDEX_HEAD.len()], INDEX_HEAD);
    assert_eq!(&second[..INDEX_HEAD.len()], INDEX_HEAD);
    let after = INDEX_HEAD.len() + TIMESTAMP_LEN;
    assert_eq!(&first[after..], &second[after..]);
    assert!(first[after..].contains(" - [00000-a.md](00000-a.md)"));
}

#[test]
fn wall_clock_timestamp_is_twenty_nine_characters() {
    let index = rebuild_index(&strings(&["00000-a.md"])).unwrap();
    let tail = "\n\n - [00000-a.md](00000-a.md)\n";
    assert_eq!(index.len(), INDEX_HEAD.len() + TIMESTAMP_LEN + tail.len());
    assert_eq!(&index[..INDEX_HEAD.len()], INDEX_HEAD);
    assert_eq!(&index[INDEX_HEAD.len() + TIMESTAMP_LEN..], tail);
    let stamp = &index[INDEX_HEAD.len()..INDEX_HEAD.len() + TIMESTAMP_LEN];
    assert!(stamp.ends_with(" GMT"));
    assert!(stamp.chars().all(|c| (' '..='~').contains(&c)));
}

#[test]
fn titles_join_with_single_spaces() {
    assert_eq!(join_title(&strings(&["New", "Payment", "Flow"])), "New Payment Flow");
    assert_eq!(join_title(&strings(&["One"])), "One");
    assert_eq!(join_title(&strings(&[])), "");
    assert_eq!(join_title(&strings(&["", ""])), " ");
}

#[test]
fn multi_word_title_slug() {
    let title = join_title(&strings(&["New", "Payment", "Flow"]));
    let (name, _contents) = create_adr(0, &title);
    assert_eq!(name, "00000-New-Payment-Flow.md");
}

#[test]
fn empty_title_is_refused() {
    assert!(effective_title(&strings(&[])).is_none());
    assert!(matches!(dispatch(&strings(&["create"])), Action::EmptyTitle));
    match effective_title(&strings(&["My", "Choice"])) {
        Some(t) => assert_eq!(t, "My Choice"),
        None => panic!("a non-empty title was refused"),
    }
}

#[test]
fn dispatch_decides_each_command() {
    assert!(matches!(dispatch(&strings(&[])), Action::ShowHelp));
    match dispatch(&strings(&["create", "New", "Payment", "Flow"])) {
        Action::Create(t) => assert_eq!(t, "New Payment Flow"),
        _ => panic!("create was not recognized"),
    }
    assert!(matches!(dispatch(&strings(&["regen"])), Action::Regen));
    match dispatch(&strings(&["frobnicate"])) {
        Action::Unknown(c) => assert_eq!(c, "frobnicate"),
        _ => panic!("the unknown command was not reported"),
    }
    assert!(!help_text().is_empty());
}
