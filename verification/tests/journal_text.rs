//! The text of the filesystem journal, and the names of temporary files.

use tidings::journal::{
    Journal, JournalProblem, JournalState, Remove, Replace, Target, decimal, escape, from_hex, parse,
    temporary_file_name, to_hex, unescape,
};
use tidings::{Error, InvalidPathReason, Path, Revision};

fn chars(text: &str) -> Vec<char> {
    text.chars().collect()
}

fn text(chars: &[char]) -> String {
    chars.iter().collect()
}

fn sample() -> Journal {
    let replaces = vec![
        Replace {
            path: Path::new("a b/c.txt").unwrap(),
            temporary: "/root/a b/.c.txt.tidings-00000000000000000000000000000001-0".to_owned(),
            target: Target::AtPath,
        },
        Replace {
            path: Path::new("link").unwrap(),
            temporary: "/elsewhere/.t.tidings-00000000000000000000000000000001-1".to_owned(),
            target: Target::Linked("/elsewhere/t\tx".to_owned()),
        },
    ];
    let removes = vec![Remove { path: Path::new("old.txt").unwrap(), revision: Revision::from_number(255) }];
    Journal::prepared(replaces, removes)
}

#[test]
fn the_journal_is_written_as_its_format_says() {
    let mut journal = sample();
    assert_eq!(
        journal.to_text(),
        "tidings journal 2\nprepared\n\
         write\t/root/a b/.c.txt.tidings-00000000000000000000000000000001-0\ta b/c.txt\n\
         replace\t/elsewhere/.t.tidings-00000000000000000000000000000001-1\tlink\t/elsewhere/t\\tx\n\
         remove\told.txt\t000000000000000000000000000000ff\n",
    );
    journal.commit();
    assert!(journal.to_text().starts_with("tidings journal 2\ncommitted\n"));
}

#[test]
fn a_journal_reads_back_as_it_was_written() {
    let mut journal = sample();
    journal.commit();
    let read = parse(&journal.to_text()).unwrap();
    assert_eq!(read.state, JournalState::Committed);
    assert_eq!(read.replaces.len(), 2);
    assert_eq!(read.replaces[0].path.as_str(), "a b/c.txt");
    assert!(matches!(read.replaces[0].target, Target::AtPath));
    assert_eq!(read.replaces[1].temporary, "/elsewhere/.t.tidings-00000000000000000000000000000001-1");
    match &read.replaces[1].target {
        Target::Linked(target) => assert_eq!(target, "/elsewhere/t\tx"),
        Target::AtPath => panic!("the replace should keep its link's target"),
    }
    assert_eq!(read.removes.len(), 1);
    assert_eq!(read.removes[0].path.as_str(), "old.txt");
    assert_eq!(read.removes[0].revision, Revision::from_number(255));
}

#[test]
fn a_journal_with_windows_line_endings_reads_the_same() {
    let text = "tidings journal 2\r\ncommitted\r\nremove\ta\t0000000000000000000000000000000a\r\n";
    let read = parse(text).unwrap();
    assert_eq!(read.state, JournalState::Committed);
    assert_eq!(read.removes[0].revision, Revision::from_number(10));
}

#[test]
fn a_journal_that_cant_be_read_says_why() {
    assert!(matches!(parse(""), Err(JournalProblem::UnknownFormat)));
    assert!(matches!(parse("tidings journal 1\nprepared\n"), Err(JournalProblem::UnknownFormat)));
    assert!(matches!(parse("tidings journal 2\n"), Err(JournalProblem::NoState)));
    assert!(matches!(parse("tidings journal 2\nfinished\n"), Err(JournalProblem::NoState)));
    assert!(matches!(
        parse("tidings journal 2\nprepared\nwrite\t/tmp/x\t../escape\n"),
        Err(JournalProblem::InvalidPath)
    ));
    match parse("tidings journal 2\nprepared\nremove\ta.txt\tnot hex\n") {
        Err(JournalProblem::BadRevision(field)) => assert_eq!(field, "not hex"),
        other => panic!("expected a bad Revision, got {other:?}"),
    }
    match parse("tidings journal 2\ncommitted\nrename\ta\tb\n") {
        Err(JournalProblem::BadItem(line)) => assert_eq!(line, "rename\ta\tb"),
        other => panic!("expected a bad item, got {other:?}"),
    }
    assert!(matches!(
        parse("tidings journal 2\ncommitted\nwrite\tonly two\n"),
        Err(JournalProblem::BadItem(_))
    ));
}

#[test]
fn an_empty_journal_has_no_items() {
    let read = parse("tidings journal 2\nprepared\n").unwrap();
    assert_eq!(read.state, JournalState::Prepared);
    assert!(read.replaces.is_empty());
    assert!(read.removes.is_empty());
}

#[test]
fn escaping_keeps_a_field_on_one_line_and_unescaping_undoes_it() {
    let plain = chars("a\\b\tc\nd\re");
    let escaped = escape(&plain);
    assert_eq!(text(&escaped), "a\\\\b\\tc\\nd\\re");
    assert_eq!(unescape(&escaped), plain);
    assert_eq!(text(&unescape(&chars("\\x\\"))), "x\\");
}

#[test]
fn a_revision_in_hexadecimal_reads_back() {
    let revision = Revision::from_number(0x0123_4567_89ab_cdef_fedc_ba98_7654_3210);
    let hex = to_hex(revision);
    assert_eq!(text(&hex), "0123456789abcdeffedcba9876543210");
    assert_eq!(from_hex(&hex), Some(revision.to_number()));
    assert_eq!(from_hex(&chars("0123456789ABCDEFFEDCBA9876543210")), Some(revision.to_number()));
    assert_eq!(from_hex(&chars("+123456789abcdeffedcba9876543210")), Some(0x0123_4567_89ab_cdef_fedc_ba98_7654_3210));
    assert_eq!(from_hex(&chars("0123")), None);
    assert_eq!(from_hex(&chars("g123456789abcdeffedcba9876543210")), None);
    assert_eq!(from_hex(&chars("é123456789abcdeffedcba987654321")), None);
}

#[test]
fn numbers_are_written_in_decimal() {
    assert_eq!(text(&decimal(0)), "0");
    assert_eq!(text(&decimal(7)), "7");
    assert_eq!(text(&decimal(1204)), "1204");
    assert_eq!(text(&decimal(usize::MAX)), usize::MAX.to_string());
}

#[test]
fn a_temporary_files_name_is_never_a_path() {
    let name = temporary_file_name("settings.toml", 0xfe, 12);
    assert_eq!(name, ".settings.toml.tidings-000000000000000000000000000000fe-12");
    match Path::new(&name) {
        Err(Error::InvalidPath { reason, .. }) => assert_eq!(reason, InvalidPathReason::Reserved),
        other => panic!("{name} should be refused, got {other:?}"),
    }
    let nested = format!("themes/{}", temporary_file_name("dark.toml", u128::MAX, 0));
    assert!(matches!(
        Path::new(&nested),
        Err(Error::InvalidPath { reason: InvalidPathReason::Reserved, .. })
    ));
}
