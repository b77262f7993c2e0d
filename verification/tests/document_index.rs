use lyric_sync::lyrics::{find_current_lyric, parse_lyrics, LyricIndex};

fn parsed(doc: &str) -> LyricIndex {
    let mut index = LyricIndex::new();
    parse_lyrics(doc, &mut index);
    index
}

fn resolved(doc: &str, position: u32) -> Option<String> {
    let index = parsed(doc);
    find_current_lyric(position, &index).cloned()
}

#[test]
fn parsing_twice_yields_identical_contents() {
    let doc = "[0:00]alpha\n[0:10]beta\nnoise\n[0:10.5]gamma\n[1:02]  delta  ";
    let a = parsed(doc);
    let b = parsed(doc);
    assert_eq!(a.len(), b.len());
    for t in 0..80u32 {
        assert_eq!(a.lookup(t), b.lookup(t));
    }
}

#[test]
fn duplicate_timestamp_keeps_the_later_line() {
    let index = parsed("[0:10]first\n[0:10]second");
    assert_eq!(index.len(), 1);
    assert_eq!(index.lookup(10).unwrap().as_str(), "second");
}

#[test]
fn subsecond_fractions_are_truncated() {
    let a = parsed("[0:10.500]hello");
    assert_eq!(a.len(), 1);
    assert_eq!(a.lookup(10).unwrap().as_str(), "hello");
    let b = parsed("[0:10.999]hello");
    assert_eq!(b.len(), 1);
    assert_eq!(b.lookup(10).unwrap().as_str(), "hello");
}

#[test]
fn malformed_lines_are_skipped_not_fatal() {
    let doc = "just words\n\n[0:05]kept\n[no colon]dropped\n[1:2:3]dropped\n0:09]dropped\n[0:10";
    let index = parsed(doc);
    assert_eq!(index.len(), 1);
    assert_eq!(index.lookup(5).unwrap().as_str(), "kept");
}

#[test]
fn text_is_trimmed_and_empty_text_lines_are_dropped() {
    let index = parsed("[0:05]   spaced out  \n[0:10]   \n[0:15]\t\ttabbed");
    assert_eq!(index.len(), 2);
    assert_eq!(index.lookup(5).unwrap().as_str(), "spaced out");
    assert!(index.lookup(10).is_none());
    assert_eq!(index.lookup(15).unwrap().as_str(), "tabbed");
}

#[test]
fn text_may_contain_closing_brackets() {
    let index = parsed("[0:10]a]b");
    assert_eq!(index.lookup(10).unwrap().as_str(), "a]b");
}

#[test]
fn carriage_returns_do_not_leak_into_text() {
    let index = parsed("[0:00]a\r\n[0:10]b");
    assert_eq!(index.lookup(0).unwrap().as_str(), "a");
    assert_eq!(index.lookup(10).unwrap().as_str(), "b");
}

#[test]
fn empty_document_yields_empty_index() {
    let index = parsed("");
    assert_eq!(index.len(), 0);
}

#[test]
fn resolver_picks_largest_timestamp_at_or_below_position() {
    let doc = "[0:05]a\n[0:10]b\n[0:20]c";
    assert_eq!(resolved(doc, 12).unwrap(), "b");
    assert!(resolved(doc, 3).is_none());
    assert_eq!(resolved(doc, 20).unwrap(), "c");
    assert_eq!(resolved(doc, 100).unwrap(), "c");
}

#[test]
fn resolver_returns_line_starting_at_second_zero() {
    let doc = "[0:00]opening\n[0:10]later";
    assert_eq!(resolved(doc, 0).unwrap(), "opening");
    assert_eq!(resolved(doc, 5).unwrap(), "opening");
}

#[test]
fn empty_index_resolves_to_none_for_any_position() {
    let index = parsed("");
    for position in [0u32, 1, 7, 3600, u32::MAX] {
        assert!(find_current_lyric(position, &index).is_none());
    }
}
