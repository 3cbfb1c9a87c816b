use wikistory::wiki_index::{
    extract_next_namespace, extract_next_title, has_full_line, last_index_position, page_entries, pages_to_index,
    skip_until_page_start, IndexTailError, XmlItem,
};
use wikistory::wiki_uri::{article_uri, search_uri, to_wiki_str};

#[test]
fn to_wiki_str_is_working() {
    assert_eq!(to_wiki_str(""), "");
    assert_eq!(to_wiki_str(" test"), "_test");
    assert_eq!(to_wiki_str("test test"), "test_test");
    assert_eq!(to_wiki_str("test_test"), "test_test");
    assert_eq!(to_wiki_str("  __  __"), "________");
}

#[test]
fn page_addresses() {
    assert_eq!(article_uri("Milky Way"), "https://en.wikipedia.org/wiki/Milky_Way");
    assert_eq!(
        search_uri("a b"),
        "https://en.wikipedia.org/w/index.php?title=Special:Search&fulltext=1&search=a_b"
    );
}

fn start(n: &str) -> XmlItem {
    XmlItem::StartElement(n.to_owned())
}

fn text(t: &str) -> XmlItem {
    XmlItem::Characters(t.to_owned())
}

fn dump() -> Vec<XmlItem> {
    vec![
        start("mediawiki"),
        start("page"),
        start("title"),
        text("Alpha"),
        XmlItem::Other,
        start("ns"),
        text("0"),
        start("page"),
        start("title"),
        text("Talk:Alpha"),
        start("ns"),
        text("1"),
        start("page"),
        start("title"),
        text("Beta"),
        start("ns"),
        text("0"),
        XmlItem::End,
    ]
}

#[test]
fn indexes_pages_of_namespace_zero() {
    let entries = page_entries(&dump());
    assert_eq!(entries, vec![(1, "Alpha".to_owned()), (12, "Beta".to_owned())]);
}

#[test]
fn nothing_to_index_in_nothing() {
    assert!(page_entries(&vec![]).is_empty());
    assert!(page_entries(&vec![XmlItem::End]).is_empty());
}

#[test]
fn reads_elements_in_turn() {
    let events = dump();
    assert_eq!(skip_until_page_start(&events, 0), Some(1));
    assert_eq!(skip_until_page_start(&events, 2), Some(7));
    assert_eq!(skip_until_page_start(&events, 13), None);
    assert_eq!(extract_next_title(&events, 2), (Some("Alpha".to_owned()), 4));
    assert_eq!(extract_next_namespace(&events, 4), (Some("0".to_owned()), 7));
    let broken = vec![start("title"), start("b")];
    assert_eq!(extract_next_title(&broken, 0), (None, 2));
    assert_eq!(extract_next_title(&vec![XmlItem::End, start("title")], 0), (None, 0));
}

#[test]
fn empty_index_resumes_at_the_start() {
    assert_eq!(last_index_position("", true), Ok(0));
    assert_eq!(last_index_position("\r\n\r\n", false), Ok(0));
}

#[test]
fn resumes_at_the_last_full_line() {
    assert_eq!(last_index_position("12,Alpha\r\n34,Beta\r\n", false), Ok(34));
    assert_eq!(last_index_position("ha\r\n+7,x", false), Ok(7));
    assert_eq!(last_index_position("12,Alpha\r\n", true), Ok(12));
    assert_eq!(
        last_index_position("a\r\n18446744073709551615,y", false),
        Ok(u64::MAX)
    );
}

#[test]
fn a_lone_line_may_be_cut() {
    assert!(!has_full_line("12,Alpha\r\n", false));
    assert!(!has_full_line("1\r2\r\n", false));
    assert!(has_full_line("12,Alpha\r\n", true));
    assert!(has_full_line("1,a\r\n2,b\r\n", false));
    assert!(has_full_line("\r\n", false));
}

#[test]
fn positions_must_be_numbers() {
    assert_eq!(
        last_index_position("a\r\nx7,y\r\n", false),
        Err(IndexTailError::NotANumber)
    );
    assert_eq!(
        last_index_position("a\r\n18446744073709551616,y", false),
        Err(IndexTailError::NotANumber)
    );
    assert_eq!(last_index_position("a\r\n,y", false), Err(IndexTailError::NotANumber));
    assert_eq!(last_index_position("a\r\n+,y", false), Err(IndexTailError::NotANumber));
    assert_eq!(last_index_position("1\r2", true), Err(IndexTailError::NotANumber));
}

#[test]
fn resuming_skips_the_page_already_indexed() {
    assert_eq!(pages_to_index(&dump(), true), vec![(12, "Beta".to_owned())]);
    assert_eq!(pages_to_index(&dump(), false).len(), 2);
    assert!(pages_to_index(&vec![], true).is_empty());
}
