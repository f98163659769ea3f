use pattern_3::slice::{SliceChecker, SliceSearcher};
use pattern_3::span::Span;

fn trim_by_str<'a>(hay: &'a str, pat: &str) -> &'a str {
    let mut checker = SliceChecker::new_str(pat);
    let start = checker.trim_start_str(hay);
    let rest = &hay[start..];
    let end = checker.trim_end_str(rest);
    &rest[..end]
}

#[test]
fn text_single_character_trim() {
    assert_eq!(trim_by_str("風風風颫颫風", "風"), "颫颫");
}

#[test]
fn text_single_character_trim_when_absent() {
    assert_eq!(trim_by_str("風風風颫颫風", "颫"), "風風風颫颫風");
}

#[test]
fn text_trim_start_is_idempotent() {
    let mut checker = SliceChecker::new_str("ab");
    let hay = "ababcab";
    let start = checker.trim_start_str(hay);
    assert_eq!(start, 4);
    assert_eq!(checker.trim_start_str(&hay[start..]), 0);
    let end = checker.trim_end_str(hay);
    assert_eq!(end, 5);
    assert_eq!(checker.trim_end_str(&hay[..end]), end);
}

#[test]
fn text_substring_search_and_reverse() {
    let hay = "xxxxx";
    let mut searcher = SliceSearcher::new_str("xx");
    let mut forward = Vec::new();
    let mut start = 0;
    while let Some(m) = searcher.search_str(Span::from_parts(hay, start..hay.len())) {
        forward.push(m.start);
        start = m.end;
    }
    let mut searcher = SliceSearcher::new_str("xx");
    let mut reverse = Vec::new();
    let mut end = hay.len();
    while let Some(m) = searcher.rsearch_str(Span::from_parts(hay, 0..end)) {
        reverse.push(m.start);
        end = m.start;
    }
    assert_eq!(forward, vec![0, 2]);
    assert_eq!(reverse, vec![3, 1]);
}

#[test]
fn text_search_in_multibyte_text() {
    let hay = "lion::tiger::leopard";
    let mut searcher = SliceSearcher::new_str("::");
    assert_eq!(searcher.search_str(Span::from_hay(hay)), Some(4..6));
    assert_eq!(searcher.search_str(Span::from_parts(hay, 6..20)), Some(11..13));
    assert_eq!(searcher.search_str(Span::from_parts(hay, 13..20)), None);

    let hay = "風颫風颫颫";
    let mut searcher = SliceSearcher::new_str("颫颫");
    assert_eq!(searcher.search_str(Span::from_hay(hay)), Some(9..15));
    let mut searcher = SliceSearcher::new_str("颫");
    assert_eq!(searcher.rsearch_str(Span::from_hay(hay)), Some(12..15));
}

#[test]
fn text_consume_agrees_with_search() {
    let hay = "風颫風";
    let mut checker = SliceChecker::new_str("風");
    assert_eq!(checker.consume_str(Span::from_hay(hay)), Some(3));
    assert_eq!(checker.rconsume_str(Span::from_hay(hay)), Some(6));
    assert_eq!(checker.consume_str(Span::from_parts(hay, 3..9)), None);
    let mut searcher = SliceSearcher::new_str("風");
    assert_eq!(searcher.search_str(Span::from_hay(hay)), Some(0..3));
}

#[test]
fn empty_text_needle_steps_by_character() {
    let hay = "a風b";
    let mut searcher = SliceSearcher::new_str("");
    let mut found = Vec::new();
    let mut start = 0;
    while let Some(m) = searcher.search_str(Span::from_parts(hay, start..hay.len())) {
        found.push(m.clone());
        start = m.end;
    }
    assert_eq!(found, vec![0..0, 1..1, 4..4, 5..5]);
}

#[test]
fn text_matches_fall_on_char_boundaries() {
    let hay = "颫風颫";
    let mut searcher = SliceSearcher::new_str("風");
    let m = searcher.search_str(Span::from_hay(hay)).unwrap();
    assert_eq!(&hay[m.clone()], "風");
    assert_eq!(m, 3..6);
}
