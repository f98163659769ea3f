use pattern_3::empty::EmptySearcher;
use pattern_3::pattern::{Pattern, ReverseSearcher, Searcher};
use pattern_3::single::{ElementSearcher, PredicateSearcher};
use pattern_3::span::Span;

#[test]
fn default_trim_consumes_until_no_match() {
    let hay: Vec<u64> = vec![6, 6, 75, 6, 77, 6, 6, 6];
    let mut searcher = PredicateSearcher::new(|c: u64| c == 6);
    let start = Searcher::<[u64]>::trim_start(&mut searcher, &hay[..]);
    let end = ReverseSearcher::<[u64]>::trim_end(&mut searcher, &hay[start..]);
    assert_eq!(&hay[start..start + end], &[75, 6, 77]);
}

#[test]
fn trait_methods_on_element_and_empty_searchers() {
    let hay: Vec<u8> = b"xxyx".to_vec();
    let mut searcher = ElementSearcher::new(b'x');
    assert_eq!(Searcher::<[u8]>::trim_start(&mut searcher, &hay[..]), 2);
    assert_eq!(ReverseSearcher::<[u8]>::trim_end(&mut searcher, &hay[..]), 3);
    assert_eq!(Searcher::<[u8]>::search(&mut searcher, Span::from_parts(&hay[..], 2..4)), Some(3..4));
    let mut empty = EmptySearcher::new();
    assert_eq!(Searcher::<str>::trim_start(&mut empty, "ab"), 0);
    assert_eq!(ReverseSearcher::<str>::trim_end(&mut empty, "ab"), 2);
}

#[test]
fn slice_pattern_into_searcher() {
    let hay: &[u8] = b"abcabc";
    let needle: &[u8] = b"bc";
    let mut searcher = Pattern::<[u8]>::into_searcher(needle);
    assert_eq!(Searcher::<[u8]>::search(&mut searcher, Span::from_hay(hay)), Some(1..3));
    assert_eq!(ReverseSearcher::<[u8]>::rsearch(&mut searcher, Span::from_hay(hay)), Some(4..6));
    let mut consumer = Pattern::<[u8]>::into_consumer(&b"ab"[..]);
    assert_eq!(Searcher::<[u8]>::consume(&mut consumer, Span::from_hay(hay)), Some(2));
    assert_eq!(Searcher::<[u8]>::trim_start(&mut consumer, hay), 2);
    assert_eq!(ReverseSearcher::<[u8]>::rconsume(&mut consumer, Span::from_hay(hay)), None);
}

#[test]
fn text_pattern_through_traits() {
    let hay = "xxxxx";
    let mut searcher = Pattern::<str>::into_searcher("xx");
    assert_eq!(Searcher::<str>::search(&mut searcher, Span::from_hay(hay)), Some(0..2));
    assert_eq!(Searcher::<str>::search(&mut searcher, Span::from_parts(hay, 2..5)), Some(2..4));
    assert_eq!(Searcher::<str>::search(&mut searcher, Span::from_parts(hay, 4..5)), None);
    assert_eq!(ReverseSearcher::<str>::rsearch(&mut searcher, Span::from_hay(hay)), Some(3..5));
    let mut consumer = Pattern::<str>::into_consumer("風");
    assert_eq!(Searcher::<str>::trim_start(&mut consumer, "風風颫風"), 6);
    assert_eq!(ReverseSearcher::<str>::trim_end(&mut consumer, "風風颫風"), 9);
    assert_eq!(Searcher::<str>::consume(&mut consumer, Span::from_parts("颫風", 3..6)), Some(6));
}
