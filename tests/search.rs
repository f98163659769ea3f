use pattern_3::empty::EmptySearcher;
use pattern_3::single::{ElementSearcher, PredicateSearcher};
use pattern_3::slice::{SliceChecker, SliceSearcher};
use pattern_3::span::Span;
use pattern_3::two_way::{maximal_suffix, reverse_maximal_suffix, TwoWaySearcher};
use std::cmp::Ordering;
use std::ops::Range;

const HAY: &[u8] = b"Aaaaa!!!Aaa!!!Aaaaaaaaa!!!";

#[test]
fn byte_subsequence_matches_and_split() {
    let mut searcher = SliceSearcher::new(&b"Aaaa"[..]);
    let found = searcher.match_ranges(HAY);
    assert_eq!(found, vec![0..4, 14..18]);

    let mut pieces: Vec<&[u8]> = Vec::new();
    let mut last = 0;
    for m in &found {
        pieces.push(&HAY[last..m.start]);
        last = m.end;
    }
    pieces.push(&HAY[last..]);
    assert_eq!(
        pieces,
        vec![&b""[..], &b"a!!!Aaa!!!"[..], &b"aaaaa!!!"[..]]
    );
}

#[test]
fn byte_subsequence_trim_start() {
    let mut checker = SliceChecker::new(&b"Aaaa"[..]);
    assert_eq!(checker.trim_start(HAY), 4);
    let mut checker = SliceChecker::new(&b"xyx"[..]);
    assert_eq!(checker.trim_start(b"xyxyx"), 3);
    assert_eq!(checker.trim_end(b"xyxyx"), 2);
}

#[test]
fn trim_start_stops_before_short_remainder() {
    let mut checker = SliceChecker::new(&b"ab"[..]);
    assert_eq!(checker.trim_start(b"ababx"), 4);
    assert_eq!(checker.trim_start(b"aba"), 2);
    assert_eq!(checker.trim_end(b"xabab"), 1);
    let mut empty = SliceChecker::new(&b""[..]);
    assert_eq!(empty.trim_start(b"abc"), 0);
    assert_eq!(empty.trim_end(b"abc"), 3);
}

fn forward_starts(hay: &[u8], needle: &[u8]) -> Vec<usize> {
    let mut searcher = SliceSearcher::new(needle);
    searcher.match_ranges(hay).into_iter().map(|m| m.start).collect()
}

fn reverse_starts(hay: &[u8], needle: &[u8]) -> Vec<usize> {
    let mut searcher = SliceSearcher::new(needle);
    let mut out = Vec::new();
    let mut end = hay.len();
    while let Some(m) = searcher.rsearch(Span::from_parts(hay, 0..end)) {
        out.push(m.start);
        end = m.start;
    }
    out
}

#[test]
fn text_substring_forward_and_reverse_disagree() {
    let hay = "xxxxx".as_bytes();
    let forward = forward_starts(hay, b"xx");
    let reverse = reverse_starts(hay, b"xx");
    assert_eq!(forward, vec![0, 2]);
    assert_eq!(reverse, vec![3, 1]);
    let mut reversed = reverse.clone();
    reversed.reverse();
    assert_ne!(forward, reversed);
}

#[test]
fn text_substring_search_in_span() {
    let hay = "lion::tiger::leopard".as_bytes();
    let mut searcher = SliceSearcher::new(&b"::"[..]);
    assert_eq!(searcher.search(Span::from_hay(hay)), Some(4..6));
    assert_eq!(searcher.search(Span::from_parts(hay, 6..20)), Some(11..13));
    assert_eq!(searcher.search(Span::from_parts(hay, 13..20)), None);
    let mut searcher = SliceSearcher::new(&b"::"[..]);
    assert_eq!(searcher.rsearch(Span::from_hay(hay)), Some(11..13));
    assert_eq!(searcher.rsearch(Span::from_parts(hay, 0..11)), Some(4..6));
    assert_eq!(searcher.rsearch(Span::from_parts(hay, 0..4)), None);
}

fn naive_starts(hay: &[u8], needle: &[u8]) -> Vec<usize> {
    let mut out = Vec::new();
    let mut i = 0;
    while i + needle.len() <= hay.len() {
        if &hay[i..i + needle.len()] == needle {
            out.push(i);
            i += needle.len();
        } else {
            i += 1;
        }
    }
    out
}

#[test]
fn two_way_agrees_with_naive_search() {
    let alphabet = [b'a', b'b', b'c'];
    let mut seed: u32 = 12345;
    let mut next = || {
        seed = seed.wrapping_mul(1103515245).wrapping_add(12345);
        (seed >> 16) as usize
    };
    for _ in 0..400 {
        let hay: Vec<u8> = (0..(next() % 40)).map(|_| alphabet[next() % 3]).collect();
        let needle: Vec<u8> = (0..(1 + next() % 5)).map(|_| alphabet[next() % 3]).collect();
        assert_eq!(forward_starts(&hay, &needle), naive_starts(&hay, &needle));
    }
}

#[test]
fn two_way_long_and_short_periods() {
    // "aab" has a long period; "abab" a short one.
    for needle in [&b"aab"[..], &b"abab"[..], &b"acba"[..], &b"zzzz"[..]] {
        let hay = b"aabababacbazzzzzaab";
        let mut searcher = TwoWaySearcher::new(needle);
        let found = searcher.next(hay, 0..hay.len());
        let first = naive_starts(hay, needle).first().map(|&s| s..s + needle.len());
        assert_eq!(found, first);
    }
}

#[test]
fn maximal_suffix_of_small_words() {
    assert_eq!(maximal_suffix(&b"aab"[..], Ordering::Less), (2, 1));
    assert_eq!(maximal_suffix(&b"aab"[..], Ordering::Greater), (0, 3));
}

#[test]
fn byteset_skip_with_absent_tail() {
    let mut searcher = SliceSearcher::new(&b"abc"[..]);
    assert_eq!(searcher.match_ranges(b"xxxxxxabcxxabc"), vec![6..9, 11..14]);
}

#[test]
fn wide_elements_use_full_mask() {
    let hay: Vec<u64> = vec![7, 1, 2, 1, 2, 1, 2, 3];
    let mut searcher = SliceSearcher::new(&[1u64, 2, 3][..]);
    assert_eq!(searcher.match_ranges(&hay), vec![5..8]);
}

#[test]
fn empty_pattern_matches_every_boundary_of_text() {
    let mut searcher = EmptySearcher::new();
    let found = searcher.match_ranges("abc");
    assert_eq!(found, vec![0..0, 1..1, 2..2, 3..3]);
}

#[test]
fn empty_pattern_in_multibyte_text() {
    let mut searcher = EmptySearcher::new();
    let found = searcher.match_ranges("a風b");
    assert_eq!(found, vec![0..0, 1..1, 4..4, 5..5]);
}

#[test]
fn empty_pattern_over_empty_span() {
    let mut searcher = EmptySearcher::new();
    let hay: &[u8] = b"";
    assert_eq!(searcher.search(Span::from_hay(hay)), Some(0..0));
    assert_eq!(searcher.search(Span::from_hay(hay)), None);
    let mut searcher = SliceSearcher::new(&b""[..]);
    assert_eq!(searcher.match_ranges(b"ab"), vec![0..0, 1..1, 2..2]);
}

#[test]
fn empty_pattern_reverse() {
    let mut searcher = EmptySearcher::new();
    let hay = "a風";
    assert_eq!(searcher.rsearch(Span::from_hay(hay)), Some(4..4));
    assert_eq!(searcher.rsearch(Span::from_parts(hay, 0..4)), Some(1..1));
    assert_eq!(searcher.rsearch(Span::from_parts(hay, 0..1)), Some(0..0));
    assert_eq!(searcher.rsearch(Span::from_parts(hay, 0..0)), None);
    assert_eq!(searcher.consume(Span::from_parts(hay, 1..4)), Some(1));
    assert_eq!(searcher.rconsume(Span::from_parts(hay, 1..4)), Some(4));
    assert_eq!(searcher.trim_start(hay), 0);
    assert_eq!(searcher.trim_end(hay), 4);
}

#[test]
fn element_forward_and_reverse_agree() {
    let hay: Vec<u64> = vec![3, 1, 3, 3, 2, 3];
    let mut searcher = ElementSearcher::new(3u64);
    let forward = searcher.match_ranges(&hay);
    let mut reverse = searcher.rmatch_ranges(&hay);
    assert_eq!(forward, vec![0..1, 2..3, 3..4, 5..6]);
    reverse.reverse();
    assert_eq!(forward, reverse);
}

#[test]
fn element_consume_and_search_agree() {
    let hay: Vec<u64> = vec![3, 1, 3];
    let mut searcher = ElementSearcher::new(3u64);
    let span = Span::from_hay(&hay[..]);
    assert_eq!(searcher.consume(Span::from_hay(&hay[..])), Some(1));
    assert_eq!(searcher.search(span), Some(0..1));
    assert_eq!(searcher.consume(Span::from_parts(&hay[..], 1..3)), None);
    assert_eq!(searcher.rconsume(Span::from_parts(&hay[..], 1..3)), Some(2));
}

#[test]
fn element_trim_is_order_independent() {
    let hay: Vec<u8> = b"xyxyx".to_vec();
    let mut searcher = ElementSearcher::new(b'x');
    let a = searcher.trim_start(&hay);
    let b = searcher.trim_end(&hay[a..]);
    let c = searcher.trim_end(&hay);
    let d = searcher.trim_start(&hay[..c]);
    assert_eq!(&hay[a..a + b], b"yxy");
    assert_eq!(&hay[d..c], b"yxy");
    assert_eq!(searcher.trim_start(&hay[a..]), 0);
}

#[test]
fn checker_consume_and_prefix() {
    let hay: &[u8] = b"Aaaa!Aaaa";
    let mut checker = SliceChecker::new(&b"Aaaa"[..]);
    assert_eq!(checker.consume(Span::from_hay(hay)), Some(4));
    assert_eq!(checker.consume(Span::from_parts(hay, 1..9)), None);
    assert_eq!(checker.rconsume(Span::from_hay(hay)), Some(5));
    assert!(SliceChecker::new(&b"Aa"[..]).is_prefix_of(hay));
    assert!(!SliceChecker::new(&b"aa"[..]).is_prefix_of(hay));
    assert!(SliceChecker::new(&b"aa"[..]).is_suffix_of(hay));
    assert!(!SliceChecker::new(&b"Aaaa!Aaaa!"[..]).is_suffix_of(hay));
}

#[test]
fn span_parts_round_trip() {
    let hay: &[u8] = b"abcdef";
    let span = Span::from_parts(hay, 1..5);
    let span = span.slice_unchecked(2..4);
    let (h, r): (&[u8], Range<usize>) = span.into_parts();
    assert_eq!(h, hay);
    assert_eq!(r, 2..4);
}

#[test]
fn empty_pattern_forward_and_reverse_agree() {
    let hay = "a風b";
    let forward = EmptySearcher::new().match_ranges(hay);
    let mut reverse = EmptySearcher::new().rmatch_ranges(hay);
    assert_eq!(reverse, vec![5..5, 4..4, 1..1, 0..0]);
    reverse.reverse();
    assert_eq!(forward, reverse);
    let slice: &[u64] = &[9, 9];
    assert_eq!(EmptySearcher::new().match_ranges(slice), vec![0..0, 1..1, 2..2]);
}

#[test]
fn predicate_search_and_consume() {
    let hay: Vec<u64> = vec![1, 8, 3, 10, 5];
    let mut searcher = PredicateSearcher::new(|c: u64| c % 2 == 0);
    assert_eq!(searcher.search(Span::from_hay(&hay[..])), Some(1..2));
    assert_eq!(searcher.rsearch(Span::from_hay(&hay[..])), Some(3..4));
    assert_eq!(searcher.search(Span::from_parts(&hay[..], 4..5)), None);
    assert_eq!(searcher.consume(Span::from_parts(&hay[..], 1..5)), Some(2));
    assert_eq!(searcher.consume(Span::from_hay(&hay[..])), None);
    assert_eq!(searcher.rconsume(Span::from_parts(&hay[..], 0..4)), Some(3));
    assert_eq!(searcher.rconsume(Span::from_hay(&hay[..])), None);
}

#[test]
fn element_search_misses() {
    let hay: Vec<char> = "abc".chars().collect();
    let mut searcher = ElementSearcher::new('z');
    assert_eq!(searcher.search(Span::from_hay(&hay[..])), None);
    assert_eq!(searcher.rsearch(Span::from_hay(&hay[..])), None);
    assert_eq!(searcher.trim_start(&hay), 0);
    assert_eq!(searcher.trim_end(&hay), 3);
    assert_eq!(searcher.match_ranges(&hay), vec![]);
}

#[test]
fn byteset_of_bytes_and_wide_elements() {
    let searcher = TwoWaySearcher::new(&b"A!"[..]);
    assert!(searcher.byteset_contains(&b'A'));
    assert!(searcher.byteset_contains(&(b'A' + 64)));
    assert!(!searcher.byteset_contains(&b'B'));
    assert_eq!(TwoWaySearcher::<u8>::byteset_create(b"A!"), (1u64 << 1) | (1u64 << 33));
    assert_eq!(TwoWaySearcher::<u64>::byteset_create(&[5u64]), u64::MAX);
}

#[test]
fn factorizations_pass_their_check() {
    let mut seed: u32 = 777;
    let mut next = || {
        seed = seed.wrapping_mul(1103515245).wrapping_add(12345);
        (seed >> 16) as usize
    };
    for alphabet in [2usize, 3, 4] {
        for _ in 0..500 {
            let needle: Vec<u8> = (0..(1 + next() % 12)).map(|_| b'a' + (next() % alphabet) as u8).collect();
            let searcher = TwoWaySearcher::new(&needle);
            assert!(searcher.is_linear(), "needle {:?}", String::from_utf8_lossy(&needle));
        }
    }
}

fn naive_max_suffix(x: &[u8], greater_first: bool) -> usize {
    let mut best = 0;
    for t in 1..x.len() {
        let better = if greater_first { x[t..] > x[best..] } else {
            let a: Vec<u8> = x[t..].iter().map(|b| 255 - b).collect();
            let b: Vec<u8> = x[best..].iter().map(|b| 255 - b).collect();
            // a proper prefix still comes first under the reversed element order
            a > b
        };
        if better {
            best = t;
        }
    }
    best
}

fn smallest_period(x: &[u8]) -> usize {
    (1..=x.len()).find(|&p| (0..x.len() - p).all(|k| x[k] == x[k + p])).unwrap()
}

#[test]
fn suffix_scans_find_the_maximal_suffix() {
    let mut seed: u32 = 99;
    let mut next = || {
        seed = seed.wrapping_mul(1103515245).wrapping_add(12345);
        (seed >> 16) as usize
    };
    for _ in 0..600 {
        let x: Vec<u8> = (0..(1 + next() % 10)).map(|_| b'a' + (next() % 3) as u8).collect();
        assert_eq!(maximal_suffix(&x, Ordering::Less).0, naive_max_suffix(&x, true));
        assert_eq!(maximal_suffix(&x, Ordering::Greater).0, naive_max_suffix(&x, false));
        let rev: Vec<u8> = x.iter().rev().cloned().collect();
        let p = smallest_period(&x);
        let r = reverse_maximal_suffix(&x, p, Ordering::Less);
        assert!(r < p);
        assert_eq!(r, naive_max_suffix(&rev, true));
        let r = reverse_maximal_suffix(&x, p, Ordering::Greater);
        assert!(r < p);
        assert_eq!(r, naive_max_suffix(&rev, false));
    }
}
