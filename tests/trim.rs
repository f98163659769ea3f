use pattern_3::single::PredicateSearcher;
use pattern_3::slice::SliceChecker;

fn trim_by<'a, F: Fn(u64) -> bool>(a: &'a [u64], pred: F) -> &'a [u64] {
    let mut searcher = PredicateSearcher::new(pred);
    let start = searcher.trim_start(a);
    let rest = &a[start..];
    let end = searcher.trim_end(rest);
    &rest[..end]
}

fn trim_str<F: Fn(char) -> bool>(s: &str, pred: F) -> &str {
    let mut searcher = PredicateSearcher::new(pred);
    let start = searcher.trim_start_str(s);
    let rest = &s[start..];
    let end = searcher.trim_end_str(rest);
    &rest[..end]
}

fn trim_start_str<F: Fn(char) -> bool>(s: &str, pred: F) -> &str {
    let mut searcher = PredicateSearcher::new(pred);
    &s[searcher.trim_start_str(s)..]
}

fn trim_str_by_char(s: &str, c: char) -> &str {
    let mut buf = [0u8; 4];
    let pat = c.encode_utf8(&mut buf);
    let mut checker = SliceChecker::new(pat.as_bytes());
    let start = checker.trim_start(s.as_bytes());
    let rest = &s[start..];
    let end = checker.trim_end(rest.as_bytes());
    &rest[..end]
}

#[test]
fn test_trim_slice_fn() {
    fn sw1(a: &[u64], b: u64) -> &[u64] {
        trim_by(a, |c: u64| c == b)
    }

    const E: &[u64] = &[];
    assert_eq!(&[2, 3, 4], sw1(&[1, 2, 3, 4], 1));
    assert_eq!(&[4, 3, 2], sw1(&[4, 3, 2, 1, 1], 1));
    assert_eq!(&[1, 5, 2, 8], sw1(&[1, 5, 2, 8], 4));
    assert_eq!(E, sw1(&[6, 6, 6, 6], 6));
    assert_eq!(E, sw1(E, 23));
    assert_eq!(E, sw1(&[24], 24));
    assert_eq!(&[5], sw1(&[5], 25));
    assert_eq!(&[75, 6, 77], sw1(&[6, 6, 75, 6, 77, 6, 6, 6], 6));
}

#[test]
fn test_trim_string_char() {
    fn trim_string_char(s: &str, c: char) -> &str {
        trim_str_by_char(s, c)
    }

    assert_eq!("", trim_string_char("aaaaaaaa", 'a'));
    assert_eq!("bbaabb", trim_string_char("abbaabbaaa", 'a'));
    assert_eq!("baaab", trim_string_char("baaab", 'a'));
    assert_eq!("颫颫", trim_string_char("風風風颫颫風", '風'));
    assert_eq!("風風風颫颫風", trim_string_char("風風風颫颫風", '颫'));
    assert_eq!("", trim_string_char("風風風", '風'));
    assert_eq!("風風風", trim_string_char("風風風", '颫'));
    assert_eq!("", trim_string_char("", 'a'));
    assert_eq!("", trim_string_char("", '風'));
}

#[test]
fn test_trim_string_fn() {
    assert_eq!("", trim_str("abcdefg", |c: char| c.is_ascii()));
    assert_eq!("αbβcγdδeε", trim_start_str("aαbβcγdδeε", |c: char| c.is_ascii()));
    assert_eq!("abcdefg", trim_str("abcdefg", |c: char| !c.is_ascii()));
    assert_eq!("aαbβcγdδe", trim_str("aαbβcγdδeε", |c: char| !c.is_ascii()));
}

#[test]
fn text_trim_by_absent_char_keeps_text() {
    assert_eq!("風風風颫颫風", trim_str_by_char("風風風颫颫風", '颫'));
    assert_eq!("颫颫", trim_str_by_char("風風風颫颫風", '風'));
}

#[test]
fn text_trim_end_by_predicate() {
    let mut searcher = PredicateSearcher::new(|c: char| c == '風');
    assert_eq!(searcher.trim_end_str("颫風風"), 3);
    assert_eq!(searcher.trim_start_str("風風颫"), 6);
    assert_eq!(searcher.trim_start_str(""), 0);
}
