use feox_server::pubsub::pattern::PatternTrie;

fn ids(found: &[(Vec<u8>, usize)]) -> Vec<usize> {
    let mut v: Vec<usize> = found.iter().map(|(_, id)| *id).collect();
    v.sort();
    v
}

#[test]
fn literal_pattern_matches_only_itself() {
    let mut trie = PatternTrie::new();
    trie.insert(b"news", 1);
    assert_eq!(ids(&trie.find_matches(b"news")), vec![1]);
    assert!(trie.find_matches(b"new").is_empty());
    assert!(trie.find_matches(b"newsy").is_empty());
}

#[test]
fn star_matches_any_suffix() {
    let mut trie = PatternTrie::new();
    trie.insert(b"news.*", 7);
    assert_eq!(ids(&trie.find_matches(b"news.sport")), vec![7]);
    assert_eq!(ids(&trie.find_matches(b"news.")), vec![7]);
    assert!(trie.find_matches(b"news").is_empty());
}

#[test]
fn question_mark_matches_one_byte() {
    let mut trie = PatternTrie::new();
    trie.insert(b"h?llo", 2);
    assert_eq!(ids(&trie.find_matches(b"hello")), vec![2]);
    assert_eq!(ids(&trie.find_matches(b"hallo")), vec![2]);
    assert!(trie.find_matches(b"hllo").is_empty());
}

#[test]
fn character_classes_and_ranges() {
    let mut trie = PatternTrie::new();
    trie.insert(b"h[ae]llo", 3);
    trie.insert(b"x[^e]y", 4);
    trie.insert(b"id[a-c]", 5);
    assert_eq!(ids(&trie.find_matches(b"hello")), vec![3]);
    assert!(trie.find_matches(b"hillo").is_empty());
    assert_eq!(ids(&trie.find_matches(b"xay")), vec![4]);
    assert!(trie.find_matches(b"xey").is_empty());
    assert_eq!(ids(&trie.find_matches(b"idb")), vec![5]);
    assert!(trie.find_matches(b"idd").is_empty());
}

#[test]
fn escaped_star_is_literal() {
    let mut trie = PatternTrie::new();
    trie.insert(b"a\\*", 6);
    assert_eq!(ids(&trie.find_matches(b"a*")), vec![6]);
    assert!(trie.find_matches(b"ab").is_empty());
}

#[test]
fn remove_reports_whether_it_removed() {
    let mut trie = PatternTrie::new();
    trie.insert(b"a*", 1);
    trie.insert(b"a*", 2);
    assert!(trie.remove(b"a*", 1));
    assert!(!trie.remove(b"a*", 1));
    assert_eq!(ids(&trie.find_matches(b"abc")), vec![2]);
    assert!(!trie.remove(b"zzz", 2));
}

#[test]
fn several_patterns_deliver_to_each_subscriber() {
    let mut trie = PatternTrie::new();
    trie.insert(b"*", 1);
    trie.insert(b"a*", 2);
    trie.insert(b"ab", 3);
    trie.insert(b"x*", 4);
    assert_eq!(ids(&trie.find_matches(b"ab")), vec![1, 2, 3]);
}

#[test]
fn get_all_patterns_lists_each_once() {
    let mut trie = PatternTrie::new();
    trie.insert(b"a*", 1);
    trie.insert(b"a*", 2);
    trie.insert(b"b?", 1);
    let mut all = trie.get_all_patterns();
    all.sort();
    assert_eq!(all, vec![b"a*".to_vec(), b"b?".to_vec()]);
}

#[test]
fn clear_forgets_everything() {
    let mut trie = PatternTrie::new();
    trie.insert(b"a*", 1);
    trie.clear();
    assert!(trie.find_matches(b"abc").is_empty());
    assert!(trie.get_all_patterns().is_empty());
}

#[test]
fn default_is_empty() {
    let trie = PatternTrie::default();
    assert!(trie.get_all_patterns().is_empty());
}

#[test]
fn range_from_byte_255_is_not_supported() {
    assert!(PatternTrie::is_supported_pattern(b"news.*"));
    assert!(PatternTrie::is_supported_pattern(b"[a-z]"));
    assert!(PatternTrie::is_supported_pattern(b"[abc"));
    assert!(!PatternTrie::is_supported_pattern(&[b'[', 0xff, b'-', b'a', b']']));
}

#[test]
fn subscribing_another_pattern_keeps_existing_deliveries() {
    let mut trie = PatternTrie::new();
    trie.insert(b"news.*", 1);
    trie.insert(b"h[ae]llo", 2);
    let before_news = ids(&trie.find_matches(b"news.sport"));
    let before_hello = ids(&trie.find_matches(b"hallo"));
    trie.insert(b"news.[xy]", 3);
    trie.insert(b"h[a-z]llo", 4);
    let after_news: Vec<usize> = ids(&trie.find_matches(b"news.sport")).into_iter().filter(|id| *id != 3).collect();
    let after_hello: Vec<usize> = ids(&trie.find_matches(b"hallo")).into_iter().filter(|id| *id != 4).collect();
    assert_eq!(before_news, after_news);
    assert_eq!(before_hello, after_hello);
    assert!(ids(&trie.find_matches(b"hbllo")).is_empty());
}

#[test]
fn remove_takes_every_copy_and_keeps_the_others() {
    let mut trie = PatternTrie::new();
    trie.insert(b"news.*", 1);
    trie.insert(b"news.*", 1);
    trie.insert(b"news.*", 2);
    trie.insert(b"sport.*", 1);
    assert!(trie.remove(b"news.*", 1));
    assert!(!trie.remove(b"news.*", 1));
    assert_eq!(ids(&trie.find_matches(b"news.today")), vec![2]);
    assert_eq!(ids(&trie.find_matches(b"sport.today")), vec![1]);
}
