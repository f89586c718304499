use textsearch::aho_corasick::AhoCorasick;

#[test]
fn test_trie() {
    let mut ac = AhoCorasick::new();
    ac.add_keyword("hers");
    ac.add_keyword("his");
    ac.add_keyword("she");

    assert_eq!(ac.match_("she"), vec![(0, "she".to_string())]);

    assert_eq!(ac.match_("    she"), vec![(4, "she".to_string())]);

    assert_eq!(ac.match_("  hers "), vec![(2, "hers".to_string())]);

    assert_eq!(ac.match_(" his"), vec![(1, "his".to_string())]);

    assert_eq!(
        ac.match_(" she hers his "),
        vec![
            (1, "she".to_string()),
            (5, "hers".to_string()),
            (10, "his".to_string())
        ]
    );

    assert_eq!(
        ac.match_("hershe"),
        vec![(0, "hers".to_string()), (3, "she".to_string())]
    );

    // overlapping matches
    assert_eq!(
        ac.match_("hishe"),
        vec![(0, "his".to_string()), (2, "she".to_string())]
    );
}

#[test]
fn test_trie_2() {
    let mut ac = AhoCorasick::new();
    ac.add_keyword("fo");
    ac.add_keyword("xfoo");
    ac.add_keyword("bar");
    ac.add_keyword("bax");

    // We start matching "xfoo", but after "xfo" we fail, and fail state has an output.
    assert_eq!(
        ac.match_("xfobaxbar"),
        vec![
            (1, "fo".to_string()),
            (3, "bax".to_string()),
            (6, "bar".to_string())
        ]
    );
}

#[test]
fn test_trie_iterator() {
    let mut ac = AhoCorasick::new();
    ac.add_keyword("hers");
    ac.add_keyword("his");
    ac.add_keyword("she");

    let mut iter = ac.match_iter(" she hers his ");
    assert_eq!(iter.next(), Some((1, "she".to_string())));
    assert_eq!(iter.next(), Some((5, "hers".to_string())));
    assert_eq!(iter.next(), Some((10, "his".to_string())));
    assert_eq!(iter.next(), None);

    // overlapping matches
    let mut iter = ac.match_iter("hishe");
    assert_eq!(iter.next(), Some((0, "his".to_string())));
    assert_eq!(iter.next(), Some((2, "she".to_string())));
    assert_eq!(iter.next(), None);

    let mut ac = AhoCorasick::new();
    ac.add_keyword("fo");
    ac.add_keyword("xfoo");
    ac.add_keyword("bar");
    ac.add_keyword("bax");

    let mut iter = ac.match_iter("xfobaxbar");
    assert_eq!(iter.next(), Some((1, "fo".to_string())));
    assert_eq!(iter.next(), Some((3, "bax".to_string())));
    assert_eq!(iter.next(), Some((6, "bar".to_string())));
    assert_eq!(iter.next(), None);
}

#[test]
fn test_eager_equals_lazy() {
    // The eager list and the lazily pulled sequence agree, pair for pair.
    let mut ac = AhoCorasick::new();
    ac.add_keyword("he");
    ac.add_keyword("she");
    ac.add_keyword("hers");
    let text = "ushers she hers";
    let eager = ac.match_(text);
    let mut lazy = Vec::new();
    let mut iter = ac.match_iter(text);
    while let Some(m) = iter.next() {
        lazy.push(m);
    }
    assert_eq!(eager, lazy);
}

#[test]
fn test_rebuild_idempotent() {
    // Rebuilding without an intervening insertion changes nothing: repeated
    // builds and repeated matches give identical results.
    let mut ac = AhoCorasick::new();
    ac.add_keyword("aba");
    ac.add_keyword("ba");
    ac.build();
    ac.build();
    let first = ac.match_("ababa");
    ac.build();
    let second = ac.match_("ababa");
    assert_eq!(first, second);
    assert_eq!(
        first,
        vec![
            (0, "aba".to_string()),
            (1, "ba".to_string()),
            (2, "aba".to_string()),
            (3, "ba".to_string())
        ]
    );
}

#[test]
fn test_insert_after_build() {
    // Inserting a keyword after a build, then matching, behaves exactly as
    // if it had been inserted before any build.
    let mut ac = AhoCorasick::new();
    ac.add_keyword("his");
    ac.add_keyword("she");
    let _ = ac.match_("hishe");
    ac.add_keyword("hers");
    let after = ac.match_("hershe");

    let mut fresh = AhoCorasick::new();
    fresh.add_keyword("his");
    fresh.add_keyword("she");
    fresh.add_keyword("hers");
    let before = fresh.match_("hershe");

    assert_eq!(after, before);
    assert_eq!(
        after,
        vec![(0, "hers".to_string()), (3, "she".to_string())]
    );
}

#[test]
fn test_duplicate_keyword_reported_twice() {
    // Re-inserting the same literal creates a second keyword index, and each
    // occurrence is reported once per index.
    let mut ac = AhoCorasick::new();
    ac.add_keyword("ab");
    ac.add_keyword("ab");
    let matches = ac.match_("ab");
    assert_eq!(matches.len(), 2);
    assert_eq!(matches[0], (0, "ab".to_string()));
    assert_eq!(matches[1], (0, "ab".to_string()));
}

#[test]
fn test_boundaries() {
    // An empty text yields nothing; a keyword-less automaton yields nothing.
    let mut ac = AhoCorasick::new();
    ac.add_keyword("abc");
    assert_eq!(ac.match_(""), vec![]);
    let mut iter = ac.match_iter("");
    assert_eq!(iter.next(), None);

    let mut empty = AhoCorasick::new();
    assert_eq!(empty.match_("any text at all"), vec![]);
    let mut iter = empty.match_iter("any text at all");
    assert_eq!(iter.next(), None);
}

#[test]
fn test_offsets_in_symbols() {
    // Offsets are counted in symbols, not in encoded storage units.
    let mut ac = AhoCorasick::new();
    ac.add_keyword("bär");
    assert_eq!(ac.match_("ööbär"), vec![(2, "bär".to_string())]);
}
