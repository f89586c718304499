use textsearch::kmp::mk_pfx;
use textsearch::kmp::KMP;

#[test]
fn test_mk_pfx() {
    assert_eq!(
        mk_pfx(&("ababaca".chars().collect::<Vec<_>>())),
        vec![0, 0, 1, 2, 3, 0, 1],
    );

    assert_eq!(mk_pfx(&("aaba".chars().collect::<Vec<_>>())), vec![0, 1, 0, 1],);

    assert_eq!(mk_pfx(&("aaaa".chars().collect::<Vec<_>>())), vec![0, 1, 2, 3],);
}

#[test]
fn test_kmp() {
    let kmp = |pat: &str, text: &str| -> Vec<usize> {
        KMP::new(pat.chars().collect()).match_(&text.chars().collect::<Vec<char>>())
    };

    assert_eq!(kmp("ababaca", "ababaca"), vec![0]);

    assert_eq!(kmp("ab", "ababaca"), vec![0, 2]);

    assert_eq!(kmp("aaba", "aabaacaadaabaaba"), vec![0, 9, 12]);

    assert_eq!(kmp("foo", ""), vec![]);
}

#[test]
fn test_iterator() {
    let kmp = KMP::new("aaba".chars().collect());
    let text = "aabaacaadaabaaba".chars().collect::<Vec<char>>();
    let mut iter = kmp.match_iter(&text);
    assert_eq!(iter.next(), Some(0));
    assert_eq!(iter.next(), Some(9));
    assert_eq!(iter.next(), Some(12));
    assert_eq!(iter.next(), None);
}

#[test]
fn test_generic() {
    let kmp: KMP<usize> = KMP::new(vec![1, 1]);
    let arr: [usize; 4] = [1, 1, 1, 1];
    let mut iter = kmp.match_iter(&arr);
    assert_eq!(iter.next(), Some(0));
    assert_eq!(iter.next(), Some(1));
    assert_eq!(iter.next(), Some(2));
    assert_eq!(iter.next(), None);
}

#[test]
fn test_self_overlap() {
    // A self-overlapping pattern is found at every overlap position.
    let kmp = KMP::new("aa".chars().collect());
    let text = "aaaa".chars().collect::<Vec<char>>();
    assert_eq!(kmp.match_(&text), vec![0, 1, 2]);

    let mut iter = kmp.match_iter(&text);
    assert_eq!(iter.next(), Some(0));
    assert_eq!(iter.next(), Some(1));
    assert_eq!(iter.next(), Some(2));
    assert_eq!(iter.next(), None);
}

#[test]
fn test_kmp_eager_equals_lazy() {
    // The eager list and the lazily pulled sequence agree.
    let kmp = KMP::new("aba".chars().collect());
    let text = "abababa".chars().collect::<Vec<char>>();
    let eager = kmp.match_(&text);
    let mut lazy = Vec::new();
    let mut iter = kmp.match_iter(&text);
    while let Some(m) = iter.next() {
        lazy.push(m);
    }
    assert_eq!(eager, lazy);
    assert_eq!(eager, vec![0, 2, 4]);
}

#[test]
fn test_kmp_empty_text() {
    // An empty text yields no occurrences from either matcher.
    let kmp = KMP::new("xyz".chars().collect());
    let text: Vec<char> = Vec::new();
    assert_eq!(kmp.match_(&text), vec![]);
    let mut iter = kmp.match_iter(&text);
    assert_eq!(iter.next(), None);
}
