use trie::recycle::BufferPool;
use trie::trie::Node;

fn sample() -> Node {
    let mut trie = Node::new('\x00');
    let tests = vec!["brom", "broom", "brook", "brooks brothers"];
    for t in tests.iter() {
        trie.insert(t);
    }
    trie
}

fn sorted(mut v: Vec<String>) -> Vec<String> {
    v.sort();
    v
}

#[test]
fn trie_a() {
    let mut trie = Node::new('\x00');
    trie.insert("brom");
    let (c, sugs) = trie.lookup("cat", None, None);
    assert!(c == false);
    assert!(sugs.len() == 0);
}

#[test]
fn trie_b() {
    let mut trie = Node::new('\x00');
    trie.insert("brom");
    let (c, _sugs) = trie.lookup("brom", None, None);
    assert!(c);
}

#[test]
fn trie_c() {
    let mut trie = Node::new('\x00');
    let tests = vec!["brom", "broom", "brook", "brooks brothers"];
    for t in tests.iter() {
        trie.insert(t);
    }

    let (c, sugs) = trie.lookup("bro", None, None);

    assert!(!c);
    for t in tests.iter() {
        println!("testing {}", t);
        assert!(sugs.contains(&t.to_string()));
        assert!(sugs.len() == tests.len());
        println!("\t{} ok!", t);
    }

    let (c, sugs) = trie.lookup("brom", None, None);
    assert!(c);
    assert!(sugs.len() == 1);

    let (_c, sugs) = trie.lookup("bro", None, Some(2));
    assert!(sugs.len() == 2);

    let (_c, sugs) = trie.lookup("bro", Some(4), None);
    println!("testing {:?}", sugs);
    assert!(sugs.len() == 1);
}

#[test]
fn d() {
    let mut trie = Node::new('\x00');
    let tests = vec!["brom", "broom", "brook", "brooks brothers"];
    for t in tests.iter() {
        trie.insert(t);
    }

    let (_c, sugs) = trie.lookup("bro", None, Some(2));
    println!("testing bro limit 2 {:?}", sugs);
    assert!(sugs.len() == 2);

    let (_c, sugs) = trie.lookup("bro", Some(4), None);
    println!("testing bro length 4 {:?}", sugs);
    assert!(sugs.len() == 1);
}

#[test]
fn round_trip_each_word() {
    let words = vec!["a", "ab", "zebra", "héllo", "x y z"];
    let mut trie = Node::new('\x00');
    for w in words.iter() {
        trie.insert(w);
        assert!(trie.lookup(w, None, None).0);
    }
    for w in words.iter() {
        assert!(trie.lookup(w, None, None).0);
    }
}

#[test]
fn empty_trie_lookup_is_negative() {
    let trie = Node::new('\x00');
    for p in ["a", "bro", "zz"].iter() {
        let (c, sugs) = trie.lookup(p, None, None);
        assert!(!c);
        assert!(sugs.is_empty());
    }
}

#[test]
fn empty_trie_empty_prefix_yields_root() {
    let trie = Node::new('\x00');
    let (c, sugs) = trie.lookup("", None, None);
    assert!(!c);
    assert_eq!(sugs, vec![String::new()]);
}

#[test]
fn prefix_completeness_exact_set() {
    let trie = sample();
    let (c, sugs) = trie.lookup("bro", None, None);
    assert!(!c);
    assert_eq!(
        sorted(sugs),
        vec![
            "brom".to_string(),
            "brook".to_string(),
            "brooks brothers".to_string(),
            "broom".to_string()
        ]
    );
}

#[test]
fn exact_match_is_single_completion() {
    let trie = sample();
    let (c, sugs) = trie.lookup("brom", None, None);
    assert!(c);
    assert_eq!(sugs, vec!["brom".to_string()]);
}

#[test]
fn limit_truncates_to_distinct_completions() {
    let trie = sample();
    let all = trie.lookup("bro", None, None).1;
    let (_c, sugs) = trie.lookup("bro", None, Some(2));
    assert_eq!(sugs.len(), 2);
    assert_ne!(sugs[0], sugs[1]);
    for s in sugs.iter() {
        assert!(all.contains(s));
    }
    assert!(trie.lookup("bro", None, Some(0)).1.is_empty());
    assert_eq!(trie.lookup("bro", None, Some(10)).1.len(), 4);
}

#[test]
fn depth_bounds_total_length() {
    let trie = sample();
    let (_c, sugs) = trie.lookup("bro", Some(4), None);
    assert_eq!(sugs, vec!["brom".to_string()]);
    let (_c, sugs) = trie.lookup("bro", Some(5), None);
    assert_eq!(sorted(sugs), vec!["brom".to_string(), "brook".to_string(), "broom".to_string()]);
    // a bound below the prefix's own length still reports the prefix's vertex
    let (c, sugs) = trie.lookup("brom", Some(1), None);
    assert!(c);
    assert_eq!(sugs, vec!["brom".to_string()]);
}

#[test]
fn nested_words_are_all_reported() {
    let trie = sample();
    let (c, sugs) = trie.lookup("brook", None, None);
    assert!(c);
    assert_eq!(sorted(sugs), vec!["brook".to_string(), "brooks brothers".to_string()]);
}

#[test]
fn empty_word_marks_root() {
    let mut trie = Node::new('\x00');
    assert!(!trie.lookup("", None, None).0);
    trie.insert("");
    assert!(trie.lookup("", None, None).0);
    trie.insert("ab");
    let (c, sugs) = trie.lookup("", None, None);
    assert!(c);
    assert_eq!(sorted(sugs), vec!["".to_string(), "ab".to_string()]);
}

#[test]
fn idempotent_insertion() {
    let mut once = sample();
    let mut twice = sample();
    once.insert("brook");
    twice.insert("brook");
    twice.insert("brook");
    for p in ["", "b", "bro", "brook", "brooks", "x"].iter() {
        let (c1, s1) = once.lookup(p, None, None);
        let (c2, s2) = twice.lookup(p, None, None);
        assert_eq!(c1, c2);
        assert_eq!(sorted(s1), sorted(s2));
    }
}

#[test]
fn pool_and_plain_agree() {
    let words = vec!["brom", "broom", "brook", "brooks brothers", "cat", "car", "", "brom"];
    let mut plain = Node::new('\x00');
    let mut pooled = Node::new('\x00');
    let mut pool = BufferPool::with_size(4);
    for w in words.iter() {
        plain.insert(w);
        pooled.insert_bypool(w, &mut pool);
    }
    for p in ["", "b", "bro", "brom", "brook", "ca", "car", "dog"].iter() {
        for depth in [None, Some(3), Some(5)].iter() {
            let (c1, s1) = plain.lookup(p, *depth, None);
            let (c2, s2) = pooled.lookup(p, *depth, None);
            assert_eq!(c1, c2);
            assert_eq!(sorted(s1), sorted(s2));
        }
    }
}

#[test]
fn pool_smaller_than_needs() {
    let mut pooled = Node::new('!');
    let mut pool = BufferPool::with_size(0);
    pooled.insert_bypool("abcdef", &mut pool);
    assert!(pooled.lookup("abcdef", None, None).0);
    assert!(!pooled.lookup("abc", None, None).0);
    assert_eq!(pooled.lookup("abc", None, None).1, vec!["abcdef".to_string()]);
}
