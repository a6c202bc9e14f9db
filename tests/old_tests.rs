use trie::trie_old::Node;

#[test]
fn main_a() {
    let mut trie = Node::new('\x00');
    trie.insert("brom".to_string());
    let (c, sugs) = trie.lookup("cat".to_string());
    assert!(c == false);
    assert!(sugs.len() == 0);
}

#[test]
fn main_b() {
    let mut trie = Node::new('\x00');
    trie.insert("brom".to_string());
    let (c, _sugs) = trie.lookup("brom".to_string());
    assert!(c);
}

#[test]
fn main_c() {
    let mut trie = Node::new('\x00');

    let tests = vec!["brom", "broom", "brook", "brooks brothers"];

    for t in tests.iter() {
        trie.insert(t.to_string());
    }

    let (c, sugs) = trie.lookup("bro".to_string());
    assert!(!c);
    for t in tests.iter() {
        println!("testing {}", t);
        assert!(sugs.contains(&t.to_string()));
        println!("\t{} ok!", t);
    }

    let (c, sugs) = trie.lookup("brom".to_string());
    assert!(c);
    assert!(sugs.len() == 1);
}
