use editor_text::text::tokenizer::Tokenizer;
use editor_text::text::trie::Trie;

fn words(trie: &Trie, prefix: &str) -> Vec<String> {
    trie.traverse(prefix)
}

#[test]
fn traverse_lists_longer_words_with_the_prefix() {
    let mut trie = Trie::new();
    trie.clear();
    trie.insert("hello");
    trie.insert("help");
    trie.insert("hi");
    trie.insert("he");
    assert_eq!(words(&trie, "he"), vec!["hello", "help"]);
    assert_eq!(words(&trie, "h"), vec!["he", "hello", "help", "hi"]);
    assert_eq!(words(&trie, "x"), Vec::<String>::new());
    assert_eq!(words(&trie, "hello"), Vec::<String>::new());
}

#[test]
fn inserting_twice_lists_once() {
    let mut trie = Trie::new();
    trie.clear();
    trie.insert("abc");
    trie.insert("abc");
    assert_eq!(words(&trie, ""), vec!["abc"]);
}

#[test]
fn many_children_make_room() {
    let mut trie = Trie::new();
    trie.clear();
    let letters = "abcdefghijklmnopqrstuvwxyz";
    for c in letters.chars() {
        trie.insert(&format!("x{}", c));
    }
    let expected: Vec<String> = letters.chars().map(|c| format!("x{}", c)).collect();
    assert_eq!(words(&trie, "x"), expected);
}

#[test]
fn clear_forgets_every_word() {
    let mut trie = Trie::new();
    trie.clear();
    trie.insert("word");
    trie.clear();
    assert_eq!(words(&trie, ""), Vec::<String>::new());
}

#[test]
fn unicode_words() {
    let mut trie = Trie::new();
    trie.clear();
    trie.insert("héllo");
    trie.insert("hé");
    assert_eq!(words(&trie, "h"), vec!["hé", "héllo"]);
}

#[test]
fn tokenize_collects_identifiers() {
    let mut tokenizer = Tokenizer::new();
    let lines = vec!["fn main() {".to_string(), "let x_1 = y;".to_string(), "main".to_string()];
    tokenizer.tokenize(&lines);
    assert_eq!(tokenizer.tokens().traverse("m"), vec!["main"]);
    assert_eq!(tokenizer.tokens().traverse("x"), vec!["x_1"]);
    assert_eq!(tokenizer.tokens().traverse(""), vec!["fn", "main", "let", "x_1", "y"]);
    tokenizer.tokenize(&["other".to_string()]);
    assert_eq!(tokenizer.tokens().traverse(""), vec!["other"]);
}
