use spellcheck::dictionary_loader::{parse_count, parse_i32};
use spellcheck::text::split_tokens;
use spellcheck::{
    AffixEntry, AffixRule, AffixRules, CandidateBuf, DictionaryLoader, LoadError, SpellChecker, Trie, TrieNode,
};

fn lines(text: &[&str]) -> Vec<String> {
    text.iter().map(|s| s.to_string()).collect()
}

fn dic(text: &[&str]) -> Vec<Option<String>> {
    text.iter().map(|s| Some(s.to_string())).collect()
}

fn entry(strip: &str, add: &str, condition: &str) -> AffixEntry {
    AffixEntry {
        strip: strip.to_string(),
        add: add.to_string(),
        condition: condition.to_string(),
    }
}

fn rule(rule_type: &str, flag: &str, entries: Vec<AffixEntry>) -> AffixRule {
    AffixRule {
        rule_type: rule_type.to_string(),
        flag: flag.to_string(),
        cross_product: true,
        entries,
    }
}

fn checker(dic_text: &[&str], aff: &[&str]) -> SpellChecker {
    match SpellChecker::from_lines(&dic(dic_text), &lines(aff)) {
        Ok(c) => c,
        Err(e) => panic!("lexicon refused: {:?}", e),
    }
}

#[test]
fn trie_node_starts_empty() {
    let n = TrieNode::new();
    assert!(n.children.is_empty());
    assert!(!n.is_end_of_word);
}

#[test]
fn trie_finds_inserted_words_only() {
    let mut t = Trie::new();
    t.insert("cart");
    t.insert("care");
    t.insert("dog");
    assert!(t.search("cart"));
    assert!(t.search("care"));
    assert!(t.search("dog"));
    assert!(!t.search("car"));
    assert!(!t.search("carts"));
    assert!(!t.search("do"));
    assert!(!t.search("cat"));
    assert!(!t.search(""));
}

#[test]
fn trie_insert_is_idempotent_and_exact() {
    let mut t = Trie::new();
    t.insert("héllo");
    t.insert("héllo");
    assert!(t.search("héllo"));
    assert!(!t.search("hello"));
    assert!(!t.search("Héllo"));
    t.insert("");
    assert!(t.search(""));
}

#[test]
fn trie_from_words_holds_exactly_them() {
    let t = Trie::from_words(&lines(&["a", "ab", "b"]));
    assert!(t.search("a"));
    assert!(t.search("ab"));
    assert!(t.search("b"));
    assert!(!t.search("ba"));
    assert!(!t.search("abc"));
}

#[test]
fn base_words_suffix_rule() {
    let mut rules = AffixRules::new();
    rules.add_rule(rule("SFX", "X", vec![entry("", "ing", "")]));
    let mut out = CandidateBuf::new();
    rules.find_base_words_into("testing", &mut out);
    assert_eq!(out.to_vec(), vec!["test".to_string()]);
}

#[test]
fn base_words_fall_back_to_word() {
    let rules = AffixRules::new();
    let mut out = CandidateBuf::new();
    rules.find_base_words_into("walk", &mut out);
    assert_eq!(out.to_vec(), vec!["walk".to_string()]);
    let mut rules = AffixRules::new();
    rules.add_rule(rule("SFX", "X", vec![entry("", "ing", "")]));
    let mut out = CandidateBuf::new();
    rules.find_base_words_into("walked", &mut out);
    assert_eq!(out.to_vec(), vec!["walked".to_string()]);
}

#[test]
fn base_words_keep_what_was_there() {
    let mut rules = AffixRules::new();
    rules.add_rule(rule("SFX", "X", vec![entry("", "ing", "")]));
    let mut out = CandidateBuf::new();
    out.push("seed".to_string());
    rules.find_base_words_into("walk", &mut out);
    assert_eq!(out.to_vec(), vec!["seed".to_string()]);
}

#[test]
fn base_words_whole_word_needs_zero_strip() {
    let mut rules = AffixRules::new();
    rules.add_rule(rule("SFX", "A", vec![entry("", "ing", "")]));
    rules.add_rule(rule("PFX", "B", vec![entry("0", "ing", "")]));
    let mut out = CandidateBuf::new();
    rules.find_base_words_into("ing", &mut out);
    assert_eq!(out.to_vec(), vec!["".to_string()]);
}

#[test]
fn zero_strip_prefix_removes_add_length() {
    let mut rules = AffixRules::new();
    rules.add_rule(rule("PFX", "U", vec![entry("0", "un", "")]));
    let mut out = CandidateBuf::new();
    rules.find_base_words_into("undo", &mut out);
    assert_eq!(out.to_vec(), vec!["do".to_string()]);
    assert_eq!(out.to_vec()[0].chars().count(), "undo".chars().count() - 2);
}

#[test]
fn base_words_try_every_bucket() {
    let mut rules = AffixRules::new();
    rules.add_rule(rule("SFX", "S", vec![entry("", "s", ""), entry("", "es", "")]));
    rules.add_rule(rule("PFX", "R", vec![entry("", "re", "")]));
    rules.add_rule(rule("SFX", "S", vec![entry("", "xes", "")]));
    let mut out = CandidateBuf::new();
    rules.find_base_words_into("reboxes", &mut out);
    let mut got = out.to_vec();
    // within one flag the rules keep their order
    let s_pos: Vec<usize> = ["reboxe", "rebox", "rebo"]
        .iter()
        .map(|w| got.iter().position(|g| g == w).unwrap())
        .collect();
    assert!(s_pos[0] < s_pos[1] && s_pos[1] < s_pos[2]);
    got.sort();
    assert_eq!(
        got,
        vec![
            "boxes".to_string(),
            "rebo".to_string(),
            "rebox".to_string(),
            "reboxe".to_string()
        ]
    );
}

#[test]
fn base_words_ignore_unknown_rule_type() {
    let mut rules = AffixRules::new();
    rules.add_rule(rule("XFX", "Q", vec![entry("", "s", "")]));
    let mut out = CandidateBuf::new();
    rules.find_base_words_into("cats", &mut out);
    assert_eq!(out.to_vec(), vec!["cats".to_string()]);
}

#[test]
fn find_base_words_is_a_set() {
    let mut rules = AffixRules::new();
    rules.add_rule(rule("SFX", "A", vec![entry("", "s", "")]));
    rules.add_rule(rule("SFX", "B", vec![entry("", "s", "")]));
    let found = rules.find_base_words("cats");
    assert_eq!(found.len(), 1);
    assert!(found.contains("cat"));
    let none = AffixRules::new().find_base_words("cats");
    assert_eq!(none.len(), 1);
    assert!(none.contains("cats"));
}

#[test]
fn dictionary_reads_declared_count() {
    let mut t = Trie::new();
    let r = DictionaryLoader::read_dictionary(&dic(&["2", "cat", "run", "dog"]), &mut t);
    assert_eq!(r, Ok(2));
    assert!(t.search("cat"));
    assert!(t.search("run"));
    assert!(!t.search("dog"));
}

#[test]
fn dictionary_tolerates_short_file() {
    let mut t = Trie::new();
    let r = DictionaryLoader::read_dictionary(&dic(&["5", "a", "b"]), &mut t);
    assert_eq!(r, Ok(2));
    assert!(t.search("a"));
    assert!(t.search("b"));
}

#[test]
fn dictionary_drops_flags() {
    let mut t = Trie::new();
    let r = DictionaryLoader::read_dictionary(&dic(&["2", "hello/AB", "x/y/z"]), &mut t);
    assert_eq!(r, Ok(2));
    assert!(t.search("hello"));
    assert!(!t.search("hello/AB"));
    assert!(t.search("x"));
}

#[test]
fn dictionary_missing_count() {
    let mut t = Trie::new();
    let r = DictionaryLoader::read_dictionary(&Vec::new(), &mut t);
    assert_eq!(r, Err(LoadError::MissingCount));
}

#[test]
fn dictionary_invalid_count() {
    let mut t = Trie::new();
    let r = DictionaryLoader::read_dictionary(&dic(&["two", "cat"]), &mut t);
    assert_eq!(r, Err(LoadError::InvalidCount));
    assert!(!t.search("cat"));
    let r = DictionaryLoader::read_dictionary(&dic(&["-1", "cat"]), &mut t);
    assert_eq!(r, Err(LoadError::InvalidCount));
    let r = DictionaryLoader::read_dictionary(&dic(&[" 1", "cat"]), &mut t);
    assert_eq!(r, Err(LoadError::InvalidCount));
}

#[test]
fn counts_parse_like_std() {
    assert_eq!(parse_count("12"), Some(12));
    assert_eq!(parse_count("+7"), Some(7));
    assert_eq!(parse_count("+"), None);
    assert_eq!(parse_count(""), None);
    assert_eq!(parse_count("1a"), None);
    assert_eq!(parse_count("18446744073709551615"), Some(usize::MAX));
    assert_eq!(parse_count("18446744073709551616"), None);
    assert_eq!(parse_i32("-5"), Some(-5));
    assert_eq!(parse_i32("2147483647"), Some(i32::MAX));
    assert_eq!(parse_i32("2147483648"), None);
    assert_eq!(parse_i32("-2147483648"), Some(i32::MIN));
    assert_eq!(parse_i32("-"), None);
}

#[test]
fn tokens_split_on_white_space() {
    assert_eq!(
        split_tokens("  SFX\tX  0 ing\u{3000}x "),
        vec!["SFX", "X", "0", "ing", "x"]
    );
    assert!(split_tokens("   ").is_empty());
}

#[test]
fn affix_file_rules_and_entries() {
    let rules = DictionaryLoader::parse_affix_rules(&lines(&[
        "# comment",
        "",
        "SFX X Y 2",
        "SFX X 0 ing 0",
        "SFX Z 0",
        "SFX X e ed [^y]",
        "PFX U N 1",
        "PFX U 0 un .",
        "PFX V N 3",
        "PFX V 0 re .",
    ]));
    assert_eq!(rules.len(), 2);
    assert_eq!(rules[0].rule_type, "SFX");
    assert_eq!(rules[0].flag, "X");
    assert!(rules[0].cross_product);
    assert_eq!(rules[0].entries.len(), 2);
    assert_eq!(rules[0].entries[0].strip, "");
    assert_eq!(rules[0].entries[0].add, "ing");
    assert_eq!(rules[0].entries[0].condition, "0");
    assert_eq!(rules[0].entries[1].strip, "e");
    assert_eq!(rules[0].entries[1].condition, "[^y]");
    assert_eq!(rules[1].rule_type, "PFX");
    assert!(!rules[1].cross_product);
    assert_eq!(rules[1].entries[0].add, "un");
}

#[test]
fn affix_file_zero_count_never_completes() {
    let rules = DictionaryLoader::parse_affix_rules(&lines(&[
        "SFX X Y 0",
        "SFX X 0 s .",
        "SFX X 0 es .",
        "SFX Y Y bad",
        "SFX Y 0 s",
    ]));
    assert!(rules.is_empty());
}

#[test]
fn check_known_word() {
    let mut c = checker(&["2", "cat", "run"], &[]);
    assert!(c.check("cat"));
    assert!(!c.check("dog"));
}

#[test]
fn check_twice_same_answer() {
    let mut c = checker(&["1", "hello"], &[]);
    let first = c.check("hello");
    let count = c.cache_len();
    let second = c.check("hello");
    assert_eq!(first, second);
    assert_eq!(c.cache_len(), count);
    let first = c.check("nope");
    assert_eq!(first, c.check("nope"));
}

#[test]
fn check_ignores_case() {
    let mut c = checker(&["1", "hello"], &[]);
    assert_eq!(c.check("Hello"), c.check("hello"));
    assert!(c.check("HELLO"));
    let mut c = checker(&["1", "straße"], &[]);
    assert!(c.check("STRAßE"));
}

#[test]
fn check_suffix_derivation() {
    let mut c = checker(&["1", "test"], &["SFX X Y 1", "SFX X 0 ing 0"]);
    assert!(c.check("testing"));
    assert!(!c.check("resting"));
}

#[test]
fn check_prefix_derivation() {
    let mut c = checker(&["1", "do"], &["PFX U N 1", "PFX U 0 un ."]);
    assert!(c.check("undo"));
    assert!(c.check("UNDO"));
    assert!(!c.check("redo"));
}

#[test]
fn check_many_candidates_in_parallel() {
    let mut c = checker(
        &["1", "box"],
        &[
            "SFX A Y 1",
            "SFX A 0 s .",
            "SFX B Y 1",
            "SFX B 0 es .",
            "SFX C Y 1",
            "SFX C 0 xes .",
            "SFX D Y 1",
            "SFX D 0 oxes .",
        ],
    );
    assert!(c.check("boxes"));
    assert!(!c.check("foxes"));
}

#[test]
fn cache_stays_within_capacity() {
    let mut c = checker(&["1", "w5"], &[]);
    let cap = c.cache_capacity();
    assert_eq!(cap, 10000);
    for i in 0..(cap + 500) {
        let word = format!("w{}", i);
        assert_eq!(c.check(&word), i == 5);
        assert!(c.cache_len() <= cap);
        if i + 1 == cap {
            assert_eq!(c.cache_len(), cap);
        }
        if i == cap {
            assert_eq!(c.cache_len(), cap - cap / 10 + 1);
        }
    }
    assert!(c.cache_len() <= cap);
    assert!(c.check("w5"));
}

#[test]
fn end_to_end_scenario() {
    let mut c = checker(&["2", "cat", "run", ""], &["SFX X Y 1", "SFX X 0 ning 0"]);
    assert!(c.check("running"));
    assert!(!c.check("dog"));
    assert!(c.check("CAT"));
}

#[test]
fn from_lines_reports_errors() {
    assert!(matches!(
        SpellChecker::from_lines(&Vec::new(), &Vec::new()),
        Err(LoadError::MissingCount)
    ));
    assert!(matches!(
        SpellChecker::from_lines(&dic(&["x"]), &Vec::new()),
        Err(LoadError::InvalidCount)
    ));
}

#[test]
fn from_parts_uses_given_stores() {
    let mut t = Trie::new();
    t.insert("walk");
    let mut rules = AffixRules::new();
    rules.add_rule(rule("SFX", "D", vec![entry("", "ed", "")]));
    let mut c = SpellChecker::from_parts(t, rules);
    assert!(c.check("Walked"));
    assert_eq!(c.cache_len(), 1);
}

#[test]
fn dictionary_skips_unreadable_lines_but_counts_them() {
    let mut t = Trie::new();
    let lines = vec![
        Some("2".to_string()),
        None,
        Some("cat".to_string()),
        Some("dog".to_string()),
    ];
    let r = DictionaryLoader::read_dictionary(&lines, &mut t);
    assert_eq!(r, Ok(2));
    assert!(t.search("cat"));
    assert!(!t.search("dog"));
    assert!(!t.search(""));
}

#[test]
fn dictionary_unreadable_count() {
    let mut t = Trie::new();
    let lines = vec![None, Some("cat".to_string())];
    let r = DictionaryLoader::read_dictionary(&lines, &mut t);
    assert_eq!(r, Err(LoadError::UnreadableCount));
}

#[test]
fn affix_entry_without_condition() {
    let rules = DictionaryLoader::parse_affix_rules(&lines(&["SFX X Y 1", "SFX X 0 ing"]));
    assert_eq!(rules.len(), 1);
    assert_eq!(rules[0].entries.len(), 1);
    assert_eq!(rules[0].entries[0].strip, "");
    assert_eq!(rules[0].entries[0].add, "ing");
    assert_eq!(rules[0].entries[0].condition, "");
    let mut c = checker(&["1", "test"], &["SFX X Y 1", "SFX X 0 ing"]);
    assert!(c.check("testing"));
}

#[test]
fn affix_header_needs_yes_or_no_and_count() {
    let rules = DictionaryLoader::parse_affix_rules(&lines(&[
        "PFX A N 2",
        "PFX A 0 re",
        "PFX A Y x",
        "PFX A 0 un .",
    ]));
    assert_eq!(rules.len(), 1);
    assert!(!rules[0].cross_product);
    assert_eq!(rules[0].entries.len(), 2);
    assert_eq!(rules[0].entries[0].add, "re");
    assert_eq!(rules[0].entries[1].strip, "Y");
    assert_eq!(rules[0].entries[1].add, "x");
}
