use runmunch::affix_file::AffixFile;
use runmunch::condition::Condition;
use runmunch::dictionary::Dictionary;
use runmunch::error::RunmunchError;
use runmunch::expander::WordExpander;
use runmunch::Runmunch;

fn create_test_affix() -> AffixFile {
    let affix_content = r#"
FLAG long

PFX UN Y 1
PFX UN 0 un .

SFX ED Y 1
SFX ED 0 ed .

SFX S Y 1
SFX S 0 s .
"#;
    AffixFile::parse(affix_content).unwrap()
}

#[test]
fn test_parse_flags() {
    assert_eq!(Dictionary::parse_flags("abc"), vec!["a", "b", "c"]);
    assert_eq!(Dictionary::parse_flags("ABCD"), vec!["AB", "CD"]); // Long flags (pairs of uppercase)
    assert_eq!(Dictionary::parse_flags("123"), vec!["123"]); // Numeric flags are kept as single units
    assert_eq!(Dictionary::parse_flags(""), Vec::<String>::new());
    assert_eq!(Dictionary::parse_flags("A"), vec!["A"]);
    assert_eq!(Dictionary::parse_flags("AB"), vec!["AB"]); // Short strings are treated as single flags
    assert_eq!(Dictionary::parse_flags("UN"), vec!["UN"]); // Short strings are treated as single flags
    assert_eq!(Dictionary::parse_flags("ED"), vec!["ED"]); // Short strings are treated as single flags
}

#[test]
fn test_parse_entry() {
    let (word, flags) = Dictionary::parse_entry("test/abc").unwrap();
    assert_eq!(word, "test");
    assert_eq!(flags, vec!["a", "b", "c"]);

    let (word, flags) = Dictionary::parse_entry("simple").unwrap();
    assert_eq!(word, "simple");
    assert!(flags.is_empty());
}

#[test]
fn test_expand_with_prefix() {
    let mut expander = WordExpander::new();
    let affix_file = create_test_affix();
    expander.set_affix_file(affix_file);

    let result = expander.expand_with_flags("happy", &["UN".to_string()]).unwrap();
    assert!(result.contains(&"happy".to_string()));
    assert!(result.contains(&"unhappy".to_string()));
}

#[test]
fn test_expand_with_suffix() {
    let mut expander = WordExpander::new();
    let affix_file = create_test_affix();
    expander.set_affix_file(affix_file);

    let result = expander.expand_with_flags("work", &["ED".to_string()]).unwrap();
    assert!(result.contains(&"work".to_string()));
    assert!(result.contains(&"worked".to_string()));
}

#[test]
fn test_expand_multiple_flags() {
    let mut expander = WordExpander::new();
    let affix_file = create_test_affix();
    expander.set_affix_file(affix_file);

    let result = expander.expand_with_flags("cat", &["S".to_string(), "ED".to_string()]).unwrap();
    assert!(result.contains(&"cat".to_string()));
    assert!(result.contains(&"cats".to_string()));
    assert!(result.contains(&"cated".to_string())); // Note: This is grammatically incorrect but follows the rules
}

#[test]
fn test_basic_affix_parsing() {
    let affix_content = r#"
FLAG long

PFX UN Y 1
PFX UN 0 un .

SFX ED Y 1
SFX ED 0 ed .

SFX S Y 1
SFX S 0 s .
"#;

    let affix_file = AffixFile::parse(affix_content).expect("Should parse basic affix file");

    assert_eq!(affix_file.prefixes.len(), 1);
    assert_eq!(affix_file.suffixes.len(), 2);

    let un_rules = affix_file.get_prefix_rules("UN").expect("Should have UN prefix rules");
    assert_eq!(un_rules.len(), 1);
    assert_eq!(un_rules[0].affix, "un");

    let ed_rules = affix_file.get_suffix_rules("ED").expect("Should have ED suffix rules");
    assert_eq!(ed_rules.len(), 1);
    assert_eq!(ed_rules[0].affix, "ed");
}

#[test]
fn test_word_expansion() {
    let affix_content = "\nPFX UN Y 1\nPFX UN 0 un .\n\nSFX ED Y 1\nSFX ED 0 ed .\n";

    let affix_file = AffixFile::parse(affix_content).expect("Should parse affix file");
    let mut expander = WordExpander::new();
    expander.set_affix_file(affix_file);

    let result = expander.expand_with_flags("happy", &["UN".to_string()]).expect(
        "Should expand word",
    );
    assert!(result.contains(&"happy".to_string()));
    assert!(result.contains(&"unhappy".to_string()));

    let result = expander.expand_with_flags("work", &["ED".to_string()]).expect(
        "Should expand word",
    );
    assert!(result.contains(&"work".to_string()));
    assert!(result.contains(&"worked".to_string()));
}

#[test]
fn test_dictionary_parsing() {
    let dict_content = "3\nhello/ED\nworld\ntest/UN,S\n";

    let dictionary = Dictionary::parse(dict_content).expect("Should parse dictionary");
    assert_eq!(dictionary.len(), 3);

    let hello_entry = dictionary.get_entry("hello").expect("Should have hello entry");
    assert_eq!(hello_entry.flags, vec!["ED"]); // Short flag strings are parsed as single flags

    let world_entry = dictionary.get_entry("world").expect("Should have world entry");
    assert!(world_entry.flags.is_empty());

    let test_entry = dictionary.get_entry("test").expect("Should have test entry");
    assert_eq!(test_entry.flags, vec!["U", "N", ",", "S"]); // Mixed format parses character by character
}

#[test]
fn test_prefix_expansion_exact_set() {
    let affix_file = AffixFile::parse("PFX UN Y 1\nPFX UN 0 un .\n").unwrap();
    let mut expander = WordExpander::new();
    expander.set_affix_file(affix_file);

    let result = expander.expand_with_flags("happy", &["UN".to_string()]).unwrap();
    assert_eq!(result, vec!["happy", "unhappy"]);
}

#[test]
fn test_suffix_expansion_exact_set() {
    // a non-cross-product suffix is applied once and never requeued
    let affix_file = AffixFile::parse("SFX ED N 1\nSFX ED 0 ed .\n").unwrap();
    let mut expander = WordExpander::new();
    expander.set_affix_file(affix_file);

    let result = expander.expand_with_flags("work", &["ED".to_string()]).unwrap();
    assert_eq!(result, vec!["work", "worked"]);
}

#[test]
fn test_cross_product_exact_closure() {
    // Both rules are cross-product marked: one suffix pass, a suffix pass on
    // each requeued result, and an optional prefix pass (no prefixes here).
    let affix_file = AffixFile::parse(
        "SFX S Y 1\nSFX S 0 s .\n\nSFX ED Y 1\nSFX ED 0 ed .\n",
    ).unwrap();
    let mut expander = WordExpander::new();
    expander.set_affix_file(affix_file);

    let result = expander.expand_with_flags("cat", &["S".to_string(), "ED".to_string()]).unwrap();
    assert_eq!(
        result,
        vec!["cat", "cated", "cateded", "cateds", "cats", "catsed", "catss"],
    );
}

#[test]
fn test_cross_product_prefix_after_suffix() {
    let affix_file = AffixFile::parse(
        "PFX UN Y 1\nPFX UN 0 un .\n\nSFX ED Y 1\nSFX ED 0 ed .\n",
    ).unwrap();
    let mut expander = WordExpander::new();
    expander.set_affix_file(affix_file);

    let result = expander.expand_with_flags(
        "lock",
        &["UN".to_string(), "ED".to_string()],
    ).unwrap();
    // one suffix, one prefix, and the prefix over the suffixed form
    assert_eq!(result, vec!["lock", "locked", "lockeded", "unlock", "unlocked"]);
}

#[test]
fn test_condition_character_classes() {
    let negated = Condition::compile("[^aeiou]").unwrap();
    assert!(negated.matches("b"));
    assert!(negated.matches("z"));
    assert!(!negated.matches("a"));
    assert!(!negated.matches("u"));

    let dot = Condition::compile(".").unwrap();
    assert!(dot.matches("x"));
    assert!(dot.matches(""));

    let class = Condition::compile("[abc]").unwrap();
    assert!(class.matches("a"));
    assert!(!class.matches("d"));
}

#[test]
fn test_condition_unclosed_bracket() {
    let result = Condition::compile("[abc");
    assert!(matches!(result, Err(RunmunchError::InvalidAffix(_))));

    let affix = AffixFile::parse("SFX X Y 1\nSFX X 0 s [ab\n");
    assert!(matches!(affix, Err(RunmunchError::InvalidAffix(_))));
}

#[test]
fn test_conditioned_suffix_rule() {
    // strips a trailing y after a consonant and adds ies
    let affix_file = AffixFile::parse("SFX Y Y 1\nSFX Y y ies [^aeiou]y\n").unwrap();
    let mut expander = WordExpander::new();
    expander.set_affix_file(affix_file);

    let result = expander.expand_with_flags("cry", &["Y".to_string()]).unwrap();
    assert_eq!(result, vec!["cries", "cry"]);

    // the condition window does not hold after a vowel
    let result = expander.expand_with_flags("day", &["Y".to_string()]).unwrap();
    assert_eq!(result, vec!["day"]);
}

#[test]
fn test_rule_apply_reverse_round_trip() {
    let affix_file = AffixFile::parse("SFX ED Y 1\nSFX ED 0 ed .\n").unwrap();
    let rules = affix_file.get_suffix_rules("ED").unwrap();
    let rule = &rules[0];
    let suffix = runmunch::affix::AffixType::Suffix;

    assert!(rule.can_apply("work", &suffix));
    let applied = rule.apply("work", &suffix);
    assert_eq!(applied, "worked");
    assert_eq!(rule.reverse_apply(&applied, &suffix), Some("work".to_string()));
    assert_eq!(rule.reverse_apply("wrong", &suffix), None);
}

#[test]
fn test_find_base_word_round_trip() {
    let affix_file = AffixFile::parse("SFX ED N 1\nSFX ED 0 ed .\n").unwrap();
    let dictionary = Dictionary::parse("1\nwork/ED\n").unwrap();
    let mut expander = WordExpander::new();
    expander.set_affix_file(affix_file);

    let bases = expander.find_base_word("worked", &dictionary).unwrap();
    assert_eq!(bases, vec!["work"]);

    let expanded = expander.find_base_and_expand("worked", &dictionary).unwrap();
    assert_eq!(expanded, vec!["work", "worked"]);
}

#[test]
fn test_find_base_word_no_hit() {
    let affix_file = AffixFile::parse("SFX ED Y 1\nSFX ED 0 ed .\n").unwrap();
    let dictionary = Dictionary::parse("1\nxyz\n").unwrap();
    let mut expander = WordExpander::new();
    expander.set_affix_file(affix_file);

    let bases = expander.find_base_word("worked", &dictionary).unwrap();
    assert!(bases.is_empty());

    let expanded = expander.find_base_and_expand("worked", &dictionary).unwrap();
    assert_eq!(expanded, vec!["worked"]);
}

#[test]
fn test_find_base_word_prefix_and_suffix() {
    let affix_file = AffixFile::parse(
        "PFX UN Y 1\nPFX UN 0 un .\n\nSFX ED Y 1\nSFX ED 0 ed .\n",
    ).unwrap();
    let dictionary = Dictionary::parse("1\nlock/UNED\n").unwrap();
    let mut expander = WordExpander::new();
    expander.set_affix_file(affix_file);

    let bases = expander.find_base_word("unlocked", &dictionary).unwrap();
    assert_eq!(bases, vec!["lock"]);
}

#[test]
fn test_expansion_errors() {
    let expander = WordExpander::new();
    assert!(matches!(expander.expand("word"), Err(RunmunchError::NoAffixFile)));
    assert!(matches!(
        expander.expand_with_flags("word", &["A".to_string()]),
        Err(RunmunchError::NoAffixFile)
    ));

    let runmunch = Runmunch::new();
    assert!(matches!(runmunch.unmunch(), Err(RunmunchError::NoDictionary)));
    assert!(matches!(
        runmunch.find_base_and_expand("word"),
        Err(RunmunchError::NoDictionary)
    ));
}

#[test]
fn test_dictionary_errors() {
    assert!(matches!(
        Dictionary::parse(""),
        Err(RunmunchError::InvalidDictionary(_))
    ));
    assert!(matches!(
        Dictionary::parse("abc\nword\n"),
        Err(RunmunchError::InvalidDictionary(_))
    ));
}

#[test]
fn test_affix_count_error() {
    assert!(matches!(
        AffixFile::parse("SFX X Y zz\nSFX X 0 s .\n"),
        Err(RunmunchError::InvalidAffix(_))
    ));
}

#[test]
fn test_flag_aliases() {
    let affix_file = AffixFile::parse(
        "AF AB\nAF CD\n\nSFX A Y 1\nSFX A 0 a .\n",
    ).unwrap();
    assert_eq!(affix_file.resolve_flag_alias("1"), vec!["A", "B"]);
    assert_eq!(affix_file.resolve_flag_alias("2"), vec!["C", "D"]);
    // an unregistered alias falls back to the literal token
    assert_eq!(affix_file.resolve_flag_alias("9"), vec!["9"]);

    let expanded = affix_file.expand_flags(&["1".to_string(), "XY".to_string()]);
    assert_eq!(expanded, vec!["A", "B", "XY"]);
}

#[test]
fn test_unmunch_whole_dictionary() {
    let mut runmunch = Runmunch::new();
    runmunch.set_affix_file(
        AffixFile::parse("\nPFX UN Y 1\nPFX UN 0 un .\n\nSFX ED Y 1\nSFX ED 0 ed .\n").unwrap(),
    );
    runmunch.set_dictionary(Dictionary::parse("2\nhappy/UN\nwork/ED\n").unwrap());

    let words = runmunch.unmunch().unwrap();
    assert!(words.contains(&"happy".to_string()));
    assert!(words.contains(&"unhappy".to_string()));
    assert!(words.contains(&"work".to_string()));
    assert!(words.contains(&"worked".to_string()));
    // the cross-product ED rule reapplies once to its requeued result
    assert!(words.contains(&"workeded".to_string()));
    assert_eq!(words.len(), 5);
}

#[test]
fn test_expand_with_all_rules_fallback() {
    let mut runmunch = Runmunch::new();
    runmunch.set_affix_file(
        AffixFile::parse("\nPFX UN Y 1\nPFX UN 0 un .\n\nSFX ED Y 1\nSFX ED 0 ed .\n").unwrap(),
    );
    let result = runmunch.expand_word("walk").unwrap();
    assert_eq!(result, vec!["unwalk", "walk", "walked"]);

    let many = runmunch.expand_words(&["walk".to_string(), "walk".to_string()]).unwrap();
    assert_eq!(many, vec!["unwalk", "walk", "walked"]);
}

#[test]
fn test_unicode_character_offsets() {
    // strip and add are counted in characters, never bytes
    let affix_file = AffixFile::parse("SFX E Y 1\nSFX E e ée [^aeiou]e\n").unwrap();
    let mut expander = WordExpander::new();
    expander.set_affix_file(affix_file);

    let result = expander.expand_with_flags("ride", &["E".to_string()]).unwrap();
    // the cross-product rule reapplies once to its own requeued result
    assert_eq!(result, vec!["ride", "rid\u{e9}e", "rid\u{e9}\u{e9}e"]);
}

#[test]
fn test_long_flag_mode_aliases() {
    // FLAG long splits alias flag strings into two-character flags
    let affix_file = AffixFile::parse("FLAG long\nAF UNED\n").unwrap();
    assert_eq!(affix_file.resolve_flag_alias("1"), vec!["UN", "ED"]);
}
