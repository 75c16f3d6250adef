use namer::markov::{
    case_counts, finish, next_key, passes_filter, regenerates, transition_count, Markov, Style,
};
use namer::table::{build, Entry, TransitionTable};
use std::sync::Arc;

fn corpus(words: &[&str]) -> Arc<Vec<String>> {
    Arc::new(words.iter().map(|w| w.to_string()).collect())
}

fn chars(s: &str) -> Vec<char> {
    s.chars().collect()
}

fn entries<'a>(t: &'a TransitionTable, key: &str) -> Option<&'a Vec<Entry>> {
    let k = chars(key);
    t.slots.iter().find(|(sk, _)| *sk == k).map(|(_, es)| es)
}

fn model(words: &[&str], n: usize, min: usize, regen: usize) -> Markov {
    Markov::new(n, min, regen, "test".to_string(), corpus(words), None).unwrap()
}

#[test]
fn example_corpus_table() {
    let m = model(&["abraham", "andrew", "arnold"], 2, 2, 5);
    assert_eq!(m.starting_ngrams, vec![chars("ab"), chars("an"), chars("ar")]);
    assert_eq!(entries(&m.map, "br"), Some(&vec![Entry::new(Some('a'), 1)]));
    assert_eq!(entries(&m.map, "am"), Some(&vec![Entry::new(None, 1)]));
    // In "abraham", "ra" is followed by "h".
    assert_eq!(entries(&m.map, "ra"), Some(&vec![Entry::new(Some('h'), 1)]));
    assert_eq!(entries(&m.map, "zz"), None);
}

#[test]
fn weights_accumulate() {
    let (t, starts) = build(&vec!["abab".to_string(), "abab".to_string()], 2, 2);
    assert_eq!(starts, vec![chars("ab"), chars("ab")]);
    assert_eq!(entries(&t, "ab"), Some(&vec![Entry::new(Some('a'), 2), Entry::new(None, 2)]));
    assert_eq!(entries(&t, "ba"), Some(&vec![Entry::new(Some('b'), 2)]));
    assert_eq!(t.slots.len(), 2);
}

#[test]
fn short_strings_are_skipped() {
    let (t, starts) = build(&vec!["ab".to_string(), "abcd".to_string()], 2, 3);
    assert_eq!(starts, vec![chars("ab")]);
    assert_eq!(entries(&t, "ab"), Some(&vec![Entry::new(Some('c'), 1)]));
    assert_eq!(entries(&t, "cd"), Some(&vec![Entry::new(None, 1)]));
}

#[test]
fn minimum_length_is_raised_to_ngram_size() {
    let m = model(&["abcdef"], 3, 1, 0);
    assert_eq!(m.minimum_length, 3);
    assert_eq!(m.ngram_size, 3);
}

#[test]
fn short_corpus_gives_no_starting_ngrams() {
    let m = model(&["ab"], 2, 5, 0);
    assert!(m.starting_ngrams.is_empty());
}

#[test]
fn finish_rejects_empty_output() {
    let style = Style {
        must_have_space: false,
        force_capitalization: false,
        force_case_homogeneity: false,
    };
    assert_eq!(finish(&chars("   "), 1, style, false, &vec![]), None);
    assert_eq!(finish(&chars("  ab "), 1, style, false, &vec![]), Some(chars("ab")));
}

#[test]
fn finish_checks_blacklist_after_repair() {
    let style = Style {
        must_have_space: true,
        force_capitalization: false,
        force_case_homogeneity: true,
    };
    assert_eq!(finish(&chars("ab Hitler"), 2, style, true, &vec![]), None);
    assert_eq!(finish(&chars("ab Hitler"), 2, style, false, &vec![]), Some(chars("ab Hitler")));
    assert_eq!(finish(&chars("ab hitler"), 2, style, false, &vec![]), None);
}

#[test]
fn finish_applies_style() {
    let style = Style {
        must_have_space: true,
        force_capitalization: true,
        force_case_homogeneity: false,
    };
    assert_eq!(finish(&chars("john smith"), 2, style, false, &vec![]), Some(chars("John Smith")));
    assert_eq!(finish(&chars("johnsmith"), 2, style, false, &vec![]), None);
    assert_eq!(finish(&chars("j"), 2, style, false, &vec![]), None);
    let long = "ab cd ".repeat(10);
    let out = finish(&chars(&long), 2, style, false, &vec![]).unwrap();
    assert_eq!(out, chars("Ab Cd Ab Cd Ab Cd Ab Cd Ab Cd Ab"));
}

#[test]
fn finish_balances_braces() {
    let style = Style {
        must_have_space: false,
        force_capitalization: false,
        force_case_homogeneity: false,
    };
    assert_eq!(finish(&chars("a(bc"), 2, style, false, &vec![]), Some(chars("a(bc)")));
    assert_eq!(finish(&chars("ab)c"), 2, style, false, &vec![]), Some(chars("(ab)c")));
}

#[test]
fn case_counts_of_word_starts() {
    assert_eq!(case_counts(&chars("ab cd Ef 1g")), (1, 2));
    assert_eq!(case_counts(&chars("")), (0, 0));
}

#[test]
fn reload_gives_same_table() {
    let c = corpus(&["abraham", "andrew", "arnold", "abigail"]);
    let m1 = Markov::new(2, 2, 5, "t".to_string(), c.clone(), None).unwrap();
    let d = m1.file_data();
    let m2 = Markov::new(2, 2, 5, "t".to_string(), c.clone(), Some(d)).unwrap();
    assert_eq!(m1.map.slots, m2.map.slots);
    assert_eq!(m1.starting_ngrams, m2.starting_ngrams);
}

#[test]
fn stale_cache_is_rebuilt() {
    let old = Markov::new(2, 2, 5, "t".to_string(), corpus(&["xyzzy"]), None).unwrap();
    let d = old.file_data();
    let m = Markov::new(2, 2, 5, "t".to_string(), corpus(&["abraham"]), Some(d)).unwrap();
    assert_eq!(m.starting_ngrams, vec![chars("ab")]);
    assert!(entries(&m.map, "xy").is_none());
    assert_eq!(entries(&m.map, "am"), Some(&vec![Entry::new(None, 1)]));
}

#[test]
fn valid_cache_is_used() {
    let c = corpus(&["abraham"]);
    let first = Markov::new(2, 2, 5, "t".to_string(), c.clone(), None).unwrap();
    let mut d = first.file_data();
    // A valid artifact is taken as it is, not rebuilt.
    d.starting_ngrams = vec![chars("zz")];
    let m = Markov::new(2, 2, 5, "t".to_string(), c, Some(d)).unwrap();
    assert_eq!(m.starting_ngrams, vec![chars("zz")]);
}

#[test]
fn malformed_cache_is_rebuilt() {
    let c = corpus(&["abraham"]);
    let first = Markov::new(2, 2, 5, "t".to_string(), c.clone(), None).unwrap();
    let mut d = first.file_data();
    d.starting_ngrams = vec![chars("abc")];
    let m = Markov::new(2, 2, 5, "t".to_string(), c, Some(d)).unwrap();
    assert_eq!(m.starting_ngrams, vec![chars("ab")]);
}

#[test]
fn fingerprint_depends_on_order() {
    let a = model(&["abraham", "andrew"], 2, 2, 5).file_data().corpus_hash;
    let b = model(&["andrew", "abraham"], 2, 2, 5).file_data().corpus_hash;
    let a2 = model(&["abraham", "andrew"], 2, 2, 5).file_data().corpus_hash;
    assert_ne!(a, b);
    assert_eq!(a, a2);
}

#[test]
fn cache_round_trips_through_bincode() {
    let m = model(&["abraham", "andrew", "arnold"], 2, 2, 5);
    let d = m.file_data();
    let plain: (u64, Vec<(Vec<char>, Vec<(Option<char>, u32)>)>, Vec<Vec<char>>) = (
        d.corpus_hash,
        d.map
            .slots
            .iter()
            .map(|(k, es)| (k.clone(), es.iter().map(|e| (e.ch, e.weight)).collect()))
            .collect(),
        d.starting_ngrams.clone(),
    );
    let bytes = bincode::serialize(&plain).unwrap();
    let back: (u64, Vec<(Vec<char>, Vec<(Option<char>, u32)>)>, Vec<Vec<char>>) =
        bincode::deserialize(&bytes).unwrap();
    assert_eq!(back, plain);
}

#[test]
fn generated_outputs_obey_limits() {
    let m = model(
        &["anna maria", "john smith", "mary jane", "peter pan", "lucy gray", "tom thumb"],
        2,
        2,
        5,
    );
    for _ in 0..50 {
        let s = m.generate().unwrap();
        assert!(s.chars().count() <= 32);
        assert!(!s.is_empty());
        assert_eq!(s.trim(), s);
    }
}

#[test]
fn attempt_with_space_required_has_space() {
    let m = model(&["anna maria", "john smith", "mary jane", "peter pan"], 2, 2, 5);
    let style = Style {
        must_have_space: true,
        force_capitalization: true,
        force_case_homogeneity: true,
    };
    let mut accepted = 0;
    for _ in 0..200 {
        if let Some(s) = m.attempt(style) {
            assert!(s.contains(' '));
            assert!(!s.is_empty());
            assert_eq!(s.trim(), s);
            assert!(s.chars().count() <= 32);
            accepted += 1;
        }
    }
    assert!(accepted > 0);
}

#[test]
fn zero_regen_walks_the_table() {
    let m = model(&["abraham", "andrew", "arnold", "abigail"], 2, 2, 0);
    for _ in 0..50 {
        let r = m.sample_raw();
        assert!(m.starting_ngrams.contains(&r[0..2].to_vec()));
        for i in 2..r.len() {
            let es = entries(&m.map, &r[i - 2..i].iter().collect::<String>()).unwrap();
            assert!(es.iter().any(|e| e.ch == Some(r[i])));
        }
    }
}

#[test]
fn sampler_draws_known_continuations() {
    let m = model(&["abcabd"], 2, 2, 0);
    for _ in 0..50 {
        let c = m.get_value(&chars("ab"));
        assert!(c == Some('c') || c == Some('d'));
    }
    assert_eq!(m.get_value(&chars("bd")), None);
    assert_eq!(m.get_value(&chars("qq")), None);
}

#[test]
fn next_key_slides() {
    assert_eq!(next_key(&chars("abc"), 'd'), chars("bcd"));
    assert_eq!(next_key(&chars("a"), 'z'), chars("z"));
}

#[test]
fn regen_rolls() {
    assert!(regenerates(104, 5));
    assert!(!regenerates(105, 5));
    assert!(!regenerates(0, 0));
    assert!(regenerates(99, 100));
}

#[test]
fn filter_rules() {
    assert!(passes_filter(&chars("hello"), 3));
    assert!(!passes_filter(&chars("hi"), 3));
    assert!(!passes_filter(&chars(&"a".repeat(71)), 3));
    assert!(passes_filter(&chars(&"a".repeat(70)), 3));
    assert!(!passes_filter(&chars("the kkk club"), 3));
    assert!(passes_filter(&chars("the KKK club"), 3));
}

#[test]
fn transition_counts() {
    let c = vec!["abraham".to_string(), "an".to_string(), "x".to_string()];
    assert_eq!(transition_count(&c, 2, 2), Some(7));
    assert_eq!(transition_count(&c, 2, 3), Some(6));
    assert_eq!(transition_count(&vec![], 1, 1), Some(0));
    // Lengths count characters, not bytes.
    assert_eq!(transition_count(&vec!["héllo".to_string()], 1, 5), Some(5));
    assert_eq!(transition_count(&vec!["héllo".to_string()], 1, 6), Some(0));
}
