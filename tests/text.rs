use namer::repair::{balance, capitalize, marks, pick, set_case, Mark};
use namer::table::Entry;
use namer::text::{blacklisted, contains, trim};

fn chars(s: &str) -> Vec<char> {
    s.chars().collect()
}

#[test]
fn substring_search() {
    assert!(contains(&chars("abcdef"), &chars("cde")));
    assert!(contains(&chars("abc"), &chars("")));
    assert!(!contains(&chars("abc"), &chars("abcd")));
    assert!(!contains(&chars("abcabd"), &chars("abe")));
}

#[test]
fn blacklist_is_case_sensitive() {
    assert!(blacklisted(&chars("xx1488xx")));
    assert!(blacklisted(&chars("ahitler")));
    assert!(!blacklisted(&chars("Hitler")));
    assert!(!blacklisted(&chars("hello world")));
}

#[test]
fn trimming() {
    assert_eq!(trim(&chars("  ab c \t")), chars("ab c"));
    assert_eq!(trim(&chars("   ")), chars(""));
    assert_eq!(trim(&chars("x")), chars("x"));
}

#[test]
fn case_changes_touch_ascii_letters_only() {
    let mut s = chars("a é (b Z");
    capitalize(&mut s);
    assert_eq!(s, chars("A é (b Z"));
    let mut t = chars("x É Q");
    set_case(&mut t, &vec![2, 4], true);
    assert_eq!(t, chars("x É q"));
}

#[test]
fn capitalization() {
    let mut s = chars("john smith (the elder)");
    capitalize(&mut s);
    assert_eq!(s, chars("John Smith (the Elder)"));
}

#[test]
fn word_start_marks() {
    let s = chars("ab cd Ef 1g");
    assert_eq!(marks(Mark::LowerStart, &s), vec![3]);
    assert_eq!(marks(Mark::UpperStart, &s), vec![6, 9]);
}

#[test]
fn brace_marks_are_asymmetric() {
    let s = chars("(a]b)c(");
    // The last '(' is not seen; ']' marks the position after it.
    assert_eq!(marks(Mark::Opener, &s), vec![0]);
    assert_eq!(marks(Mark::Closer, &s), vec![3, 4]);
}

#[test]
fn case_homogeneity_steps() {
    let mut s = chars("ab Cd ef");
    set_case(&mut s, &vec![3], true);
    assert_eq!(s, chars("ab cd ef"));
    let mut t = chars("ab Cd ef");
    set_case(&mut t, &vec![6], false);
    assert_eq!(t, chars("ab Cd Ef"));
}

#[test]
fn balancing_adds_missing_closer() {
    let found = chars("a(bc");
    let mut s = found.clone();
    balance(&mut s, &found, vec![1], vec![], &vec![]);
    assert_eq!(s, chars("a(bc)"));
}

#[test]
fn balancing_adds_missing_opener() {
    let found = chars("ab)c");
    let mut s = found.clone();
    balance(&mut s, &found, vec![], vec![2], &vec![]);
    assert_eq!(s, chars("(ab)c"));
}

#[test]
fn balancing_uses_placeholder() {
    let found = chars("a]bc");
    let mut s = found.clone();
    // The closer is marked after ']', at 'b', which has no opener.
    balance(&mut s, &found, vec![], vec![2], &vec![]);
    assert_eq!(s, chars("⁋a]bc"));
}

#[test]
fn balanced_input_is_kept() {
    let found = chars("(ab)");
    let mut s = found.clone();
    balance(&mut s, &found, vec![0], vec![3], &vec![]);
    assert_eq!(s, found);
}

#[test]
fn entry_conversions() {
    assert_eq!(Entry::from('x'), Entry::new(Some('x'), 1));
    assert_eq!(Entry::from(None), Entry::new(None, 1));
}

#[test]
fn balancing_follows_picks() {
    // Two openers and no closer: both closers go to the end.
    let found = chars("(a(b");
    let mut s = found.clone();
    balance(&mut s, &found, vec![0, 2], vec![], &vec![5, 7]);
    assert_eq!(s, chars("(a(b))"));
    // One closer more than openers: the opener goes at the opener
    // position before the closer that the pick chooses.
    let found = chars("(a)b)c");
    let mut s = found.clone();
    balance(&mut s, &found, vec![0], vec![2, 4], &vec![0]);
    assert_eq!(s, chars("((a)b)c"));
}

#[test]
fn picks_wrap_and_default() {
    assert_eq!(pick(&vec![7, 3], 0, 5), 2);
    assert_eq!(pick(&vec![7, 3], 1, 5), 3);
    assert_eq!(pick(&vec![7, 3], 2, 5), 0);
}
