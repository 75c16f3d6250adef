use vstd::prelude::*;

verus! {

/// Relies on `str::chars` and `collect`: the characters of `s`, in order.
#[verifier::external_body]
pub(crate) fn chars_of(s: &str) -> (r: Vec<char>)
    ensures
        r@ == s@,
{
    s.chars().collect()
}

/// Relies on `String::from_iter` over chars: the string of those characters.
#[verifier::external_body]
pub(crate) fn string_of(cs: &Vec<char>) -> (r: String)
    ensures
        r@ == cs@,
{
    cs.iter().collect()
}

/// A copy of a vector of plain values.
pub fn copy_vec<T: Copy>(v: &Vec<T>) -> (r: Vec<T>)
    ensures
        r@ == v@,
{
    let mut r: Vec<T> = Vec::new();
    let mut i: usize = 0;
    while i < v.len()
        invariant
            i <= v@.len(),
            r@ == v@.take(i as int),
        decreases v@.len() - i,
    {
        r.push(v[i]);
        i = i + 1;
        assert(r@ =~= v@.take(i as int));
    }
    assert(v@.take(i as int) =~= v@);
    r
}

/// An ASCII lowercase letter.
pub open spec fn is_lower(c: char) -> bool {
    'a' <= c && c <= 'z'
}

/// An ASCII uppercase letter.
pub open spec fn is_upper(c: char) -> bool {
    'A' <= c && c <= 'Z'
}

/// `d` is `c` with an ASCII lowercase letter made uppercase.
pub open spec fn upper_of(c: char, d: char) -> bool {
    if is_lower(c) {
        d as u32 + 32 == c as u32
    } else {
        d == c
    }
}

/// `d` is `c` with an ASCII uppercase letter made lowercase.
pub open spec fn lower_of(c: char, d: char) -> bool {
    if is_upper(c) {
        d as u32 == c as u32 + 32
    } else {
        d == c
    }
}

pub fn is_ascii_lower(c: char) -> (r: bool)
    ensures
        r == is_lower(c),
{
    'a' <= c && c <= 'z'
}

/// Relies on `char::to_ascii_uppercase`: ASCII lowercase letters are mapped
/// to their uppercase form, every other character is kept.
#[verifier::external_body]
pub(crate) fn ascii_upper(c: char) -> (r: char)
    ensures
        upper_of(c, r),
{
    c.to_ascii_uppercase()
}

/// Relies on `char::to_ascii_lowercase`: ASCII uppercase letters are mapped
/// to their lowercase form, every other character is kept.
#[verifier::external_body]
pub(crate) fn ascii_lower(c: char) -> (r: char)
    ensures
        lower_of(c, r),
{
    c.to_ascii_lowercase()
}

/// Whether a character has the Unicode `White_Space` property.
pub uninterp spec fn white_space(c: char) -> bool;

/// Relies on `char::is_whitespace`, the test that `str::trim` applies: the
/// Unicode `White_Space` property, which the plain space has.
#[verifier::external_body]
fn is_white(c: char) -> (r: bool)
    ensures
        r == white_space(c),
        c == ' ' ==> r,
{
    c.is_whitespace()
}

/// `w` occurs in `h` at position `i`.
pub open spec fn occurs_at(h: Seq<char>, w: Seq<char>, i: int) -> bool {
    0 <= i && i + w.len() <= h.len() && h.subrange(i, i + w.len()) == w
}

/// `w` occurs somewhere in `h`.
pub open spec fn contains_word(h: Seq<char>, w: Seq<char>) -> bool {
    exists|i: int| occurs_at(h, w, i)
}

/// Whether `w` occurs in `h`.
pub fn contains(h: &Vec<char>, w: &Vec<char>) -> (r: bool)
    ensures
        r == contains_word(h@, w@),
{
    if w.len() > h.len() {
        return false;
    }
    if w.len() == 0 {
        assert(h@.subrange(0, 0) =~= w@);
        assert(occurs_at(h@, w@, 0));
        return true;
    }
    let hl: usize = h.len();
    let last: usize = hl - w.len();
    let mut i: usize = 0;
    while i <= last
        invariant
            hl == h@.len(),
            w@.len() >= 1,
            last == h@.len() - w@.len(),
            i <= last + 1,
            forall|j: int| 0 <= j < i ==> !occurs_at(h@, w@, j),
        decreases last + 1 - i,
    {
        let mut j: usize = 0;
        let mut same = true;
        while j < w.len() && same
            invariant
                hl == h@.len(),
                i <= last,
                last == h@.len() - w@.len(),
                j <= w@.len(),
                same ==> forall|x: int| 0 <= x < j ==> h@[i + x] == w@[x],
                !same ==> h@[i + j] != w@[j as int] && j < w@.len(),
            decreases w@.len() - j + if same { 1int } else { 0int },
        {
            if h[i + j] != w[j] {
                same = false;
            } else {
                j = j + 1;
            }
        }
        if same {
            assert(h@.subrange(i as int, i + w@.len()) =~= w@);
            assert(occurs_at(h@, w@, i as int));
            return true;
        }
        assert(h@.subrange(i as int, i + w@.len())[j as int] != w@[j as int]);
        i = i + 1;
    }
    assert forall|j: int| !occurs_at(h@, w@, j) by {
        if 0 <= j && j + w@.len() <= h@.len() {
            assert(j < i);
        }
    }
    false
}

/// The words that a generated string may not contain.
pub open spec fn blacklist() -> Seq<Seq<char>> {
    seq![
        "nigger"@,
        "niggy"@,
        "nigga"@,
        "kike"@,
        "faggot"@,
        "hitler"@,
        "spic"@,
        "kkk"@,
        "1488"@,
    ]
}

/// Some word of the blacklist occurs in `s`.
pub open spec fn has_blacklisted(s: Seq<char>) -> bool {
    exists|i: int| 0 <= i < blacklist().len() && contains_word(s, #[trigger] blacklist()[i])
}

/// Whether a word of the blacklist occurs in `s` (case-sensitive).
pub fn blacklisted(s: &Vec<char>) -> (r: bool)
    ensures
        r == has_blacklisted(s@),
{
    let words: Vec<&str> = vec![
        "nigger",
        "niggy",
        "nigga",
        "kike",
        "faggot",
        "hitler",
        "spic",
        "kkk",
        "1488",
    ];
    assert(words@.len() == blacklist().len());
    let mut i: usize = 0;
    while i < words.len()
        invariant
            i <= words@.len(),
            words@.len() == blacklist().len(),
            forall|j: int| 0 <= j < words@.len() ==> (#[trigger] words@[j])@ == blacklist()[j],
            forall|j: int| 0 <= j < i ==> !contains_word(s@, #[trigger] blacklist()[j]),
        decreases words@.len() - i,
    {
        let w = chars_of(words[i]);
        if contains(s, &w) {
            return true;
        }
        i = i + 1;
    }
    false
}

/// `s` without the leading and trailing white space: `s[a..b]`.
pub open spec fn trimmed(s: Seq<char>, a: int, b: int) -> bool {
    &&& 0 <= a <= b <= s.len()
    &&& forall|i: int| 0 <= i < a ==> white_space(#[trigger] s[i])
    &&& forall|i: int| b <= i < s.len() ==> white_space(#[trigger] s[i])
    &&& a < b ==> !white_space(s[a]) && !white_space(s[b - 1])
}

/// Removes leading and trailing white space.
pub fn trim(s: &Vec<char>) -> (r: Vec<char>)
    ensures
        exists|a: int, b: int| trimmed(s@, a, b) && r@ == s@.subrange(a, b),
        r@.len() <= s@.len(),
        r@.len() > 0 ==> !white_space(r@[0]) && !white_space(r@.last()),
{
    let mut a: usize = 0;
    while a < s.len() && is_white(s[a])
        invariant
            a <= s@.len(),
            forall|i: int| 0 <= i < a ==> white_space(#[trigger] s@[i]),
        decreases s@.len() - a,
    {
        a = a + 1;
    }
    let mut b: usize = s.len();
    while b > a && is_white(s[b - 1])
        invariant
            a <= b <= s@.len(),
            forall|i: int| b <= i < s@.len() ==> white_space(#[trigger] s@[i]),
        decreases b,
    {
        b = b - 1;
    }
    let mut r: Vec<char> = Vec::new();
    let mut i: usize = a;
    while i < b
        invariant
            a <= i <= b <= s@.len(),
            r@ == s@.subrange(a as int, i as int),
        decreases b - i,
    {
        r.push(s[i]);
        i = i + 1;
        assert(r@ =~= s@.subrange(a as int, i as int));
    }
    assert(trimmed(s@, a as int, b as int));
    r
}

/// Whether `s` holds a space.
pub fn has_space(s: &Vec<char>) -> (r: bool)
    ensures
        r == s@.contains(' '),
{
    let mut i: usize = 0;
    while i < s.len()
        invariant
            i <= s@.len(),
            forall|j: int| 0 <= j < i ==> s@[j] != ' ',
        decreases s@.len() - i,
    {
        if s[i] == ' ' {
            return true;
        }
        i = i + 1;
    }
    false
}

} // verus!
