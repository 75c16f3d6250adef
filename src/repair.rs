use crate::text::{ascii_lower, ascii_upper, copy_vec, is_ascii_lower, is_lower, lower_of, upper_of};
use vstd::prelude::*;

verus! {

/// The positions that the repair steps look for.
#[derive(Clone, Copy, Debug, PartialEq, Eq)]
pub enum Mark {
    /// An opening bracket, but not in the last position.
    Opener,
    /// A position after the first that holds `)`, or that follows `]` or `}`.
    Closer,
    /// A lowercase letter after a space.
    LowerStart,
    /// Any other character after a space.
    UpperStart,
}

pub open spec fn is_opener(c: char) -> bool {
    c == '(' || c == '[' || c == '{'
}

/// Whether position `i` of `s` bears the mark `m`.
pub open spec fn marked(m: Mark, s: Seq<char>, i: int) -> bool {
    match m {
        Mark::Opener => 0 <= i && i + 1 < s.len() && is_opener(s[i]),
        Mark::Closer => 1 <= i < s.len() && (s[i] == ')' || s[i - 1] == ']' || s[i - 1] == '}'),
        Mark::LowerStart => 1 <= i < s.len() && s[i - 1] == ' ' && is_lower(s[i]),
        Mark::UpperStart => 1 <= i < s.len() && s[i - 1] == ' ' && !is_lower(s[i]),
    }
}

/// The positions below `n` that bear the mark, in increasing order.
pub open spec fn positions(m: Mark, s: Seq<char>, n: int) -> Seq<usize>
    decreases n,
{
    if n <= 0 {
        Seq::empty()
    } else if marked(m, s, n - 1) {
        positions(m, s, n - 1).push((n - 1) as usize)
    } else {
        positions(m, s, n - 1)
    }
}

fn is_marked(m: Mark, s: &Vec<char>, i: usize) -> (r: bool)
    requires
        i < s@.len(),
    ensures
        r == marked(m, s@, i as int),
{
    match m {
        Mark::Opener => i < s.len() - 1 && (s[i] == '(' || s[i] == '[' || s[i] == '{'),
        Mark::Closer => i >= 1 && (s[i] == ')' || s[i - 1] == ']' || s[i - 1] == '}'),
        Mark::LowerStart => i >= 1 && s[i - 1] == ' ' && is_ascii_lower(s[i]),
        Mark::UpperStart => i >= 1 && s[i - 1] == ' ' && !is_ascii_lower(s[i]),
    }
}

/// The positions of `s` that bear the mark, in increasing order.
pub fn marks(m: Mark, s: &Vec<char>) -> (r: Vec<usize>)
    ensures
        r@ == positions(m, s@, s@.len() as int),
{
    let mut r: Vec<usize> = Vec::new();
    let mut i: usize = 0;
    while i < s.len()
        invariant
            i <= s@.len(),
            r@ == positions(m, s@, i as int),
        decreases s@.len() - i,
    {
        if is_marked(m, s, i) {
            r.push(i);
        }
        i = i + 1;
    }
    r
}

/// Each position of the list is below `n`.
pub open spec fn all_below(v: Seq<usize>, n: nat) -> bool {
    forall|j: int| 0 <= j < v.len() ==> (#[trigger] v[j]) < n
}

pub proof fn lemma_positions_below(m: Mark, s: Seq<char>, n: int)
    requires
        n <= s.len(),
    ensures
        all_below(positions(m, s, n), s.len()),
        positions(m, s, n).len() <= if n < 0 { 0 } else { n },
    decreases n,
{
    if n > 0 {
        lemma_positions_below(m, s, n - 1);
    }
}

/// Makes the first character, and each character after a space, uppercase.
pub fn capitalize(s: &mut Vec<char>)
    ensures
        final(s)@.len() == old(s)@.len(),
        forall|i: int|
            0 <= i < old(s)@.len() ==> if i == 0 || old(s)@[i - 1] == ' ' {
                upper_of(old(s)@[i], #[trigger] final(s)@[i])
            } else {
                final(s)@[i] == old(s)@[i]
            },
{
    let ghost s0 = s@;
    let mut prev_space = true;
    let mut i: usize = 0;
    while i < s.len()
        invariant
            i <= s@.len(),
            s@.len() == s0.len(),
            prev_space == (i == 0 || s0[i - 1] == ' '),
            forall|j: int| i <= j < s0.len() ==> s@[j] == s0[j],
            forall|j: int|
                0 <= j < i ==> if j == 0 || s0[j - 1] == ' ' {
                    upper_of(s0[j], #[trigger] s@[j])
                } else {
                    s@[j] == s0[j]
                },
        decreases s@.len() - i,
    {
        let c = s[i];
        if prev_space {
            s.set(i, ascii_upper(c));
        }
        prev_space = c == ' ';
        i = i + 1;
    }
}

/// Position `i` is among the first `k` of the list.
pub open spec fn listed(v: Seq<usize>, k: int, i: int) -> bool {
    exists|x: int| 0 <= x < k && #[trigger] v[x] as int == i
}

/// Sets the case of the characters at the given positions: lowercase when
/// `to_lower`, else uppercase. The others are kept.
pub fn set_case(s: &mut Vec<char>, at: &Vec<usize>, to_lower: bool)
    requires
        all_below(at@, old(s)@.len()),
    ensures
        final(s)@.len() == old(s)@.len(),
        forall|i: int|
            0 <= i < old(s)@.len() ==> if listed(at@, at@.len() as int, i) {
                if to_lower {
                    lower_of(old(s)@[i], #[trigger] final(s)@[i])
                } else {
                    upper_of(old(s)@[i], final(s)@[i])
                }
            } else {
                final(s)@[i] == old(s)@[i]
            },
{
    let orig = copy_vec(s);
    let mut k: usize = 0;
    while k < at.len()
        invariant
            k <= at@.len(),
            orig@.len() == s@.len(),
            all_below(at@, s@.len() as nat),
            forall|i: int|
                0 <= i < orig@.len() ==> if listed(at@, k as int, i) {
                    if to_lower {
                        lower_of(orig@[i], #[trigger] s@[i])
                    } else {
                        upper_of(orig@[i], s@[i])
                    }
                } else {
                    s@[i] == orig@[i]
                },
        decreases at@.len() - k,
    {
        let p = at[k];
        let c = if to_lower {
            ascii_lower(orig[p])
        } else {
            ascii_upper(orig[p])
        };
        s.set(p, c);
        proof {
            assert forall|i: int| 0 <= i < orig@.len() implies listed(at@, k + 1, i) == (listed(
                at@,
                k as int,
                i,
            ) || i == p) by {
                if i == p {
                    assert(at@[k as int] as int == i);
                }
                if listed(at@, k + 1, i) && i != p {
                    let x = choose|x: int| 0 <= x < k + 1 && #[trigger] at@[x] as int == i;
                    assert(x < k);
                }
            }
        }
        k = k + 1;
    }
}

/// The bracket that closes `c`, or a placeholder for any other character.
pub open spec fn closer_for(c: char) -> char {
    if c == '(' {
        ')'
    } else if c == '[' {
        ']'
    } else if c == '{' {
        '}'
    } else {
        '⁋'
    }
}

/// The bracket that opens `c`, or a placeholder for any other character.
pub open spec fn opener_for(c: char) -> char {
    if c == ')' {
        '('
    } else if c == ']' {
        '['
    } else if c == '}' {
        '{'
    } else {
        '⁋'
    }
}

fn closing(c: char) -> (r: char)
    ensures
        r == closer_for(c),
{
    match c {
        '(' => ')',
        '[' => ']',
        '{' => '}',
        _ => '⁋',
    }
}

fn opening(c: char) -> (r: char)
    ensures
        r == opener_for(c),
{
    match c {
        ')' => '(',
        ']' => '[',
        '}' => '{',
        _ => '⁋',
    }
}

/// The positions of the list that are above `lo` (when `above`) or below
/// it, in list order.
pub open spec fn beyond_spec(v: Seq<usize>, lo: usize, above: bool) -> Seq<usize>
    decreases v.len(),
{
    if v.len() == 0 {
        Seq::empty()
    } else {
        let rest = beyond_spec(v.drop_last(), lo, above);
        if (above && v.last() > lo) || (!above && v.last() < lo) {
            rest.push(v.last())
        } else {
            rest
        }
    }
}

fn beyond(v: &Vec<usize>, lo: usize, above: bool) -> (r: Vec<usize>)
    ensures
        r@ == beyond_spec(v@, lo, above),
{
    let mut r: Vec<usize> = Vec::new();
    let mut i: usize = 0;
    while i < v.len()
        invariant
            i <= v@.len(),
            r@ == beyond_spec(v@.take(i as int), lo, above),
        decreases v@.len() - i,
    {
        proof {
            assert(v@.take(i + 1).drop_last() =~= v@.take(i as int));
        }
        if (above && v[i] > lo) || (!above && v[i] < lo) {
            r.push(v[i]);
        }
        i = i + 1;
    }
    assert(v@.take(i as int) =~= v@);
    r
}

/// Each position of `beyond_spec` is one of the list.
pub proof fn lemma_beyond_below(v: Seq<usize>, lo: usize, above: bool, n: nat)
    requires
        all_below(v, n),
    ensures
        all_below(beyond_spec(v, lo, above), n),
    decreases v.len(),
{
    if v.len() > 0 {
        lemma_beyond_below(v.drop_last(), lo, above, n);
    }
}

/// The choice of `pick`.
pub open spec fn pick_spec(picks: Seq<usize>, step: int, len: usize) -> int {
    if 0 <= step < picks.len() {
        (picks[step] % len) as int
    } else {
        0
    }
}

/// The closing phase of brace balancing, from insertion number `step` on.
pub open spec fn close_phase(
    s: Seq<char>,
    found: Seq<char>,
    opens: Seq<usize>,
    closes: Seq<usize>,
    picks: Seq<usize>,
    step: int,
) -> Seq<char>
    decreases opens.len(),
{
    if opens.len() <= closes.len() {
        s
    } else {
        let o = opens[0];
        let after = beyond_spec(closes, o, true);
        let pos = if after.len() == 0 {
            s.len() as int
        } else {
            after[pick_spec(picks, step, after.len() as usize)] as int
        };
        close_phase(
            s.insert(pos, closer_for(found[o as int])),
            found,
            opens.drop_first(),
            closes,
            picks,
            step + 1,
        )
    }
}

/// The opening phase of brace balancing, from insertion number `step` on.
pub open spec fn open_phase(
    s: Seq<char>,
    found: Seq<char>,
    opens: Seq<usize>,
    closes: Seq<usize>,
    picks: Seq<usize>,
    step: int,
) -> Seq<char>
    decreases closes.len(),
{
    if closes.len() <= opens.len() {
        s
    } else {
        let c = closes[0];
        let before = beyond_spec(opens, c, false);
        let pos = if before.len() == 0 {
            0
        } else {
            before[pick_spec(picks, step, before.len() as usize)] as int
        };
        open_phase(
            s.insert(pos, opener_for(found[c as int])),
            found,
            opens,
            closes.drop_first(),
            picks,
            step + 1,
        )
    }
}

/// The result of brace balancing.
pub open spec fn balanced(
    s: Seq<char>,
    found: Seq<char>,
    opens: Seq<usize>,
    closes: Seq<usize>,
    picks: Seq<usize>,
) -> Seq<char> {
    if opens.len() > closes.len() {
        close_phase(s, found, opens, closes, picks, 0)
    } else {
        open_phase(s, found, opens, closes, picks, 0)
    }
}

/// The choice among `len` candidates for the insertion numbered `step`:
/// the drawn pick for that step, reduced modulo `len`, or the first
/// candidate where no pick was drawn.
pub fn pick(picks: &Vec<usize>, step: usize, len: usize) -> (r: usize)
    requires
        len > 0,
    ensures
        r < len,
        r == pick_spec(picks@, step as int, len),
{
    if step < picks.len() {
        picks[step] % len
    } else {
        0
    }
}

/// Brace balancing. While more openers than closers were found, the first
/// opener is taken and its closer inserted at one of the closer positions
/// after it, as `pick` chooses, or at the end if there is none; then, while
/// more closers than openers were found, the first closer is taken and its
/// opener inserted at one of the opener positions before it, as `pick`
/// chooses, or at the start. The brackets are those of `found` at the recorded positions. One
/// character is inserted for each bracket that the other side lacks.
pub fn balance(
    s: &mut Vec<char>,
    found: &Vec<char>,
    opens: Vec<usize>,
    closes: Vec<usize>,
    picks: &Vec<usize>,
)
    requires
        found@.len() <= old(s)@.len(),
        all_below(opens@, found@.len()),
        all_below(closes@, found@.len()),
        old(s)@.len() + opens@.len() + closes@.len() <= usize::MAX,
    ensures
        final(s)@ == balanced(old(s)@, found@, opens@, closes@, picks@),
        final(s)@.len() == old(s)@.len() + if opens@.len() >= closes@.len() {
            opens@.len() - closes@.len()
        } else {
            closes@.len() - opens@.len()
        },
        opens@.len() == closes@.len() ==> final(s)@ == old(s)@,
{
    let ghost s0 = s@;
    let ghost o0 = opens@.len();
    let ghost c0 = closes@.len();
    let ghost goal = balanced(s0, found@, opens@, closes@, picks@);
    let mut opens = opens;
    let mut closes = closes;
    let mut step: usize = 0;
    if opens.len() > closes.len() {
        while opens.len() > closes.len()
            invariant
                found@.len() <= s0.len() <= s@.len(),
                all_below(opens@, found@.len()),
                all_below(closes@, found@.len()),
                closes@.len() == c0,
                opens@.len() >= c0,
                s@.len() == s0.len() + (o0 - opens@.len()),
                step == o0 - opens@.len(),
                s0.len() + o0 + c0 <= usize::MAX,
                close_phase(s@, found@, opens@, closes@, picks@, step as int) == goal,
            decreases opens@.len(),
        {
            let o = opens.remove(0);
            let c = closing(found[o]);
            let after = beyond(&closes, o, true);
            proof {
                lemma_beyond_below(closes@, o, true, found@.len());
            }
            let pos = if after.len() == 0 {
                s.len()
            } else {
                let p = after[pick(picks, step, after.len())];
                p
            };
            s.insert(pos, c);
            step = step + 1;
        }
    } else {
        while opens.len() < closes.len()
            invariant
                found@.len() <= s0.len() <= s@.len(),
                all_below(opens@, found@.len()),
                all_below(closes@, found@.len()),
                opens@.len() == o0,
                closes@.len() >= o0,
                s@.len() == s0.len() + (c0 - closes@.len()),
                step == c0 - closes@.len(),
                s0.len() + o0 + c0 <= usize::MAX,
                open_phase(s@, found@, opens@, closes@, picks@, step as int) == goal,
            decreases closes@.len(),
        {
            let c = closes.remove(0);
            let ch = opening(found[c]);
            let before = beyond(&opens, c, false);
            proof {
                lemma_beyond_below(opens@, c, false, found@.len());
            }
            let pos = if before.len() == 0 {
                0
            } else {
                let p = before[pick(picks, step, before.len())];
                p
            };
            s.insert(pos, ch);
            step = step + 1;
        }
    }
}

} // verus!
