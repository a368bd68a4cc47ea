//! Comments in stylesheets.

use vstd::prelude::*;
use crate::numbers::text_from_chars;

verus! {

/// The first position from `i` on where `a` is directly followed by `b`.
pub open spec fn find_pair(s: Seq<char>, i: int, a: char, b: char) -> Option<int>
    decreases s.len() - i,
{
    if 0 <= i && i + 1 < s.len() {
        if s[i] == a && s[i + 1] == b {
            Some(i)
        } else {
            find_pair(s, i + 1, a, b)
        }
    } else {
        None
    }
}

/// `t` with every character but a line feed replaced by a space.
pub open spec fn blank(t: Seq<char>) -> Seq<char> {
    t.map_values(|c: char| if c == '\n' { '\n' } else { ' ' })
}

/// The text from `i` on with its comments replaced: each `/*` is dropped, and
/// what follows it up to and including the next `*/` (or the end of the text)
/// is blanked. Comments do not nest.
pub open spec fn strip_from(s: Seq<char>, i: int) -> Seq<char>
    decreases s.len() - i,
{
    if 0 <= i <= s.len() {
        match find_pair(s, i, '/', '*') {
            Some(start) => {
                let after = start + 2;
                let end = match find_pair(s, after, '*', '/') {
                    Some(e) => e + 2,
                    None => s.len() as int,
                };
                if i <= start && after <= end <= s.len() {
                    s.subrange(i, start) + blank(s.subrange(after, end)) + strip_from(s, end)
                } else {
                    Seq::empty()
                }
            },
            None => s.subrange(i, s.len() as int),
        }
    } else {
        Seq::empty()
    }
}

/// The text with its comments replaced (see `strip_from`).
pub open spec fn stripped(s: Seq<char>) -> Seq<char> {
    strip_from(s, 0)
}

proof fn lemma_find_pair_bounds(s: Seq<char>, i: int, a: char, b: char)
    requires
        0 <= i,
    ensures
        find_pair(s, i, a, b) matches Some(j) ==> i <= j && j + 2 <= s.len() && s[j] == a && s[j + 1] == b,
        find_pair(s, i, a, b) is None ==> forall|j: int| i <= j && j + 1 < s.len() ==> !(#[trigger] s[j] == a && s[j + 1] == b),
    decreases s.len() - i,
{
    if i + 1 < s.len() && !(s[i] == a && s[i + 1] == b) {
        lemma_find_pair_bounds(s, i + 1, a, b);
    }
}

fn find_pair_at(s: &[char], i: usize, a: char, b: char) -> (r: Option<usize>)
    requires
        i <= s@.len(),
    ensures
        match r {
            Some(j) => find_pair(s@, i as int, a, b) == Some(j as int),
            None => find_pair(s@, i as int, a, b) is None,
        },
{
    let n = s.len();
    let mut j = i;
    while j < n && j + 1 < n
        invariant
            n == s@.len(),
            i <= j <= n,
            find_pair(s@, i as int, a, b) == find_pair(s@, j as int, a, b),
        decreases n - j,
    {
        if s[j] == a && s[j + 1] == b {
            return Some(j);
        }
        j = j + 1;
    }
    None
}

/// The characters of a text, in order.
pub fn chars_of(text: &str) -> (r: Vec<char>)
    ensures
        r@ == text@,
{
    let mut v: Vec<char> = Vec::new();
    for c in it: text.chars()
        invariant
            it.seq() == text@,
            v@ == text@.take(it.index() as int),
    {
        v.push(c);
    }
    assert(v@ =~= text@);
    v
}

/// Replace `/* ... */` comments with spaces, keeping newlines so line numbers
/// in parse warnings still point at the right place. CSS comments don't nest.
pub fn strip_comments(style: &str) -> (r: String)
    ensures
        r@ == stripped(style@),
{
    let s = chars_of(style);
    let n = s.len();
    let mut out: Vec<char> = Vec::new();
    let mut pos: usize = 0;
    loop
        invariant
            n == s@.len(),
            s@ == style@,
            pos <= n,
            stripped(s@) == out@ + strip_from(s@, pos as int),
        decreases n - pos,
    {
        match find_pair_at(s.as_slice(), pos, '/', '*') {
            Some(start) => {
                proof {
                    lemma_find_pair_bounds(s@, pos as int, '/', '*');
                }
                let ghost before = out@;
                let mut k = pos;
                while k < start
                    invariant
                        pos <= k <= start,
                        start + 2 <= n,
                        n == s@.len(),
                        out@ == before + s@.subrange(pos as int, k as int),
                    decreases start - k,
                {
                    out.push(s[k]);
                    k = k + 1;
                }
                let after = start + 2;
                proof {
                    lemma_find_pair_bounds(s@, after as int, '*', '/');
                }
                let end = match find_pair_at(s.as_slice(), after, '*', '/') {
                    Some(e) => e + 2,
                    None => n,
                };
                let ghost middle = out@;
                let mut k = after;
                while k < end
                    invariant
                        after <= k <= end,
                        end <= n,
                        n == s@.len(),
                        out@ == middle + blank(s@.subrange(after as int, k as int)),
                    decreases end - k,
                {
                    let c = s[k];
                    out.push(if c == '\n' { '\n' } else { ' ' });
                    assert(blank(s@.subrange(after as int, k + 1)) =~= blank(s@.subrange(after as int, k as int)).push(
                        if c == '\n' { '\n' } else { ' ' },
                    ));
                    k = k + 1;
                }
                assert(out@ =~= before + (s@.subrange(pos as int, start as int) + blank(
                    s@.subrange(after as int, end as int),
                )));
                assert(strip_from(s@, pos as int) =~= s@.subrange(pos as int, start as int) + blank(
                    s@.subrange(after as int, end as int),
                ) + strip_from(s@, end as int));
                pos = end;
            },
            None => {
                let ghost before = out@;
                let mut k = pos;
                while k < n
                    invariant
                        pos <= k <= n,
                        n == s@.len(),
                        out@ == before + s@.subrange(pos as int, k as int),
                    decreases n - k,
                {
                    out.push(s[k]);
                    k = k + 1;
                }
                assert(strip_from(s@, pos as int) == s@.subrange(pos as int, n as int));
                assert(out@ =~= stripped(s@));
                return text_from_chars(out.as_slice());
            },
        }
    }
}

} // verus!
