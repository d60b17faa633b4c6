//! Glob-style matching of key names: `*` matches any run of characters, `?`
//! any one character, and every other character itself.

use vstd::prelude::*;

verus! {

/// Whether the pattern `p` matches all of `s`.
pub open spec fn glob_match(p: Seq<char>, s: Seq<char>) -> bool
    decreases p.len() + s.len(),
{
    if p.len() == 0 {
        s.len() == 0
    } else if p[0] == '*' {
        glob_match(p.skip(1), s) || (s.len() > 0 && glob_match(p, s.skip(1)))
    } else if s.len() == 0 {
        false
    } else if p[0] == '?' || p[0] == s[0] {
        glob_match(p.skip(1), s.skip(1))
    } else {
        false
    }
}

/// Whether the pattern `pattern` matches all of `text`.
pub fn glob_matches(pattern: &Vec<char>, text: &Vec<char>) -> (r: bool)
    ensures
        r == glob_match(pattern@, text@),
{
    let n = text.len();
    let m = pattern.len();
    // `next@[j]`: whether the pattern from position `i` matches the text from
    // position `j`; `next_end`: the same for the empty rest of the text.
    let mut next: Vec<bool> = Vec::new();
    let mut next_end = true;
    let mut j: usize = 0;
    assert(pattern@.skip(m as int).len() == 0);
    while j < n
        invariant
            j <= n == text@.len(),
            m == pattern@.len(),
            next@.len() == j,
            forall|k: int|
                0 <= k < j ==> next@[k] == glob_match(pattern@.skip(m as int), #[trigger] text@.skip(k)),
        decreases n - j,
    {
        assert(pattern@.skip(m as int).len() == 0);
        next.push(false);
        j = j + 1;
    }
    let mut i: usize = m;
    while i > 0
        invariant
            i <= m == pattern@.len(),
            n == text@.len(),
            next@.len() == n,
            next_end == glob_match(pattern@.skip(i as int), text@.skip(n as int)),
            forall|k: int|
                0 <= k < n ==> next@[k] == glob_match(pattern@.skip(i as int), #[trigger] text@.skip(k)),
        decreases i,
    {
        i = i - 1;
        let c = pattern[i];
        let ghost p = pattern@.skip(i as int);
        assert(p.skip(1) =~= pattern@.skip(i + 1));
        assert(text@.skip(n as int).len() == 0);
        let cur_end = c == '*' && next_end;
        let mut cur: Vec<bool> = next.clone();
        let mut jj: usize = n;
        while jj > 0
            invariant
                jj <= n == text@.len(),
                i < m == pattern@.len(),
                p == pattern@.skip(i as int),
                p.skip(1) == pattern@.skip(i + 1),
                c == p[0],
                cur@.len() == n,
                next@.len() == n,
                next_end == glob_match(p.skip(1), text@.skip(n as int)),
                cur_end == glob_match(p, text@.skip(n as int)),
                forall|k: int|
                    0 <= k < n ==> next@[k] == glob_match(p.skip(1), #[trigger] text@.skip(k)),
                forall|k: int| jj <= k < n ==> cur@[k] == glob_match(p, #[trigger] text@.skip(k)),
            decreases jj,
        {
            jj = jj - 1;
            let ghost s = text@.skip(jj as int);
            assert(s.skip(1) =~= text@.skip(jj + 1));
            assert(s[0] == text@[jj as int]);
            let after = if jj + 1 < n {
                cur[jj + 1]
            } else {
                cur_end
            };
            let next_after = if jj + 1 < n {
                next[jj + 1]
            } else {
                next_end
            };
            let value = if c == '*' {
                next[jj] || after
            } else if c == '?' || c == text[jj] {
                next_after
            } else {
                false
            };
            cur.set(jj, value);
        }
        next = cur;
        next_end = cur_end;
    }
    assert(pattern@.skip(0) =~= pattern@);
    assert(text@.skip(0) =~= text@);
    if n == 0 {
        next_end
    } else {
        next[0]
    }
}

} // verus!
