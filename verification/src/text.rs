//! Character-sequence vocabulary shared by the scanners and the renderer:
//! whitespace and digit tests, ASCII case-insensitive comparison, trimming,
//! repeated prefix/suffix stripping, and substring search, each with a
//! specification over `Seq<char>` and an executable counterpart.

use vstd::prelude::*;

verus! {

/// The whitespace characters that delimit tokens and are trimmed from text.
pub open spec fn is_ws(c: char) -> bool {
    c == ' ' || c == '\t' || c == '\n' || c == '\r' || c == '\u{b}' || c == '\u{c}'
}

/// Decimal digit test.
pub open spec fn is_digit(c: char) -> bool {
    '0' <= c && c <= '9'
}

/// Numeric value of a decimal digit.
pub open spec fn digit_val(c: char) -> int {
    c as int - '0' as int
}

/// Code point of `c` with ASCII upper-case letters folded to lower case.
pub open spec fn lower_code(c: char) -> int {
    if 'A' <= c && c <= 'Z' {
        c as int + 32
    } else {
        c as int
    }
}

/// ASCII case-insensitive character equality.
pub open spec fn eq_ci(a: char, b: char) -> bool {
    lower_code(a) == lower_code(b)
}

/// Does `s` contain the character `c`?
pub open spec fn has_char(s: Seq<char>, c: char) -> bool {
    exists|i: int| 0 <= i < s.len() && s[i] == c
}

/// Does `s` contain a decimal digit?
pub open spec fn has_digit(s: Seq<char>) -> bool {
    exists|i: int| 0 <= i < s.len() && is_digit(s[i])
}

/// Is every character of `s` the digit zero?
pub open spec fn all_zeros(s: Seq<char>) -> bool {
    forall|i: int| 0 <= i < s.len() ==> s[i] == '0'
}

/// Does `s` start with `pre` (case-sensitive)?
pub open spec fn starts_with(s: Seq<char>, pre: Seq<char>) -> bool {
    s.len() >= pre.len() && s.subrange(0, pre.len() as int) == pre
}

/// Does `s` end with `suf` (case-sensitive)?
pub open spec fn ends_with(s: Seq<char>, suf: Seq<char>) -> bool {
    s.len() >= suf.len() && s.subrange(s.len() - suf.len(), s.len() as int) == suf
}

/// Index of the first position at or after `from` where `sub` occurs in `s`,
/// or -1 when there is none.
pub open spec fn find_from(s: Seq<char>, sub: Seq<char>, from: int) -> int
    decreases s.len() - from when 0 <= from
{
    if from + sub.len() > s.len() {
        -1
    } else if sub.len() == 0 {
        from
    } else if s.subrange(from, from + sub.len()) == sub {
        from
    } else {
        find_from(s, sub, from + 1)
    }
}

/// Index of the first position at or after `from` holding the character `c`,
/// or -1 when there is none.
pub open spec fn find_char_from(s: Seq<char>, c: char, from: int) -> int
    decreases s.len() - from when 0 <= from
{
    if from >= s.len() {
        -1
    } else if s[from] == c {
        from
    } else {
        find_char_from(s, c, from + 1)
    }
}

/// `s` with leading whitespace removed.
pub open spec fn trim_start(s: Seq<char>) -> Seq<char>
    decreases s.len(),
{
    if s.len() > 0 && is_ws(s[0]) {
        trim_start(s.drop_first())
    } else {
        s
    }
}

/// `s` with trailing whitespace removed.
pub open spec fn trim_end(s: Seq<char>) -> Seq<char>
    decreases s.len(),
{
    if s.len() > 0 && is_ws(s.last()) {
        trim_end(s.drop_last())
    } else {
        s
    }
}

/// `s` with surrounding whitespace removed.
pub open spec fn trim(s: Seq<char>) -> Seq<char> {
    trim_end(trim_start(s))
}

/// `s` with every trailing repetition of `pat` removed.
pub open spec fn trim_end_matches(s: Seq<char>, pat: Seq<char>) -> Seq<char>
    decreases s.len(),
{
    if pat.len() > 0 && ends_with(s, pat) {
        trim_end_matches(s.subrange(0, s.len() - pat.len()), pat)
    } else {
        s
    }
}

/// `s` with every leading repetition of `pat` removed.
pub open spec fn trim_start_matches(s: Seq<char>, pat: Seq<char>) -> Seq<char>
    decreases s.len(),
{
    if pat.len() > 0 && starts_with(s, pat) {
        trim_start_matches(s.subrange(pat.len() as int, s.len() as int), pat)
    } else {
        s
    }
}

/// `s` with every leading and trailing occurrence of the character `c`
/// removed, matching repeated single-character trimming on both sides.
pub open spec fn trim_matches_char(s: Seq<char>, c: char) -> Seq<char> {
    trim_end_matches(trim_start_matches(s, seq![c]), seq![c])
}

/// Relies on `String::push` from std: appends the character to the string.
pub assume_specification[ String::push ](s: &mut String, c: char)
    ensures
        final(s)@ == old(s)@.push(c),
;

/// Executable whitespace test.
pub fn ws_char(c: char) -> (r: bool)
    ensures
        r == is_ws(c),
{
    c == ' ' || c == '\t' || c == '\n' || c == '\r' || c == '\u{b}' || c == '\u{c}'
}

/// Executable digit test.
pub fn digit_char(c: char) -> (r: bool)
    ensures
        r == is_digit(c),
{
    '0' <= c && c <= '9'
}

/// Executable case-folded code point.
pub fn lower_code_of(c: char) -> (r: u32)
    ensures
        r as int == lower_code(c),
{
    if 'A' <= c && c <= 'Z' {
        (c as u32) + 32
    } else {
        c as u32
    }
}

/// Executable ASCII case-insensitive character equality.
pub fn eq_ci_char(a: char, b: char) -> (r: bool)
    ensures
        r == eq_ci(a, b),
{
    lower_code_of(a) == lower_code_of(b)
}

/// The characters of `s`, in order, as a vector.
pub fn chars_of(s: &str) -> (v: Vec<char>)
    ensures
        v@ == s@,
{
    broadcast use vstd::string::group_string_axioms;

    let mut v: Vec<char> = Vec::new();
    let mut it = s.chars();
    loop
        invariant
            vstd::std_specs::iter::IteratorSpec::obeys_prophetic_iter_laws(&it),
            vstd::std_specs::iter::IteratorSpec::decrease(&it) is Some,
            v@ + vstd::std_specs::iter::IteratorSpec::remaining(&it) == s@,
        ensures
            v@ == s@,
        decreases vstd::std_specs::iter::IteratorSpec::decrease(&it)->0,
    {
        match it.next() {
            Some(c) => {
                v.push(c);
                proof {
                    assert(v@ + vstd::std_specs::iter::IteratorSpec::remaining(&it) =~= s@);
                }
            },
            None => {
                proof {
                    assert(v@ =~= s@);
                }
                break;
            },
        }
    }
    v
}

/// The characters `v[i..j]` as an owned string.
pub fn string_from_range(v: &Vec<char>, i: usize, j: usize) -> (s: String)
    requires
        i <= j <= v@.len(),
    ensures
        s@ == v@.subrange(i as int, j as int),
{
    let mut s = String::new();
    let mut k = i;
    while k < j
        invariant
            i <= k <= j <= v@.len(),
            s@ == v@.subrange(i as int, k as int),
        decreases j - k,
    {
        s.push(v[k]);
        k = k + 1;
        proof {
            assert(s@ =~= v@.subrange(i as int, k as int));
        }
    }
    s
}

/// `trim_start(s)` keeps the suffix that begins at the first character
/// that is not whitespace.
pub proof fn lemma_trim_start_at(s: Seq<char>, k: int)
    requires
        0 <= k <= s.len(),
        forall|i: int| 0 <= i < k ==> is_ws(s[i]),
        k == s.len() || !is_ws(s[k]),
    ensures
        trim_start(s) == s.subrange(k, s.len() as int),
    decreases k,
{
    if k == 0 {
        assert(s.subrange(0, s.len() as int) =~= s);
    } else {
        let t = s.drop_first();
        assert(forall|i: int| 0 <= i < k - 1 ==> is_ws(t[i]));
        lemma_trim_start_at(t, k - 1);
        assert(t.subrange(k - 1, t.len() as int) =~= s.subrange(k, s.len() as int));
    }
}

/// `trim_end(s)` keeps the prefix that ends at the last character that is
/// not whitespace.
pub proof fn lemma_trim_end_at(s: Seq<char>, k: int)
    requires
        0 <= k <= s.len(),
        forall|i: int| k <= i < s.len() ==> is_ws(s[i]),
        k == 0 || !is_ws(s[k - 1]),
    ensures
        trim_end(s) == s.subrange(0, k),
    decreases s.len(),
{
    if k == s.len() {
        assert(s.subrange(0, k) =~= s);
    } else {
        let t = s.drop_last();
        lemma_trim_end_at(t, k);
        assert(t.subrange(0, k) =~= s.subrange(0, k));
    }
}

/// Start and end, within `v`, of `trim(v[i..j])`.
pub fn trim_range(v: &Vec<char>, i: usize, j: usize) -> (r: (usize, usize))
    requires
        i <= j <= v@.len(),
    ensures
        i <= r.0 <= r.1 <= j,
        trim(v@.subrange(i as int, j as int)) == v@.subrange(r.0 as int, r.1 as int),
{
    let ghost s = v@.subrange(i as int, j as int);
    let mut a = i;
    while a < j && ws_char(v[a])
        invariant
            i <= a <= j <= v@.len(),
            forall|t: int| i <= t < a ==> is_ws(v@[t]),
        decreases j - a,
    {
        a = a + 1;
    }
    proof {
        lemma_trim_start_at(s, a - i);
        assert(trim_start(s) =~= v@.subrange(a as int, j as int));
    }
    let mut b = j;
    while b > a && ws_char(v[b - 1])
        invariant
            a <= b <= j <= v@.len(),
            forall|t: int| b <= t < j ==> is_ws(v@[t]),
        decreases b,
    {
        b = b - 1;
    }
    proof {
        let u = v@.subrange(a as int, j as int);
        lemma_trim_end_at(u, b - a);
        assert(u.subrange(0, b - a) =~= v@.subrange(a as int, b as int));
    }
    (a, b)
}

/// Do `v[a..b]` and `v[c..d]` hold the same characters?
pub fn ranges_equal(v: &Vec<char>, a: usize, b: usize, c: usize, d: usize) -> (r: bool)
    requires
        a <= b <= v@.len(),
        c <= d <= v@.len(),
    ensures
        r == (v@.subrange(a as int, b as int) == v@.subrange(c as int, d as int)),
{
    if b - a != d - c {
        proof {
            assert(v@.subrange(a as int, b as int).len() != v@.subrange(c as int, d as int).len());
        }
        return false;
    }
    let n = b - a;
    let mut k: usize = 0;
    while k < n
        invariant
            a <= b <= v@.len(),
            c <= d <= v@.len(),
            b - a == n,
            d - c == n,
            k <= n,
            forall|t: int| 0 <= t < k ==> v@[a + t] == #[trigger] v@[c + t],
        decreases n - k,
    {
        if v[a + k] != v[c + k] {
            proof {
                assert(v@.subrange(a as int, b as int)[k as int] != v@.subrange(
                    c as int,
                    d as int,
                )[k as int]);
            }
            return false;
        }
        k = k + 1;
    }
    proof {
        assert forall|t: int| 0 <= t < n implies v@.subrange(a as int, b as int)[t] == v@.subrange(
            c as int,
            d as int,
        )[t] by {
            assert(v@[a + t] == v@[c + t]);
        }
        assert(v@.subrange(a as int, b as int) =~= v@.subrange(c as int, d as int));
    }
    true
}

/// End, within `v`, of `v[i..j]` with every trailing repetition of `pat`
/// removed.
pub fn strip_end_pat(v: &Vec<char>, i: usize, j: usize, pat: &Vec<char>) -> (e: usize)
    requires
        i <= j <= v@.len(),
        pat@.len() > 0,
    ensures
        i <= e <= j,
        trim_end_matches(v@.subrange(i as int, j as int), pat@) == v@.subrange(
            i as int,
            e as int,
        ),
{
    let p = pat.len();
    let mut e = j;
    loop
        invariant
            i <= e <= j <= v@.len(),
            p == pat@.len(),
            p > 0,
            trim_end_matches(v@.subrange(i as int, j as int), pat@) == trim_end_matches(
                v@.subrange(i as int, e as int),
                pat@,
            ),
        ensures
            i <= e <= j,
            trim_end_matches(v@.subrange(i as int, j as int), pat@) == v@.subrange(
                i as int,
                e as int,
            ),
        decreases e,
    {
        let ghost cur = v@.subrange(i as int, e as int);
        if e - i >= p && range_eq_pat(v, e - p, e, pat) {
            proof {
                assert(cur.subrange(cur.len() - p, cur.len() as int) =~= v@.subrange(
                    (e - p) as int,
                    e as int,
                ));
                assert(ends_with(cur, pat@));
                assert(cur.subrange(0, cur.len() - p) =~= v@.subrange(i as int, (e - p) as int));
            }
            e = e - p;
        } else {
            proof {
                if ends_with(cur, pat@) {
                    assert(cur.subrange(cur.len() - p, cur.len() as int) =~= v@.subrange(
                        (e - p) as int,
                        e as int,
                    ));
                    assert(e - i >= p);
                }
                assert(trim_end_matches(cur, pat@) == cur);
            }
            break;
        }
    }
    e
}

/// Start, within `v`, of `v[i..j]` with every leading repetition of `pat`
/// removed.
pub fn strip_start_pat(v: &Vec<char>, i: usize, j: usize, pat: &Vec<char>) -> (b: usize)
    requires
        i <= j <= v@.len(),
        pat@.len() > 0,
    ensures
        i <= b <= j,
        trim_start_matches(v@.subrange(i as int, j as int), pat@) == v@.subrange(
            b as int,
            j as int,
        ),
{
    let p = pat.len();
    let mut b = i;
    loop
        invariant
            i <= b <= j <= v@.len(),
            p == pat@.len(),
            p > 0,
            trim_start_matches(v@.subrange(i as int, j as int), pat@) == trim_start_matches(
                v@.subrange(b as int, j as int),
                pat@,
            ),
        ensures
            i <= b <= j,
            trim_start_matches(v@.subrange(i as int, j as int), pat@) == v@.subrange(
                b as int,
                j as int,
            ),
        decreases j - b,
    {
        let ghost cur = v@.subrange(b as int, j as int);
        if j - b >= p && range_eq_pat(v, b, b + p, pat) {
            proof {
                assert(cur.subrange(0, p as int) =~= v@.subrange(b as int, (b + p) as int));
                assert(starts_with(cur, pat@));
                assert(cur.subrange(p as int, cur.len() as int) =~= v@.subrange(
                    (b + p) as int,
                    j as int,
                ));
            }
            b = b + p;
        } else {
            proof {
                if starts_with(cur, pat@) {
                    assert(cur.subrange(0, p as int) =~= v@.subrange(b as int, (b + p) as int));
                    assert(j - b >= p);
                }
                assert(trim_start_matches(cur, pat@) == cur);
            }
            break;
        }
    }
    b
}

/// Does `v[a..b]` hold exactly the characters of `pat`?
pub fn range_eq_pat(v: &Vec<char>, a: usize, b: usize, pat: &Vec<char>) -> (r: bool)
    requires
        a <= b <= v@.len(),
    ensures
        r == (v@.subrange(a as int, b as int) == pat@),
{
    if b - a != pat.len() {
        proof {
            assert(v@.subrange(a as int, b as int).len() != pat@.len());
        }
        return false;
    }
    let n = b - a;
    let mut k: usize = 0;
    while k < n
        invariant
            a <= b <= v@.len(),
            b - a == n,
            pat@.len() == n,
            k <= n,
            forall|t: int| 0 <= t < k ==> v@[a + t] == pat@[t],
        decreases n - k,
    {
        if v[a + k] != pat[k] {
            proof {
                assert(v@.subrange(a as int, b as int)[k as int] != pat@[k as int]);
            }
            return false;
        }
        k = k + 1;
    }
    proof {
        assert(v@.subrange(a as int, b as int) =~= pat@);
    }
    true
}

/// Stripping every trailing repetition of the character `c` keeps exactly
/// the prefix that ends at the last character that is not `c`.
pub proof fn lemma_strip_char_suffix(s: Seq<char>, c: char, m: int)
    requires
        0 <= m <= s.len(),
        forall|t: int| m <= t < s.len() ==> s[t] == c,
        m == 0 || s[m - 1] != c,
    ensures
        trim_end_matches(s, seq![c]) == s.subrange(0, m),
    decreases s.len(),
{
    if m == s.len() {
        if s.len() > 0 {
            assert(!ends_with(s, seq![c])) by {
                if ends_with(s, seq![c]) {
                    assert(s.subrange(s.len() - 1, s.len() as int)[0] == s[s.len() - 1]);
                }
            }
        }
        assert(s.subrange(0, m) =~= s);
    } else {
        assert(ends_with(s, seq![c])) by {
            assert(s.subrange(s.len() - 1, s.len() as int) =~= seq![c]);
        }
        let t = s.subrange(0, s.len() - 1);
        lemma_strip_char_suffix(t, c, m);
        assert(t.subrange(0, m) =~= s.subrange(0, m));
    }
}

/// `find_char_from` returns `m` when `c` stands at `m` and nowhere earlier.
pub proof fn lemma_find_char_is(s: Seq<char>, c: char, from: int, m: int)
    requires
        0 <= from <= m < s.len(),
        s[m] == c,
        forall|t: int| from <= t < m ==> s[t] != c,
    ensures
        find_char_from(s, c, from) == m,
    decreases m - from,
{
    if from < m {
        lemma_find_char_is(s, c, from + 1, m);
    }
}

/// `find_char_from` returns -1 when `c` does not occur at or after `from`.
pub proof fn lemma_find_char_none(s: Seq<char>, c: char, from: int)
    requires
        0 <= from,
        forall|t: int| from <= t < s.len() ==> s[t] != c,
    ensures
        find_char_from(s, c, from) == -1,
    decreases s.len() - from,
{
    if from < s.len() {
        lemma_find_char_none(s, c, from + 1);
    }
}

/// A non-negative `find_from` result marks a real first occurrence.
pub proof fn lemma_find_from_valid(s: Seq<char>, sub: Seq<char>, from: int)
    requires
        0 <= from,
        find_from(s, sub, from) >= 0,
    ensures
        from <= find_from(s, sub, from),
        find_from(s, sub, from) + sub.len() <= s.len(),
        s.subrange(find_from(s, sub, from), find_from(s, sub, from) + sub.len()) == sub,
        forall|p: int|
            from <= p < find_from(s, sub, from) ==> #[trigger] s.subrange(p, p + sub.len())
                != sub,
    decreases s.len() - from,
{
    if from + sub.len() > s.len() {
    } else if sub.len() == 0 {
        assert(s.subrange(from, from) =~= sub);
    } else if s.subrange(from, from + sub.len()) == sub {
    } else {
        lemma_find_from_valid(s, sub, from + 1);
    }
}

/// `find_from` returns -1 when `sub` occurs nowhere at or after `from`.
pub proof fn lemma_find_from_none(s: Seq<char>, sub: Seq<char>, from: int)
    requires
        0 <= from,
        sub.len() > 0,
        forall|p: int|
            from <= p && p + sub.len() <= s.len() ==> #[trigger] s.subrange(p, p + sub.len())
                != sub,
    ensures
        find_from(s, sub, from) == -1,
    decreases s.len() - from,
{
    if from + sub.len() <= s.len() {
        lemma_find_from_none(s, sub, from + 1);
    }
}

/// `find_from` returns `m` when `sub` occurs at `m` and nowhere earlier.
pub proof fn lemma_find_from_is(s: Seq<char>, sub: Seq<char>, from: int, m: int)
    requires
        0 <= from <= m,
        m + sub.len() <= s.len(),
        sub.len() > 0,
        s.subrange(m, m + sub.len()) == sub,
        forall|p: int| from <= p < m ==> #[trigger] s.subrange(p, p + sub.len()) != sub,
    ensures
        find_from(s, sub, from) == m,
    decreases m - from,
{
    if from < m {
        lemma_find_from_is(s, sub, from + 1, m);
    }
}

/// The characters `v[i..j]` as a fresh vector.
pub fn vec_range(v: &Vec<char>, i: usize, j: usize) -> (r: Vec<char>)
    requires
        i <= j <= v@.len(),
    ensures
        r@ == v@.subrange(i as int, j as int),
{
    let mut r: Vec<char> = Vec::new();
    let mut k = i;
    while k < j
        invariant
            i <= k <= j <= v@.len(),
            r@ == v@.subrange(i as int, k as int),
        decreases j - k,
    {
        r.push(v[k]);
        k = k + 1;
        proof {
            assert(r@ =~= v@.subrange(i as int, k as int));
        }
    }
    r
}

/// Index of the first occurrence of `pat` in `v`, if there is one.
pub fn find_pat(v: &Vec<char>, pat: &Vec<char>) -> (r: Option<usize>)
    ensures
        match r {
            Some(m) => m as int == find_from(v@, pat@, 0),
            None => find_from(v@, pat@, 0) == -1,
        },
{
    let n = v.len();
    let len = pat.len();
    if len == 0 {
        proof {
            assert(v@.subrange(0, 0) =~= pat@);
        }
        return Some(0);
    }
    if len > n {
        return None;
    }
    let mut m: usize = 0;
    loop
        invariant
            0 < len == pat@.len() <= n == v@.len(),
            m + len <= n,
            forall|p: int| 0 <= p < m ==> #[trigger] v@.subrange(p, p + pat@.len()) != pat@,
        decreases n - m,
    {
        if range_eq_pat(v, m, m + len, pat) {
            proof {
                lemma_find_from_is(v@, pat@, 0, m as int);
            }
            return Some(m);
        }
        m = m + 1;
        if m > n - len {
            proof {
                lemma_find_from_none(v@, pat@, 0);
            }
            return None;
        }
    }
}

/// Index of the first occurrence in `v` of the characters `v[ti..tj]`;
/// the needle occurs at `ti`, so the first occurrence is at or before it.
pub fn find_first_range(v: &Vec<char>, ti: usize, tj: usize) -> (r: usize)
    requires
        ti <= tj <= v@.len(),
    ensures
        r <= ti,
        r + (tj - ti) <= v@.len(),
        r as int == find_from(v@, v@.subrange(ti as int, tj as int), 0),
{
    let ghost needle = v@.subrange(ti as int, tj as int);
    if ti == tj {
        proof {
            assert(v@.subrange(0, 0) =~= needle);
        }
        return 0;
    }
    let len = tj - ti;
    let mut m: usize = 0;
    loop
        invariant
            m <= ti,
            ti < tj <= v@.len(),
            len == tj - ti,
            needle == v@.subrange(ti as int, tj as int),
            forall|p: int| 0 <= p < m ==> #[trigger] v@.subrange(p, p + needle.len()) != needle,
        decreases ti - m,
    {
        if ranges_equal(v, m, m + len, ti, tj) {
            proof {
                lemma_find_from_is(v@, needle, 0, m as int);
            }
            return m;
        }
        proof {
            assert(m < ti) by {
                assert(v@.subrange(ti as int, tj as int) == needle);
            }
        }
        m = m + 1;
    }
}

} // verus!

