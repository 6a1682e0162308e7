//! The report renderer: group the discovered entries by classification,
//! put the groups in a canonical order, and serialize the report text.

use vstd::prelude::*;

use crate::entries::{Entry, EntryData, SpecEntry, SpecEntryData, entry_views};
use crate::text::chars_of;

verus! {

/// Strict lexicographic order on character sequences by code point; the
/// empty sequence comes first.
pub open spec fn lex_lt(a: Seq<char>, b: Seq<char>) -> bool
    decreases a.len(),
{
    if b.len() == 0 {
        false
    } else if a.len() == 0 {
        true
    } else if a[0] < b[0] {
        true
    } else if a[0] == b[0] {
        lex_lt(a.drop_first(), b.drop_first())
    } else {
        false
    }
}

/// The decimal digits of `n`, most significant first.
pub open spec fn spec_digits(n: nat) -> Seq<char>
    decreases n,
{
    if n < 10 {
        seq![((n + 48) as u32) as char]
    } else {
        spec_digits(n / 10).push((((n % 10) + 48) as u32) as char)
    }
}

/// `n` zero characters.
pub open spec fn zeros(n: nat) -> Seq<char>
    decreases n,
{
    if n == 0 {
        Seq::empty()
    } else {
        zeros((n - 1) as nat).push('0')
    }
}

/// The subsection header for a priority value: the marker word followed
/// by the digits of a positive value, or by one zero for value zero plus
/// one more zero for each step below zero.
pub open spec fn spec_priority_heading(p: int) -> Seq<char> {
    if p > 0 {
        seq!['t', 'o', 'd', 'o'] + spec_digits(p as nat)
    } else {
        seq!['t', 'o', 'd', 'o', '0'] + zeros((-p) as nat)
    }
}

/// One rendered entry line: a checkbox, then the text followed by the
/// parenthesized location, or the bare location when the text is empty.
pub open spec fn spec_render_entry(e: SpecEntry) -> Seq<char> {
    let loc = e.location.file + seq![':'] + spec_digits(e.location.line);
    if e.text.len() > 0 {
        seq!['-', ' ', '[', ' ', ']', ' '] + e.text + seq![' ', '('] + loc + seq![')']
    } else {
        seq!['-', ' ', '[', ' ', ']', ' '] + loc
    }
}

/// Rendered entry lines, each ended by a line feed.
pub open spec fn spec_render_list(es: Seq<SpecEntry>) -> Seq<char>
    decreases es.len(),
{
    if es.len() == 0 {
        Seq::empty()
    } else {
        spec_render_entry(es[0]) + seq!['\n'] + spec_render_list(es.drop_first())
    }
}

/// Append an entry to the bucket with its key, or open a new bucket at
/// the end when the key has none yet.
pub open spec fn add_to_pbucket(
    bs: Seq<(int, Seq<SpecEntry>)>,
    k: int,
    e: SpecEntry,
) -> Seq<(int, Seq<SpecEntry>)>
    decreases bs.len(),
{
    if bs.len() == 0 {
        seq![(k, seq![e])]
    } else if bs[0].0 == k {
        seq![(k, bs[0].1.push(e))] + bs.drop_first()
    } else {
        seq![bs[0]] + add_to_pbucket(bs.drop_first(), k, e)
    }
}

/// The priority buckets of the entries, keys in first-discovery order,
/// each bucket in discovery order.
pub open spec fn pbuckets(vs: Seq<SpecEntry>) -> Seq<(int, Seq<SpecEntry>)>
    decreases vs.len(),
{
    if vs.len() == 0 {
        Seq::empty()
    } else {
        let pre = pbuckets(vs.drop_last());
        match vs.last().data {
            SpecEntryData::Priority(k) => add_to_pbucket(pre, k, vs.last()),
            _ => pre,
        }
    }
}

/// As `add_to_pbucket`, for category buckets keyed by name.
pub open spec fn add_to_cbucket(
    bs: Seq<(Seq<char>, Seq<SpecEntry>)>,
    k: Seq<char>,
    e: SpecEntry,
) -> Seq<(Seq<char>, Seq<SpecEntry>)>
    decreases bs.len(),
{
    if bs.len() == 0 {
        seq![(k, seq![e])]
    } else if bs[0].0 == k {
        seq![(k, bs[0].1.push(e))] + bs.drop_first()
    } else {
        seq![bs[0]] + add_to_cbucket(bs.drop_first(), k, e)
    }
}

/// The category buckets of the entries, names in first-discovery order,
/// each bucket in discovery order.
pub open spec fn cbuckets(vs: Seq<SpecEntry>) -> Seq<(Seq<char>, Seq<SpecEntry>)>
    decreases vs.len(),
{
    if vs.len() == 0 {
        Seq::empty()
    } else {
        let pre = cbuckets(vs.drop_last());
        match vs.last().data {
            SpecEntryData::Category(k) => add_to_cbucket(pre, k, vs.last()),
            _ => pre,
        }
    }
}

/// The generic entries, in discovery order.
pub open spec fn gen_filter(vs: Seq<SpecEntry>) -> Seq<SpecEntry>
    decreases vs.len(),
{
    if vs.len() == 0 {
        Seq::empty()
    } else {
        let pre = gen_filter(vs.drop_last());
        match vs.last().data {
            SpecEntryData::Generic => pre.push(vs.last()),
            _ => pre,
        }
    }
}

/// Insert a pair into a key-sorted pair sequence, after every pair whose
/// key is not greater, so insertion is stable.
pub open spec fn insert_ppair(
    sorted: Seq<(int, Seq<SpecEntry>)>,
    p: (int, Seq<SpecEntry>),
) -> Seq<(int, Seq<SpecEntry>)>
    decreases sorted.len(),
{
    if sorted.len() == 0 {
        seq![p]
    } else if p.0 < sorted.last().0 {
        insert_ppair(sorted.drop_last(), p).push(sorted.last())
    } else {
        sorted.push(p)
    }
}

/// Insertion sort of priority buckets by key.
pub open spec fn sort_ppairs(bs: Seq<(int, Seq<SpecEntry>)>) -> Seq<(int, Seq<SpecEntry>)>
    decreases bs.len(),
{
    if bs.len() == 0 {
        Seq::empty()
    } else {
        insert_ppair(sort_ppairs(bs.drop_last()), bs.last())
    }
}

/// As `insert_ppair`, with names ordered lexicographically.
pub open spec fn insert_cpair(
    sorted: Seq<(Seq<char>, Seq<SpecEntry>)>,
    p: (Seq<char>, Seq<SpecEntry>),
) -> Seq<(Seq<char>, Seq<SpecEntry>)>
    decreases sorted.len(),
{
    if sorted.len() == 0 {
        seq![p]
    } else if lex_lt(p.0, sorted.last().0) {
        insert_cpair(sorted.drop_last(), p).push(sorted.last())
    } else {
        sorted.push(p)
    }
}

/// Insertion sort of category buckets by name.
pub open spec fn sort_cpairs(bs: Seq<(Seq<char>, Seq<SpecEntry>)>) -> Seq<
    (Seq<char>, Seq<SpecEntry>),
>
    decreases bs.len(),
{
    if bs.len() == 0 {
        Seq::empty()
    } else {
        insert_cpair(sort_cpairs(bs.drop_last()), bs.last())
    }
}

/// Insert an entry into a text-sorted entry sequence, after every entry
/// whose text is not greater, so insertion is stable.
pub open spec fn insert_by_text(sorted: Seq<SpecEntry>, e: SpecEntry) -> Seq<SpecEntry>
    decreases sorted.len(),
{
    if sorted.len() == 0 {
        seq![e]
    } else if lex_lt(e.text, sorted.last().text) {
        insert_by_text(sorted.drop_last(), e).push(sorted.last())
    } else {
        sorted.push(e)
    }
}

/// Stable insertion sort of entries by their text.
pub open spec fn sort_by_text(es: Seq<SpecEntry>) -> Seq<SpecEntry>
    decreases es.len(),
{
    if es.len() == 0 {
        Seq::empty()
    } else {
        insert_by_text(sort_by_text(es.drop_last()), es.last())
    }
}

/// The priority groups of a report: buckets by first discovery, then
/// sorted ascending by key.
pub open spec fn spec_pgroups(vs: Seq<SpecEntry>) -> Seq<(int, Seq<SpecEntry>)> {
    sort_ppairs(pbuckets(vs))
}

/// The category groups of a report: buckets by first discovery, then
/// sorted ascending by name.
pub open spec fn spec_cgroups(vs: Seq<SpecEntry>) -> Seq<(Seq<char>, Seq<SpecEntry>)> {
    sort_cpairs(cbuckets(vs))
}

/// The generic group of a report: discovery order, then stably sorted by
/// text.
pub open spec fn spec_ggroup(vs: Seq<SpecEntry>) -> Seq<SpecEntry> {
    sort_by_text(gen_filter(vs))
}

/// The rendered priority sections, one per group.
pub open spec fn spec_render_psections(gs: Seq<(int, Seq<SpecEntry>)>) -> Seq<char>
    decreases gs.len(),
{
    if gs.len() == 0 {
        Seq::empty()
    } else {
        seq!['#', '#', ' '] + spec_priority_heading(gs[0].0) + seq!['\n'] + spec_render_list(
            gs[0].1,
        ) + seq!['\n'] + spec_render_psections(gs.drop_first())
    }
}

/// The rendered category sections, one per group.
pub open spec fn spec_render_csections(gs: Seq<(Seq<char>, Seq<SpecEntry>)>) -> Seq<char>
    decreases gs.len(),
{
    if gs.len() == 0 {
        Seq::empty()
    } else {
        seq!['#', '#', ' '] + gs[0].0 + seq!['\n'] + spec_render_list(gs[0].1) + seq!['\n']
            + spec_render_csections(gs.drop_first())
    }
}

/// The whole report: a heading, the priority sections in ascending key
/// order, the category sections in ascending name order, and a final
/// section with the generic entries sorted by text.
pub open spec fn spec_render_report(vs: Seq<SpecEntry>) -> Seq<char> {
    seq!['#', ' ', 'T', 'O', 'D', 'O', 's', '\n', '\n'] + spec_render_psections(spec_pgroups(vs))
        + spec_render_csections(spec_cgroups(vs)) + seq![
        '#',
        '#',
        ' ',
        'O',
        't',
        'h',
        'e',
        'r',
        '\n',
    ] + spec_render_list(spec_ggroup(vs))
}

/// Appending to the bucket at `x`, the only one with key `k`, updates
/// just that bucket.
proof fn lemma_add_pbucket_update(bs: Seq<(int, Seq<SpecEntry>)>, k: int, e: SpecEntry, x: int)
    requires
        0 <= x < bs.len(),
        bs[x].0 == k,
        forall|t: int| 0 <= t < x ==> bs[t].0 != k,
    ensures
        add_to_pbucket(bs, k, e) == bs.update(x, (k, bs[x].1.push(e))),
    decreases x,
{
    if x == 0 {
        assert(add_to_pbucket(bs, k, e) =~= bs.update(0, (k, bs[0].1.push(e))));
    } else {
        lemma_add_pbucket_update(bs.drop_first(), k, e, x - 1);
        assert(seq![bs[0]] + bs.drop_first().update(x - 1, (k, bs[x].1.push(e))) =~= bs.update(
            x,
            (k, bs[x].1.push(e)),
        ));
    }
}

/// With no bucket holding key `k`, a new bucket opens at the end.
proof fn lemma_add_pbucket_new(bs: Seq<(int, Seq<SpecEntry>)>, k: int, e: SpecEntry)
    requires
        forall|t: int| 0 <= t < bs.len() ==> bs[t].0 != k,
    ensures
        add_to_pbucket(bs, k, e) == bs.push((k, seq![e])),
    decreases bs.len(),
{
    if bs.len() == 0 {
        assert(add_to_pbucket(bs, k, e) =~= bs.push((k, seq![e])));
    } else {
        lemma_add_pbucket_new(bs.drop_first(), k, e);
        assert(seq![bs[0]] + bs.drop_first().push((k, seq![e])) =~= bs.push((k, seq![e])));
    }
}

/// As `lemma_add_pbucket_update`, for category buckets.
proof fn lemma_add_cbucket_update(
    bs: Seq<(Seq<char>, Seq<SpecEntry>)>,
    k: Seq<char>,
    e: SpecEntry,
    x: int,
)
    requires
        0 <= x < bs.len(),
        bs[x].0 == k,
        forall|t: int| 0 <= t < x ==> bs[t].0 != k,
    ensures
        add_to_cbucket(bs, k, e) == bs.update(x, (k, bs[x].1.push(e))),
    decreases x,
{
    if x == 0 {
        assert(add_to_cbucket(bs, k, e) =~= bs.update(0, (k, bs[0].1.push(e))));
    } else {
        lemma_add_cbucket_update(bs.drop_first(), k, e, x - 1);
        assert(seq![bs[0]] + bs.drop_first().update(x - 1, (k, bs[x].1.push(e))) =~= bs.update(
            x,
            (k, bs[x].1.push(e)),
        ));
    }
}

/// As `lemma_add_pbucket_new`, for category buckets.
proof fn lemma_add_cbucket_new(bs: Seq<(Seq<char>, Seq<SpecEntry>)>, k: Seq<char>, e: SpecEntry)
    requires
        forall|t: int| 0 <= t < bs.len() ==> bs[t].0 != k,
    ensures
        add_to_cbucket(bs, k, e) == bs.push((k, seq![e])),
    decreases bs.len(),
{
    if bs.len() == 0 {
        assert(add_to_cbucket(bs, k, e) =~= bs.push((k, seq![e])));
    } else {
        lemma_add_cbucket_new(bs.drop_first(), k, e);
        assert(seq![bs[0]] + bs.drop_first().push((k, seq![e])) =~= bs.push((k, seq![e])));
    }
}

/// Inserting before exactly the trailing run of greater keys is what
/// `insert_ppair` does.
proof fn lemma_insert_ppair_at(s: Seq<(int, Seq<SpecEntry>)>, p: (int, Seq<SpecEntry>), y: int)
    requires
        0 <= y <= s.len(),
        forall|t: int| y <= t < s.len() ==> s[t].0 > p.0,
        y == 0 || s[y - 1].0 <= p.0,
    ensures
        insert_ppair(s, p) == s.insert(y, p),
    decreases s.len(),
{
    if y == s.len() {
        assert(insert_ppair(s, p) =~= s.insert(y, p));
    } else {
        lemma_insert_ppair_at(s.drop_last(), p, y);
        assert(s.drop_last().insert(y, p).push(s.last()) =~= s.insert(y, p));
    }
}

/// As `lemma_insert_ppair_at`, for category buckets.
proof fn lemma_insert_cpair_at(
    s: Seq<(Seq<char>, Seq<SpecEntry>)>,
    p: (Seq<char>, Seq<SpecEntry>),
    y: int,
)
    requires
        0 <= y <= s.len(),
        forall|t: int| y <= t < s.len() ==> lex_lt(p.0, s[t].0),
        y == 0 || !lex_lt(p.0, s[y - 1].0),
    ensures
        insert_cpair(s, p) == s.insert(y, p),
    decreases s.len(),
{
    if y == s.len() {
        assert(insert_cpair(s, p) =~= s.insert(y, p));
    } else {
        lemma_insert_cpair_at(s.drop_last(), p, y);
        assert(s.drop_last().insert(y, p).push(s.last()) =~= s.insert(y, p));
    }
}

/// As `lemma_insert_ppair_at`, for entries ordered by text.
proof fn lemma_insert_text_at(s: Seq<SpecEntry>, e: SpecEntry, y: int)
    requires
        0 <= y <= s.len(),
        forall|t: int| y <= t < s.len() ==> lex_lt(e.text, s[t].text),
        y == 0 || !lex_lt(e.text, s[y - 1].text),
    ensures
        insert_by_text(s, e) == s.insert(y, e),
    decreases s.len(),
{
    if y == s.len() {
        assert(insert_by_text(s, e) =~= s.insert(y, e));
    } else {
        lemma_insert_text_at(s.drop_last(), e, y);
        assert(s.drop_last().insert(y, e).push(s.last()) =~= s.insert(y, e));
    }
}

/// The grouped, ordered form of a report: every discovered entry stands
/// in exactly one group.
pub struct Grouped {
    /// Priority groups, ascending by value; within one, discovery order.
    pub priorities: Vec<(isize, Vec<Entry>)>,
    /// Category groups, ascending by name; within one, discovery order.
    pub categories: Vec<(String, Vec<Entry>)>,
    /// The generic entries, sorted ascending by text.
    pub generic: Vec<Entry>,
}

/// The views of priority groups.
pub open spec fn pviews(v: Seq<(isize, Vec<Entry>)>) -> Seq<(int, Seq<SpecEntry>)> {
    v.map_values(|p: (isize, Vec<Entry>)| (p.0 as int, entry_views(p.1@)))
}

/// The views of category groups.
pub open spec fn cviews(v: Seq<(String, Vec<Entry>)>) -> Seq<(Seq<char>, Seq<SpecEntry>)> {
    v.map_values(|p: (String, Vec<Entry>)| (p.0@, entry_views(p.1@)))
}

/// Strict lexicographic comparison of two strings.
pub fn str_lex_lt(a: &str, b: &str) -> (r: bool)
    ensures
        r == lex_lt(a@, b@),
{
    let va = chars_of(a);
    let vb = chars_of(b);
    let na = va.len();
    let nb = vb.len();
    proof {
        assert(a@.skip(0) =~= a@);
        assert(b@.skip(0) =~= b@);
    }
    let mut i: usize = 0;
    loop
        invariant
            i <= na,
            i <= nb,
            va@ == a@,
            vb@ == b@,
            na == a@.len(),
            nb == b@.len(),
            lex_lt(a@, b@) == lex_lt(a@.skip(i as int), b@.skip(i as int)),
        decreases na - i,
    {
        let ghost x = a@.skip(i as int);
        let ghost y = b@.skip(i as int);
        if i == nb {
            proof {
                assert(y.len() == 0);
            }
            return false;
        }
        if i == na {
            proof {
                assert(x.len() == 0 && y.len() > 0);
            }
            return true;
        }
        proof {
            assert(x[0] == a@[i as int]);
            assert(y[0] == b@[i as int]);
        }
        let ca = va[i];
        let cb = vb[i];
        if ca < cb {
            return true;
        }
        if ca == cb {
            proof {
                assert(x.drop_first() =~= a@.skip(i as int + 1));
                assert(y.drop_first() =~= b@.skip(i as int + 1));
            }
            i = i + 1;
            continue;
        }
        return false;
    }
}

/// Append the decimal digits of `x`.
fn push_digits(s: &mut String, x: u128)
    ensures
        final(s)@ == old(s)@ + spec_digits(x as nat),
    decreases x,
{
    if x < 10 {
        s.push((48 + (x as u8)) as char);
        proof {
            assert(final(s)@ =~= old(s)@ + spec_digits(x as nat));
        }
    } else {
        let ghost mid = s@ + spec_digits((x / 10) as nat);
        push_digits(s, x / 10);
        s.push((48 + ((x % 10) as u8)) as char);
        proof {
            assert(final(s)@ =~= old(s)@ + spec_digits(x as nat));
        }
    }
}

/// The subsection header for a priority value, as
/// `spec_priority_heading` states it.
pub fn priority_heading(p: isize) -> (s: String)
    ensures
        s@ == spec_priority_heading(p as int),
{
    let mut s = String::new();
    s.push('t');
    s.push('o');
    s.push('d');
    s.push('o');
    if p > 0 {
        push_digits(&mut s, p as u128);
        proof {
            assert(s@ =~= spec_priority_heading(p as int));
        }
    } else {
        s.push('0');
        let ghost base = s@;
        let count = (-(p as i128)) as u128;
        let mut z: u128 = 0;
        while z < count
            invariant
                z <= count,
                s@ == base + zeros(z as nat),
            decreases count - z,
        {
            s.push('0');
            z = z + 1;
            proof {
                assert(s@ =~= base + zeros(z as nat));
            }
        }
        proof {
            assert(base =~= seq!['t', 'o', 'd', 'o', '0']);
            assert(count as nat == (-(p as int)) as nat);
            assert(s@ =~= spec_priority_heading(p as int));
        }
    }
    s
}

impl Entry {
    /// The plain text of this entry's report line, without its ending
    /// line feed: a checkbox, then the text and parenthesized location,
    /// or the bare location when the text is empty.
    pub fn render_line(&self) -> (s: String)
        ensures
            s@ == spec_render_entry(self@),
    {
        let mut s = String::new();
        s.push('-');
        s.push(' ');
        s.push('[');
        s.push(' ');
        s.push(']');
        s.push(' ');
        if !self.text.as_str().is_empty() {
            vstd::string::StringExecFns::append(&mut s, self.text.as_str());
            s.push(' ');
            s.push('(');
            vstd::string::StringExecFns::append(&mut s, self.location.file.as_str());
            s.push(':');
            push_digits(&mut s, self.location.line as u128);
            s.push(')');
            proof {
                assert(s@ =~= spec_render_entry(self@));
            }
        } else {
            vstd::string::StringExecFns::append(&mut s, self.location.file.as_str());
            s.push(':');
            push_digits(&mut s, self.location.line as u128);
            proof {
                assert(s@ =~= spec_render_entry(self@));
            }
        }
        s
    }
}

/// Partition the entries into their report groups and put the groups in
/// canonical order: priority groups ascending by value, category groups
/// ascending by name, generic entries sorted by text, and within each
/// priority or category group the discovery order kept.
#[verifier::rlimit(100)]
pub fn group_entries(entries: Vec<Entry>) -> (g: Grouped)
    ensures
        pviews(g.priorities@) == spec_pgroups(entry_views(entries@)),
        cviews(g.categories@) == spec_cgroups(entry_views(entries@)),
        entry_views(g.generic@) == spec_ggroup(entry_views(entries@)),
{
    let ghost vs = entry_views(entries@);
    let mut rem = entries;
    let mut pb: Vec<(isize, Vec<Entry>)> = Vec::new();
    let mut cb: Vec<(String, Vec<Entry>)> = Vec::new();
    let mut gen: Vec<Entry> = Vec::new();
    let ghost mut done: Seq<SpecEntry> = Seq::empty();
    proof {
        assert(done + entry_views(rem@) =~= vs);
        assert(pviews(pb@) =~= pbuckets(done));
        assert(cviews(cb@) =~= cbuckets(done));
        assert(entry_views(gen@) =~= gen_filter(done));
    }
    while rem.len() > 0
        invariant
            done + entry_views(rem@) == vs,
            pviews(pb@) == pbuckets(done),
            cviews(cb@) == cbuckets(done),
            entry_views(gen@) == gen_filter(done),
        decreases rem@.len(),
    {
        let ghost rem_before = rem@;
        let e = rem.remove(0);
        let ghost ev = e@;
        let ghost done_new = done.push(ev);
        proof {
            assert(entry_views(rem_before) =~= seq![ev] + entry_views(rem@));
            assert(done_new + entry_views(rem@) =~= vs);
            assert(done_new.drop_last() =~= done);
            assert(done_new.last() == ev);
        }
        match &e.data {
            EntryData::Priority(pr) => {
                let key: isize = *pr;
                proof {
                    assert(ev.data == SpecEntryData::Priority(key as int));
                    assert(pbuckets(done_new) == add_to_pbucket(pbuckets(done), key as int, ev));
                    assert(cbuckets(done_new) == cbuckets(done));
                    assert(gen_filter(done_new) == gen_filter(done));
                }
                let m = pb.len();
                let mut x: usize = 0;
                while x < m && pb[x].0 != key
                    invariant
                        x <= m == pb@.len(),
                        forall|t: int| 0 <= t < x ==> pb@[t].0 != key,
                    decreases m - x,
                {
                    x = x + 1;
                }
                let ghost pbv = pviews(pb@);
                if x < m {
                    let mut pair = pb.remove(x);
                    pair.1.push(e);
                    pb.insert(x, pair);
                    proof {
                        assert(forall|t: int| 0 <= t < x ==> pbv[t].0 != key as int);
                        assert(pbv[x as int].0 == key as int);
                        lemma_add_pbucket_update(pbv, key as int, ev, x as int);
                        assert(entry_views(pair.1@) =~= pbv[x as int].1.push(ev));
                        assert(pviews(pb@) =~= pbv.update(
                            x as int,
                            (key as int, pbv[x as int].1.push(ev)),
                        ));
                    }
                } else {
                    pb.push((key, vec![e]));
                    proof {
                        assert(forall|t: int| 0 <= t < pbv.len() ==> pbv[t].0 != key as int);
                        lemma_add_pbucket_new(pbv, key as int, ev);
                        assert(entry_views(pb@.last().1@) =~= seq![ev]);
                        assert(pviews(pb@) =~= pbv.push((key as int, seq![ev])));
                    }
                }
            },
            EntryData::Category(name) => {
                let key: String = name.clone();
                proof {
                    assert(ev.data == SpecEntryData::Category(key@));
                    assert(cbuckets(done_new) == add_to_cbucket(cbuckets(done), key@, ev));
                    assert(pbuckets(done_new) == pbuckets(done));
                    assert(gen_filter(done_new) == gen_filter(done));
                }
                let m = cb.len();
                let mut x: usize = 0;
                while x < m && !cb[x].0.eq(&key)
                    invariant
                        x <= m == cb@.len(),
                        forall|t: int| 0 <= t < x ==> cb@[t].0@ != key@,
                    decreases m - x,
                {
                    x = x + 1;
                }
                let ghost cbv = cviews(cb@);
                if x < m {
                    let mut pair = cb.remove(x);
                    pair.1.push(e);
                    cb.insert(x, pair);
                    proof {
                        assert(forall|t: int| 0 <= t < x ==> cbv[t].0 != key@);
                        assert(cbv[x as int].0 == key@);
                        lemma_add_cbucket_update(cbv, key@, ev, x as int);
                        assert(entry_views(pair.1@) =~= cbv[x as int].1.push(ev));
                        assert(cviews(cb@) =~= cbv.update(x as int, (key@, cbv[x as int].1.push(
                            ev,
                        ))));
                    }
                } else {
                    cb.push((key, vec![e]));
                    proof {
                        assert(forall|t: int| 0 <= t < cbv.len() ==> cbv[t].0 != cb@.last().0@);
                        lemma_add_cbucket_new(cbv, cb@.last().0@, ev);
                        assert(entry_views(cb@.last().1@) =~= seq![ev]);
                        assert(cviews(cb@) =~= cbv.push((cb@.last().0@, seq![ev])));
                    }
                }
            },
            EntryData::Generic => {
                proof {
                    assert(ev.data == SpecEntryData::Generic);
                    assert(gen_filter(done_new) == gen_filter(done).push(ev));
                    assert(pbuckets(done_new) == pbuckets(done));
                    assert(cbuckets(done_new) == cbuckets(done));
                }
                let ghost gv = entry_views(gen@);
                gen.push(e);
                proof {
                    assert(entry_views(gen@) =~= gv.push(ev));
                }
            },
        }
        proof {
            done = done_new;
        }
    }
    proof {
        assert(entry_views(rem@) =~= Seq::<SpecEntry>::empty());
        assert(done =~= vs);
    }
    // sort the priority groups ascending by key
    let ghost pb_all = pviews(pb@);
    let mut sp: Vec<(isize, Vec<Entry>)> = Vec::new();
    let ghost mut pdone: Seq<(int, Seq<SpecEntry>)> = Seq::empty();
    proof {
        assert(pdone + pviews(pb@) =~= pb_all);
        assert(pviews(sp@) =~= sort_ppairs(pdone));
    }
    while pb.len() > 0
        invariant
            pdone + pviews(pb@) == pb_all,
            pviews(sp@) == sort_ppairs(pdone),
        decreases pb@.len(),
    {
        let ghost before = pviews(pb@);
        let pair = pb.remove(0);
        let ghost pv = (pair.0 as int, entry_views(pair.1@));
        let ghost pdone_new = pdone.push(pv);
        proof {
            assert(before =~= seq![pv] + pviews(pb@));
            assert(pdone_new + pviews(pb@) =~= pb_all);
            assert(pdone_new.drop_last() =~= pdone);
            assert(sort_ppairs(pdone_new) == insert_ppair(sort_ppairs(pdone), pv));
        }
        let key = pair.0;
        let mut y = sp.len();
        while y > 0 && sp[y - 1].0 > key
            invariant
                y <= sp@.len(),
                forall|t: int| y <= t < sp@.len() ==> sp@[t].0 > key,
            decreases y,
        {
            y = y - 1;
        }
        let ghost spv = pviews(sp@);
        sp.insert(y, pair);
        proof {
            assert(forall|t: int| y <= t < spv.len() ==> spv[t].0 > pv.0);
            lemma_insert_ppair_at(spv, pv, y as int);
            assert(pviews(sp@) =~= spv.insert(y as int, pv));
            pdone = pdone_new;
        }
    }
    proof {
        assert(pviews(pb@) =~= Seq::<(int, Seq<SpecEntry>)>::empty());
        assert(pdone =~= pb_all);
    }
    // sort the category groups ascending by name
    let ghost cb_all = cviews(cb@);
    let mut sc: Vec<(String, Vec<Entry>)> = Vec::new();
    let ghost mut cdone: Seq<(Seq<char>, Seq<SpecEntry>)> = Seq::empty();
    proof {
        assert(cdone + cviews(cb@) =~= cb_all);
        assert(cviews(sc@) =~= sort_cpairs(cdone));
    }
    while cb.len() > 0
        invariant
            cdone + cviews(cb@) == cb_all,
            cviews(sc@) == sort_cpairs(cdone),
        decreases cb@.len(),
    {
        let ghost before = cviews(cb@);
        let pair = cb.remove(0);
        let ghost cv = (pair.0@, entry_views(pair.1@));
        let ghost cdone_new = cdone.push(cv);
        proof {
            assert(before =~= seq![cv] + cviews(cb@));
            assert(cdone_new + cviews(cb@) =~= cb_all);
            assert(cdone_new.drop_last() =~= cdone);
            assert(sort_cpairs(cdone_new) == insert_cpair(sort_cpairs(cdone), cv));
        }
        let mut y = sc.len();
        while y > 0 && str_lex_lt(pair.0.as_str(), sc[y - 1].0.as_str())
            invariant
                y <= sc@.len(),
                forall|t: int| y <= t < sc@.len() ==> lex_lt(pair.0@, sc@[t].0@),
            decreases y,
        {
            y = y - 1;
        }
        let ghost scv = cviews(sc@);
        sc.insert(y, pair);
        proof {
            assert(forall|t: int| y <= t < scv.len() ==> lex_lt(cv.0, scv[t].0));
            lemma_insert_cpair_at(scv, cv, y as int);
            assert(cviews(sc@) =~= scv.insert(y as int, cv));
            cdone = cdone_new;
        }
    }
    proof {
        assert(cviews(cb@) =~= Seq::<(Seq<char>, Seq<SpecEntry>)>::empty());
        assert(cdone =~= cb_all);
    }
    // sort the generic entries ascending by text, stably
    let ghost gen_all = entry_views(gen@);
    let mut sg: Vec<Entry> = Vec::new();
    let ghost mut gdone: Seq<SpecEntry> = Seq::empty();
    proof {
        assert(gdone + entry_views(gen@) =~= gen_all);
        assert(entry_views(sg@) =~= sort_by_text(gdone));
    }
    while gen.len() > 0
        invariant
            gdone + entry_views(gen@) == gen_all,
            entry_views(sg@) == sort_by_text(gdone),
        decreases gen@.len(),
    {
        let ghost before = entry_views(gen@);
        let e = gen.remove(0);
        let ghost ev = e@;
        let ghost gdone_new = gdone.push(ev);
        proof {
            assert(before =~= seq![ev] + entry_views(gen@));
            assert(gdone_new + entry_views(gen@) =~= gen_all);
            assert(gdone_new.drop_last() =~= gdone);
            assert(sort_by_text(gdone_new) == insert_by_text(sort_by_text(gdone), ev));
        }
        let mut y = sg.len();
        while y > 0 && str_lex_lt(e.text.as_str(), sg[y - 1].text.as_str())
            invariant
                y <= sg@.len(),
                forall|t: int| y <= t < sg@.len() ==> lex_lt(e.text@, sg@[t].text@),
            decreases y,
        {
            y = y - 1;
        }
        let ghost sgv = entry_views(sg@);
        sg.insert(y, e);
        proof {
            assert(forall|t: int| y <= t < sgv.len() ==> lex_lt(ev.text, sgv[t].text));
            lemma_insert_text_at(sgv, ev, y as int);
            assert(entry_views(sg@) =~= sgv.insert(y as int, ev));
            gdone = gdone_new;
        }
    }
    proof {
        assert(entry_views(gen@) =~= Seq::<SpecEntry>::empty());
        assert(gdone =~= gen_all);
    }
    Grouped { priorities: sp, categories: sc, generic: sg }
}

/// Append the rendered lines of the entries, in order.
fn append_list(out: &mut String, es: &Vec<Entry>)
    ensures
        final(out)@ == old(out)@ + spec_render_list(entry_views(es@)),
{
    let ghost vs = entry_views(es@);
    proof {
        assert(vs.skip(0) =~= vs);
    }
    let n = es.len();
    let mut x: usize = 0;
    while x < n
        invariant
            x <= n == es@.len(),
            vs == entry_views(es@),
            old(out)@ + spec_render_list(vs) == out@ + spec_render_list(vs.skip(x as int)),
        decreases n - x,
    {
        let ghost rem = vs.skip(x as int);
        let line = es[x].render_line();
        vstd::string::StringExecFns::append(out, line.as_str());
        out.push('\n');
        proof {
            assert(rem[0] == vs[x as int]);
            assert(rem.drop_first() =~= vs.skip(x as int + 1));
            assert(old(out)@ + spec_render_list(vs) =~= out@ + spec_render_list(
                vs.skip(x as int + 1),
            ));
        }
        x = x + 1;
    }
    proof {
        assert(vs.skip(n as int) =~= Seq::<SpecEntry>::empty());
        assert(final(out)@ =~= old(out)@ + spec_render_list(vs));
    }
}

/// Serialize the whole report: the heading, the priority sections in
/// ascending value order, the category sections in ascending name order,
/// and a final section with the generic entries sorted by text.
#[verifier::rlimit(50)]
pub fn render_entries(entries: Vec<Entry>) -> (out: String)
    ensures
        out@ == spec_render_report(entry_views(entries@)),
{
    let ghost vs = entry_views(entries@);
    let g = group_entries(entries);
    let ghost pg = spec_pgroups(vs);
    let ghost cg = spec_cgroups(vs);
    let mut out = String::new();
    out.push('#');
    out.push(' ');
    out.push('T');
    out.push('O');
    out.push('D');
    out.push('O');
    out.push('s');
    out.push('\n');
    out.push('\n');
    let ghost header = out@;
    proof {
        assert(header =~= seq!['#', ' ', 'T', 'O', 'D', 'O', 's', '\n', '\n']);
        assert(pg.skip(0) =~= pg);
    }
    let pn = g.priorities.len();
    let mut x: usize = 0;
    while x < pn
        invariant
            x <= pn == g.priorities@.len(),
            pviews(g.priorities@) == pg,
            header + spec_render_psections(pg) == out@ + spec_render_psections(pg.skip(x as int)),
        decreases pn - x,
    {
        let ghost rem = pg.skip(x as int);
        proof {
            assert(rem[0] == pg[x as int]);
            assert(rem.drop_first() =~= pg.skip(x as int + 1));
        }
        out.push('#');
        out.push('#');
        out.push(' ');
        let key = g.priorities[x].0;
        let h = priority_heading(key);
        vstd::string::StringExecFns::append(&mut out, h.as_str());
        out.push('\n');
        append_list(&mut out, &g.priorities[x].1);
        out.push('\n');
        proof {
            assert(header + spec_render_psections(pg) =~= out@ + spec_render_psections(
                pg.skip(x as int + 1),
            ));
        }
        x = x + 1;
    }
    proof {
        assert(pg.skip(pn as int) =~= Seq::<(int, Seq<SpecEntry>)>::empty());
        assert(out@ =~= header + spec_render_psections(pg));
        assert(cg.skip(0) =~= cg);
    }
    let ghost mid = out@;
    let cn = g.categories.len();
    let mut x2: usize = 0;
    while x2 < cn
        invariant
            x2 <= cn == g.categories@.len(),
            cviews(g.categories@) == cg,
            mid + spec_render_csections(cg) == out@ + spec_render_csections(cg.skip(x2 as int)),
        decreases cn - x2,
    {
        let ghost rem = cg.skip(x2 as int);
        proof {
            assert(rem[0] == cg[x2 as int]);
            assert(rem.drop_first() =~= cg.skip(x2 as int + 1));
        }
        out.push('#');
        out.push('#');
        out.push(' ');
        vstd::string::StringExecFns::append(&mut out, g.categories[x2].0.as_str());
        out.push('\n');
        append_list(&mut out, &g.categories[x2].1);
        out.push('\n');
        proof {
            assert(mid + spec_render_csections(cg) =~= out@ + spec_render_csections(
                cg.skip(x2 as int + 1),
            ));
        }
        x2 = x2 + 1;
    }
    proof {
        assert(cg.skip(cn as int) =~= Seq::<(Seq<char>, Seq<SpecEntry>)>::empty());
        assert(out@ =~= mid + spec_render_csections(cg));
    }
    let ghost mid2 = out@;
    out.push('#');
    out.push('#');
    out.push(' ');
    out.push('O');
    out.push('t');
    out.push('h');
    out.push('e');
    out.push('r');
    out.push('\n');
    proof {
        assert(out@ =~= mid2 + seq!['#', '#', ' ', 'O', 't', 'h', 'e', 'r', '\n']);
    }
    append_list(&mut out, &g.generic);
    proof {
        assert(out@ =~= spec_render_report(vs));
    }
    out
}

} // verus!
