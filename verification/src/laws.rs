//! Properties of the scanner and the renderer that hold of all inputs,
//! each stated and proved over the specification functions that the
//! executable functions' contracts use.

use vstd::prelude::*;

use crate::entries::{SpecEntry, SpecEntryData};
use crate::render::{
    insert_by_text, insert_cpair, insert_ppair, lex_lt, pbuckets, cbuckets, gen_filter,
    sort_by_text, sort_cpairs, sort_ppairs, spec_cgroups, spec_ggroup, spec_pgroups, zeros,
};
use crate::scan::{
    TokenKind, line_items, spec_clean_text, spec_gitignore_base, spec_parse_priority,
    spec_scan_line, spec_scan_string, spec_tokens, strip_colons, token_kind, category_of,
    gitignore_skips,
};
use crate::text::{digit_val, is_digit, trim};

verus! {

/// A marker followed only by zero digits encodes one minus their count:
/// one zero encodes zero, each further zero goes one step more urgent.
pub proof fn lemma_priority_zeros(k: nat)
    requires
        1 <= k,
    ensures
        spec_parse_priority(seq!['t', 'o', 'd', 'o'] + zeros(k)) == Some(1 - k),
    decreases k,
{
    lemma_zeros_shape(k);
    let w = seq!['t', 'o', 'd', 'o'] + zeros(k);
    assert(w.subrange(4, w.len() as int) =~= zeros(k));
    if k == 1 {
        assert(zeros(1)[0] == '0');
    }
}

proof fn lemma_zeros_shape(k: nat)
    ensures
        zeros(k).len() == k,
        forall|i: int| 0 <= i < k ==> zeros(k)[i] == '0',
    decreases k,
{
    if k > 0 {
        lemma_zeros_shape((k - 1) as nat);
    }
}

/// A marker followed by exactly one digit encodes that digit's value.
pub proof fn lemma_priority_digit(d: char)
    requires
        is_digit(d),
    ensures
        spec_parse_priority(seq!['t', 'o', 'd', 'o'].push(d)) == Some(digit_val(d)),
{
    let w = seq!['t', 'o', 'd', 'o'].push(d);
    assert(w.subrange(4, w.len() as int) =~= seq![d]);
}

/// Scanning unchanged input twice yields identical entry lists, same
/// order and same content: what any of the three scanners appends is a
/// function of the text and the file name alone, which each scanner's
/// own contract states.
pub proof fn lemma_scan_idempotent(
    content: Seq<char>,
    file: Seq<char>,
    first_run: Seq<SpecEntry>,
    second_run: Seq<SpecEntry>,
)
    requires
        first_run == spec_scan_string(content, file),
        second_run == spec_scan_string(content, file),
    ensures
        first_run == second_run,
{
}

/// A gitignore holding a line that trims to a lone star excludes its
/// whole base directory, wherever in the file that line stands.
pub proof fn lemma_star_excludes_base(ls: Seq<Seq<char>>, k: int)
    requires
        0 <= k < ls.len(),
        trim(ls[k]) == seq!['*'],
    ensures
        spec_gitignore_base(ls),
    decreases k,
{
    let t = trim(ls[0]);
    if k == 0 {
        assert(!gitignore_skips(t));
    } else {
        if gitignore_skips(t) || t != seq!['*'] {
            lemma_star_excludes_base(ls.drop_first(), k - 1);
        }
    }
}

/// Lexicographic order is irreflexive.
pub proof fn lemma_lex_irrefl(a: Seq<char>)
    ensures
        !lex_lt(a, a),
    decreases a.len(),
{
    if a.len() > 0 {
        lemma_lex_irrefl(a.drop_first());
    }
}

/// Lexicographic order is total: two sequences compare one way, the
/// other way, or are equal.
pub proof fn lemma_lex_total(a: Seq<char>, b: Seq<char>)
    ensures
        lex_lt(a, b) || lex_lt(b, a) || a == b,
    decreases a.len(),
{
    if a.len() > 0 && b.len() > 0 && a[0] == b[0] {
        lemma_lex_total(a.drop_first(), b.drop_first());
        if a.drop_first() == b.drop_first() {
            assert forall|i: int| 1 <= i < a.len() implies a[i] == b[i] by {
                assert(a.drop_first()[i - 1] == b.drop_first()[i - 1]);
            }
            assert(a =~= b);
        }
    } else if a.len() == 0 && b.len() == 0 {
        assert(a =~= b);
    }
}

/// Lexicographic order is transitive.
pub proof fn lemma_lex_trans(a: Seq<char>, b: Seq<char>, c: Seq<char>)
    requires
        lex_lt(a, b),
        lex_lt(b, c),
    ensures
        lex_lt(a, c),
    decreases a.len(),
{
    if a.len() > 0 && b.len() > 0 && c.len() > 0 && a[0] == b[0] && b[0] == c[0] {
        lemma_lex_trans(a.drop_first(), b.drop_first(), c.drop_first());
    }
}

/// The non-strict side: at-most relations chain.
pub proof fn lemma_lex_le_trans(a: Seq<char>, b: Seq<char>, c: Seq<char>)
    requires
        !lex_lt(b, a),
        !lex_lt(c, b),
    ensures
        !lex_lt(c, a),
{
    if lex_lt(c, a) {
        lemma_lex_total(a, b);
        if a == b {
        } else if lex_lt(a, b) {
            lemma_lex_trans(c, a, b);
        }
    }
}

/// Priority groups in ascending key order.
pub open spec fn psorted(s: Seq<(int, Seq<SpecEntry>)>) -> bool {
    forall|i: int, j: int| 0 <= i < j < s.len() ==> #[trigger] s[i].0 <= #[trigger] s[j].0
}

/// Category groups in ascending name order.
pub open spec fn csorted(s: Seq<(Seq<char>, Seq<SpecEntry>)>) -> bool {
    forall|i: int, j: int| 0 <= i < j < s.len() ==> !lex_lt(#[trigger] s[j].0, #[trigger] s[i].0)
}

/// Entries in ascending text order.
pub open spec fn gsorted(s: Seq<SpecEntry>) -> bool {
    forall|i: int, j: int|
        0 <= i < j < s.len() ==> !lex_lt(#[trigger] s[j].text, #[trigger] s[i].text)
}

proof fn lemma_insert_ppair_elems(s: Seq<(int, Seq<SpecEntry>)>, p: (int, Seq<SpecEntry>))
    ensures
        forall|t: int|
            0 <= t < insert_ppair(s, p).len() ==> (#[trigger] insert_ppair(s, p)[t] == p
                || s.contains(insert_ppair(s, p)[t])),
    decreases s.len(),
{
    if s.len() > 0 && p.0 < s.last().0 {
        lemma_insert_ppair_elems(s.drop_last(), p);
        assert forall|t: int| 0 <= t < insert_ppair(s, p).len() implies (#[trigger] insert_ppair(
            s,
            p,
        )[t] == p || s.contains(insert_ppair(s, p)[t])) by {
            let r = insert_ppair(s.drop_last(), p);
            if t < r.len() {
                if r[t] != p {
                    let x = choose|x: int| 0 <= x < s.drop_last().len() && s.drop_last()[x] == r[t];
                    assert(s[x] == r[t]);
                }
            } else {
                assert(insert_ppair(s, p)[t] == s.last());
                assert(s[s.len() - 1] == s.last());
            }
        }
    }
}

proof fn lemma_insert_ppair_sorted(s: Seq<(int, Seq<SpecEntry>)>, p: (int, Seq<SpecEntry>))
    requires
        psorted(s),
    ensures
        psorted(insert_ppair(s, p)),
    decreases s.len(),
{
    if s.len() == 0 {
    } else if p.0 < s.last().0 {
        assert(psorted(s.drop_last()));
        lemma_insert_ppair_sorted(s.drop_last(), p);
        lemma_insert_ppair_elems(s.drop_last(), p);
        let r = insert_ppair(s.drop_last(), p);
        assert forall|t: int| 0 <= t < r.len() implies r[t].0 <= s.last().0 by {
            if r[t] != p {
                let x = choose|x: int| 0 <= x < s.drop_last().len() && s.drop_last()[x] == r[t];
                assert(s[x] == r[t]);
                assert(s[x].0 <= s[s.len() - 1].0);
            }
        }
        assert(psorted(r.push(s.last())));
    } else {
        assert forall|i: int| 0 <= i < s.len() implies s[i].0 <= p.0 by {
            if i < s.len() - 1 {
                assert(s[i].0 <= s[s.len() - 1].0);
            }
        }
        assert(psorted(s.push(p)));
    }
}

proof fn lemma_sort_ppairs_sorted(bs: Seq<(int, Seq<SpecEntry>)>)
    ensures
        psorted(sort_ppairs(bs)),
    decreases bs.len(),
{
    if bs.len() > 0 {
        lemma_sort_ppairs_sorted(bs.drop_last());
        lemma_insert_ppair_sorted(sort_ppairs(bs.drop_last()), bs.last());
    }
}

/// The report's priority sections stand in ascending numeric order,
/// whatever order the entries were discovered in.
pub proof fn lemma_priority_sections_ascending(vs: Seq<SpecEntry>)
    ensures
        psorted(spec_pgroups(vs)),
{
    lemma_sort_ppairs_sorted(pbuckets(vs));
}

proof fn lemma_insert_cpair_elems(
    s: Seq<(Seq<char>, Seq<SpecEntry>)>,
    p: (Seq<char>, Seq<SpecEntry>),
)
    ensures
        forall|t: int|
            0 <= t < insert_cpair(s, p).len() ==> (#[trigger] insert_cpair(s, p)[t] == p
                || s.contains(insert_cpair(s, p)[t])),
    decreases s.len(),
{
    if s.len() > 0 && lex_lt(p.0, s.last().0) {
        lemma_insert_cpair_elems(s.drop_last(), p);
        assert forall|t: int| 0 <= t < insert_cpair(s, p).len() implies (#[trigger] insert_cpair(
            s,
            p,
        )[t] == p || s.contains(insert_cpair(s, p)[t])) by {
            let r = insert_cpair(s.drop_last(), p);
            if t < r.len() {
                if r[t] != p {
                    let x = choose|x: int| 0 <= x < s.drop_last().len() && s.drop_last()[x] == r[t];
                    assert(s[x] == r[t]);
                }
            } else {
                assert(insert_cpair(s, p)[t] == s.last());
                assert(s[s.len() - 1] == s.last());
            }
        }
    }
}

proof fn lemma_insert_cpair_sorted(
    s: Seq<(Seq<char>, Seq<SpecEntry>)>,
    p: (Seq<char>, Seq<SpecEntry>),
)
    requires
        csorted(s),
    ensures
        csorted(insert_cpair(s, p)),
    decreases s.len(),
{
    if s.len() == 0 {
    } else if lex_lt(p.0, s.last().0) {
        assert(csorted(s.drop_last()));
        lemma_insert_cpair_sorted(s.drop_last(), p);
        lemma_insert_cpair_elems(s.drop_last(), p);
        let r = insert_cpair(s.drop_last(), p);
        assert forall|t: int| 0 <= t < r.len() implies !lex_lt(s.last().0, r[t].0) by {
            if r[t] == p {
                lemma_lex_irrefl(p.0);
                if lex_lt(s.last().0, p.0) {
                    lemma_lex_trans(p.0, s.last().0, p.0);
                }
            } else {
                let x = choose|x: int| 0 <= x < s.drop_last().len() && s.drop_last()[x] == r[t];
                assert(s[x] == r[t]);
                assert(!lex_lt(s[s.len() - 1].0, s[x].0));
            }
        }
        assert(csorted(r.push(s.last())));
    } else {
        assert forall|i: int| 0 <= i < s.len() implies !lex_lt(p.0, s[i].0) by {
            if i < s.len() - 1 {
                assert(!lex_lt(s[s.len() - 1].0, s[i].0));
            } else {
                lemma_lex_irrefl(s.last().0);
            }
            lemma_lex_le_trans(s[i].0, s.last().0, p.0);
        }
        assert(csorted(s.push(p)));
    }
}

proof fn lemma_sort_cpairs_sorted(bs: Seq<(Seq<char>, Seq<SpecEntry>)>)
    ensures
        csorted(sort_cpairs(bs)),
    decreases bs.len(),
{
    if bs.len() > 0 {
        lemma_sort_cpairs_sorted(bs.drop_last());
        lemma_insert_cpair_sorted(sort_cpairs(bs.drop_last()), bs.last());
    }
}

/// The report's category sections stand in ascending lexicographic
/// order of their names, whatever order the entries were discovered in.
pub proof fn lemma_category_sections_ascending(vs: Seq<SpecEntry>)
    ensures
        csorted(spec_cgroups(vs)),
{
    lemma_sort_cpairs_sorted(cbuckets(vs));
}

proof fn lemma_insert_text_elems(s: Seq<SpecEntry>, e: SpecEntry)
    ensures
        forall|t: int|
            0 <= t < insert_by_text(s, e).len() ==> (#[trigger] insert_by_text(s, e)[t] == e
                || s.contains(insert_by_text(s, e)[t])),
    decreases s.len(),
{
    if s.len() > 0 && lex_lt(e.text, s.last().text) {
        lemma_insert_text_elems(s.drop_last(), e);
        assert forall|t: int| 0 <= t < insert_by_text(s, e).len() implies (#[trigger] insert_by_text(
            s,
            e,
        )[t] == e || s.contains(insert_by_text(s, e)[t])) by {
            let r = insert_by_text(s.drop_last(), e);
            if t < r.len() {
                if r[t] != e {
                    let x = choose|x: int| 0 <= x < s.drop_last().len() && s.drop_last()[x] == r[t];
                    assert(s[x] == r[t]);
                }
            } else {
                assert(insert_by_text(s, e)[t] == s.last());
                assert(s[s.len() - 1] == s.last());
            }
        }
    }
}

proof fn lemma_insert_text_sorted(s: Seq<SpecEntry>, e: SpecEntry)
    requires
        gsorted(s),
    ensures
        gsorted(insert_by_text(s, e)),
    decreases s.len(),
{
    if s.len() == 0 {
    } else if lex_lt(e.text, s.last().text) {
        assert(gsorted(s.drop_last()));
        lemma_insert_text_sorted(s.drop_last(), e);
        lemma_insert_text_elems(s.drop_last(), e);
        let r = insert_by_text(s.drop_last(), e);
        assert forall|t: int| 0 <= t < r.len() implies !lex_lt(s.last().text, r[t].text) by {
            if r[t] == e {
                lemma_lex_irrefl(e.text);
                if lex_lt(s.last().text, e.text) {
                    lemma_lex_trans(e.text, s.last().text, e.text);
                }
            } else {
                let x = choose|x: int| 0 <= x < s.drop_last().len() && s.drop_last()[x] == r[t];
                assert(s[x] == r[t]);
                assert(!lex_lt(s[s.len() - 1].text, s[x].text));
            }
        }
        assert(gsorted(r.push(s.last())));
    } else {
        assert forall|i: int| 0 <= i < s.len() implies !lex_lt(e.text, s[i].text) by {
            if i < s.len() - 1 {
                assert(!lex_lt(s[s.len() - 1].text, s[i].text));
            } else {
                lemma_lex_irrefl(s.last().text);
            }
            lemma_lex_le_trans(s[i].text, s.last().text, e.text);
        }
        assert(gsorted(s.push(e)));
    }
}

proof fn lemma_sort_by_text_sorted(es: Seq<SpecEntry>)
    ensures
        gsorted(sort_by_text(es)),
    decreases es.len(),
{
    if es.len() > 0 {
        lemma_sort_by_text_sorted(es.drop_last());
        lemma_insert_text_sorted(sort_by_text(es.drop_last()), es.last());
    }
}

/// The generic entries of a report stand in ascending lexicographic
/// order of their texts; the empty text sorts first.
pub proof fn lemma_generic_entries_sorted(vs: Seq<SpecEntry>)
    ensures
        gsorted(spec_ggroup(vs)),
{
    lemma_sort_by_text_sorted(gen_filter(vs));
}

/// A token that ends the scan of its line: the macro-call, bare and
/// category forms do; priority and non-marker tokens do not.
pub open spec fn is_stopper(w: Seq<char>) -> bool {
    token_kind(w) is Bang || token_kind(w) is Bare || token_kind(w) is Category
}

/// The single item a stopping token yields.
pub open spec fn stop_item(line: Seq<char>, w: Seq<char>) -> (SpecEntryData, Seq<char>) {
    match token_kind(w) {
        TokenKind::Bang => (SpecEntryData::Generic, trim(line)),
        TokenKind::Bare => (SpecEntryData::Generic, spec_clean_text(line, w)),
        TokenKind::Category(name) => (SpecEntryData::Category(name), spec_clean_text(line, w)),
        _ => (SpecEntryData::Generic, Seq::empty()),
    }
}

proof fn lemma_line_items_stopper(line: Seq<char>, toks: Seq<Seq<char>>, idx: int)
    requires
        0 <= idx < toks.len(),
        is_stopper(toks[idx]),
        forall|t: int| 0 <= t < idx ==> !is_stopper(#[trigger] toks[t]),
    ensures
        line_items(line, toks) == line_items(line, toks.take(idx)) + seq![
            stop_item(line, toks[idx]),
        ],
        forall|t: int|
            0 <= t < line_items(line, toks.take(idx)).len() ==> #[trigger] line_items(
                line,
                toks.take(idx),
            )[t].0 is Priority,
    decreases idx,
{
    if idx == 0 {
        assert(toks.take(0) =~= Seq::<Seq<char>>::empty());
        assert(line_items(line, toks) =~= line_items(line, toks.take(0)) + seq![
            stop_item(line, toks[0]),
        ]);
    } else {
        let rest = toks.drop_first();
        let pre = toks.take(idx);
        assert(rest[idx - 1] == toks[idx]);
        assert(forall|t: int| 0 <= t < idx - 1 ==> rest[t] == toks[t + 1]);
        lemma_line_items_stopper(line, rest, idx - 1);
        assert(pre[0] == toks[0]);
        assert(pre.drop_first() =~= rest.take(idx - 1));
        match token_kind(toks[0]) {
            TokenKind::NotMarker => {
                assert(line_items(line, toks) == line_items(line, rest));
                assert(line_items(line, pre) == line_items(line, rest.take(idx - 1)));
            },
            TokenKind::Malformed => {
                assert(line_items(line, toks) == line_items(line, rest));
                assert(line_items(line, pre) == line_items(line, rest.take(idx - 1)));
            },
            TokenKind::Priority(p) => {
                let head = seq![(SpecEntryData::Priority(p), spec_clean_text(line, toks[0]))];
                assert(line_items(line, toks) == head + line_items(line, rest));
                assert(line_items(line, pre) == head + line_items(line, rest.take(idx - 1)));
                assert(head + (line_items(line, rest.take(idx - 1)) + seq![
                    stop_item(line, toks[idx]),
                ]) =~= (head + line_items(line, rest.take(idx - 1))) + seq![
                    stop_item(line, toks[idx]),
                ]);
                assert(forall|t: int|
                    0 <= t < line_items(line, pre).len() ==> #[trigger] line_items(line, pre)[t].0
                        is Priority);
            },
            _ => {
                assert(false);
            },
        }
    }
}

/// A line whose first stopping marker token is a bare marker yields,
/// after the priority entries of any earlier tokens, exactly one
/// generic item, whose text is the cleaned remainder of the line after
/// that token; nothing follows it.
pub proof fn lemma_bare_marker_entry(line: Seq<char>, idx: int)
    requires
        0 <= idx < spec_tokens(line).len(),
        token_kind(spec_tokens(line)[idx]) is Bare,
        forall|t: int| 0 <= t < idx ==> !is_stopper(#[trigger] spec_tokens(line)[t]),
    ensures
        spec_scan_line(line) == line_items(line, spec_tokens(line).take(idx)) + seq![
            (SpecEntryData::Generic, spec_clean_text(line, spec_tokens(line)[idx])),
        ],
        forall|t: int|
            0 <= t < line_items(line, spec_tokens(line).take(idx)).len() ==> #[trigger] line_items(
                line,
                spec_tokens(line).take(idx),
            )[t].0 is Priority,
{
    lemma_line_items_stopper(line, spec_tokens(line), idx);
}

/// A line whose first stopping marker token carries a category yields,
/// after the priority entries of any earlier tokens, exactly one
/// category item: its name is everything after the first `@` of the
/// colon-stripped token, case preserved, and its text is the cleaned
/// remainder of the line after that token; nothing follows it.
pub proof fn lemma_category_marker_entry(line: Seq<char>, idx: int)
    requires
        0 <= idx < spec_tokens(line).len(),
        token_kind(spec_tokens(line)[idx]) is Category,
        forall|t: int| 0 <= t < idx ==> !is_stopper(#[trigger] spec_tokens(line)[t]),
    ensures
        spec_scan_line(line) == line_items(line, spec_tokens(line).take(idx)) + seq![
            (
                SpecEntryData::Category(category_of(strip_colons(spec_tokens(line)[idx]))),
                spec_clean_text(line, spec_tokens(line)[idx]),
            ),
        ],
        forall|t: int|
            0 <= t < line_items(line, spec_tokens(line).take(idx)).len() ==> #[trigger] line_items(
                line,
                spec_tokens(line).take(idx),
            )[t].0 is Priority,
{
    lemma_line_items_stopper(line, spec_tokens(line), idx);
}

} // verus!
