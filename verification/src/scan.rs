//! The scanning engine: the per-line marker tokenizer, the priority
//! parser, the structured todo-list and README scanners, the gitignore
//! exclusion importer, and the walk bookkeeping.

use vstd::prelude::*;

use crate::entries::{
    Entry, EntryData, Location, SpecEntry, SpecEntryData, SpecLocation, entry_views,
};
use crate::text::{
    all_zeros, chars_of, digit_char, digit_val, eq_ci, eq_ci_char, find_char_from,
    find_first_range, find_from, find_pat, has_char, has_digit, is_digit, is_ws,
    lemma_find_char_is, lemma_find_char_none, lemma_find_from_valid, lemma_strip_char_suffix,
    lemma_trim_start_at, string_from_range, strip_end_pat, strip_start_pat, trim,
    trim_end_matches, trim_matches_char, trim_range, trim_start, trim_start_matches, vec_range,
    ws_char,
};

verus! {

/// Counters of what the directory walk visited; the lists are kept only
/// at verbosity two or higher, as the diagnostic output needs them.
pub struct Stats {
    visited_folder_count: usize,
    visited_file_count: usize,
    visited_folders: Vec<String>,
    visited_files: Vec<String>,
    verbosity: u8,
}

impl Stats {
    pub closed spec fn spec_folder_count(&self) -> nat {
        self.visited_folder_count as nat
    }

    pub closed spec fn spec_file_count(&self) -> nat {
        self.visited_file_count as nat
    }

    pub closed spec fn spec_folders(&self) -> Seq<Seq<char>> {
        self.visited_folders@.map_values(|s: String| s@)
    }

    pub closed spec fn spec_files(&self) -> Seq<Seq<char>> {
        self.visited_files@.map_values(|s: String| s@)
    }

    pub closed spec fn spec_verbosity(&self) -> u8 {
        self.verbosity
    }

    pub fn new(verbosity: u8) -> (s: Stats)
        ensures
            s.spec_folder_count() == 0,
            s.spec_file_count() == 0,
            s.spec_folders() == Seq::<Seq<char>>::empty(),
            s.spec_files() == Seq::<Seq<char>>::empty(),
            s.spec_verbosity() == verbosity,
    {
        let s = Stats {
            visited_folder_count: 0,
            visited_file_count: 0,
            visited_folders: vec![],
            visited_files: vec![],
            verbosity,
        };
        proof {
            assert(s.spec_folders() =~= Seq::<Seq<char>>::empty());
            assert(s.spec_files() =~= Seq::<Seq<char>>::empty());
        }
        s
    }

    /// Count one visited file; remember its path at verbosity two or more.
    pub fn add_file(&mut self, file: String)
        requires
            old(self).spec_file_count() < usize::MAX,
        ensures
            final(self).spec_file_count() == old(self).spec_file_count() + 1,
            final(self).spec_files() == if old(self).spec_verbosity() >= 2 {
                old(self).spec_files().push(file@)
            } else {
                old(self).spec_files()
            },
            final(self).spec_folder_count() == old(self).spec_folder_count(),
            final(self).spec_folders() == old(self).spec_folders(),
            final(self).spec_verbosity() == old(self).spec_verbosity(),
    {
        self.visited_file_count = self.visited_file_count + 1;
        if self.verbosity >= 2 {
            let ghost before = self.visited_files@;
            self.visited_files.push(file);
            proof {
                assert(self.spec_files() =~= before.map_values(|s: String| s@).push(
                    self.visited_files@.last()@,
                ));
            }
        }
    }

    /// Count one visited folder; remember its path at verbosity two or more.
    pub fn add_folder(&mut self, folder: String)
        requires
            old(self).spec_folder_count() < usize::MAX,
        ensures
            final(self).spec_folder_count() == old(self).spec_folder_count() + 1,
            final(self).spec_folders() == if old(self).spec_verbosity() >= 2 {
                old(self).spec_folders().push(folder@)
            } else {
                old(self).spec_folders()
            },
            final(self).spec_file_count() == old(self).spec_file_count(),
            final(self).spec_files() == old(self).spec_files(),
            final(self).spec_verbosity() == old(self).spec_verbosity(),
    {
        self.visited_folder_count = self.visited_folder_count + 1;
        if self.verbosity >= 2 {
            let ghost before = self.visited_folders@;
            self.visited_folders.push(folder);
            proof {
                assert(self.spec_folders() =~= before.map_values(|s: String| s@).push(
                    self.visited_folders@.last()@,
                ));
            }
        }
    }

    pub fn folder_count(&self) -> (r: usize)
        ensures
            r as nat == self.spec_folder_count(),
    {
        self.visited_folder_count
    }

    pub fn file_count(&self) -> (r: usize)
        ensures
            r as nat == self.spec_file_count(),
    {
        self.visited_file_count
    }

    pub fn folders(&self) -> (r: &Vec<String>)
        ensures
            r@.map_values(|s: String| s@) == self.spec_folders(),
    {
        &self.visited_folders
    }

    pub fn files(&self) -> (r: &Vec<String>)
        ensures
            r@.map_values(|s: String| s@) == self.spec_files(),
    {
        &self.visited_files
    }

    pub fn verbosity(&self) -> (r: u8)
        ensures
            r == self.spec_verbosity(),
    {
        self.verbosity
    }
}

/// Does the token start, case-insensitively, with the marker word?
pub open spec fn is_todo_prefix(s: Seq<char>) -> bool {
    s.len() >= 4 && eq_ci(s[0], 't') && eq_ci(s[1], 'o') && eq_ci(s[2], 'd') && eq_ci(s[3], 'o')
}

/// Does the token start with the not-implemented macro call `todo!(`
/// (this form is matched case-sensitively)?
pub open spec fn is_bang_form(s: Seq<char>) -> bool {
    s.len() >= 6 && s[0] == 't' && s[1] == 'o' && s[2] == 'd' && s[3] == 'o' && s[4] == '!' && s[5]
        == '('
}

/// The token with every trailing colon removed.
pub open spec fn strip_colons(s: Seq<char>) -> Seq<char> {
    trim_end_matches(s, seq![':'])
}

/// Is the colon-stripped token a bare marker: after removing trailing
/// double quotes and then trailing single quotes, exactly the four marker
/// letters, case-insensitively?
pub open spec fn is_bare_marker(t: Seq<char>) -> bool {
    let q = trim_end_matches(trim_end_matches(t, seq!['"']), seq!['\'']);
    q.len() == 4 && is_todo_prefix(q)
}

/// The category name carried by a token: everything after its first `@`.
pub open spec fn category_of(t: Seq<char>) -> Seq<char> {
    t.subrange(find_char_from(t, '@', 0) + 1, t.len() as int)
}

/// The priority encoded after the four marker letters: a single digit is
/// that digit's value; one or more zeros encode one minus their count;
/// anything else is malformed and encodes nothing.
pub open spec fn spec_parse_priority(t: Seq<char>) -> Option<int> {
    let sub = t.subrange(4, t.len() as int);
    if sub.len() == 1 && is_digit(sub[0]) {
        Some(digit_val(sub[0]))
    } else if sub.len() >= 1 && all_zeros(sub) {
        Some(1 - sub.len())
    } else {
        None
    }
}

/// How one whitespace-delimited token classifies.
pub enum TokenKind {
    /// Not a marker token at all.
    NotMarker,
    /// The not-implemented macro-call form.
    Bang,
    /// A bare marker with no annotation.
    Bare,
    /// A named category.
    Category(Seq<char>),
    /// A well-formed numeric priority.
    Priority(int),
    /// Digit-bearing but malformed priority syntax.
    Malformed,
}

/// Classification of one token, in the detection order the scanner uses:
/// macro-call form first, then bare marker, then category, then priority.
pub open spec fn token_kind(w: Seq<char>) -> TokenKind {
    if !is_todo_prefix(w) {
        TokenKind::NotMarker
    } else if is_bang_form(w) {
        TokenKind::Bang
    } else {
        let t = strip_colons(w);
        if is_bare_marker(t) {
            TokenKind::Bare
        } else if has_char(t, '@') {
            TokenKind::Category(category_of(t))
        } else if has_digit(t) {
            match spec_parse_priority(t) {
                Some(p) => TokenKind::Priority(p),
                None => TokenKind::Malformed,
            }
        } else {
            TokenKind::NotMarker
        }
    }
}

/// The remainder of the line after the first occurrence of the token.
pub open spec fn after_first(line: Seq<char>, w: Seq<char>) -> Seq<char> {
    line.subrange(find_from(line, w, 0) + w.len(), line.len() as int)
}

/// Trailing comment-closer sequences stripped in fixed order.
pub open spec fn closers_stripped(s: Seq<char>) -> Seq<char> {
    trim_end_matches(
        trim_end_matches(
            trim_end_matches(trim_end_matches(s, seq!['*', '/']), seq!['-', '-', '>']),
            seq!['-', '-', '}', '}'],
        ),
        seq!['/', '>'],
    )
}

/// The comment text that accompanies a marker token: the remainder of the
/// line after the token's first occurrence, trimmed, with trailing
/// comment closers removed, and trimmed again.
pub open spec fn spec_clean_text(line: Seq<char>, w: Seq<char>) -> Seq<char> {
    trim(closers_stripped(trim(after_first(line, w))))
}

/// First position at or past `i` that ends the token starting at `i`:
/// the first whitespace position, or the end of the line.
pub open spec fn token_end(line: Seq<char>, i: int) -> int
    decreases line.len() - i when 0 <= i <= line.len()
{
    if i >= line.len() {
        i
    } else if is_ws(line[i]) {
        i
    } else {
        token_end(line, i + 1)
    }
}

pub proof fn lemma_token_end(line: Seq<char>, i: int)
    requires
        0 <= i <= line.len(),
    ensures
        i <= token_end(line, i) <= line.len(),
        forall|t: int| i <= t < token_end(line, i) ==> !is_ws(line[t]),
        token_end(line, i) == line.len() || is_ws(line[token_end(line, i)]),
    decreases line.len() - i,
{
    if i < line.len() && !is_ws(line[i]) {
        lemma_token_end(line, i + 1);
    }
}

/// `token_end` computed from its characterization: everything in `[i, j)`
/// is not whitespace and `j` is the line's end or whitespace.
pub proof fn lemma_token_end_at(line: Seq<char>, i: int, j: int)
    requires
        0 <= i <= j <= line.len(),
        forall|t: int| i <= t < j ==> !is_ws(line[t]),
        j == line.len() || is_ws(line[j]),
    ensures
        token_end(line, i) == j,
    decreases j - i,
{
    if i < j {
        lemma_token_end_at(line, i + 1, j);
    }
}

/// The whitespace-delimited tokens of the line from position `i` on.
pub open spec fn tokens_from(line: Seq<char>, i: int) -> Seq<Seq<char>>
    decreases line.len() - i when 0 <= i <= line.len() via tokens_from_dec
{
    if i >= line.len() {
        Seq::empty()
    } else if is_ws(line[i]) {
        tokens_from(line, i + 1)
    } else {
        seq![line.subrange(i, token_end(line, i))] + tokens_from(line, token_end(line, i))
    }
}

#[via_fn]
proof fn tokens_from_dec(line: Seq<char>, i: int) {
    if 0 <= i < line.len() && !is_ws(line[i]) {
        lemma_token_end(line, i);
    }
}

/// The whitespace-delimited tokens of the line.
pub open spec fn spec_tokens(line: Seq<char>) -> Seq<Seq<char>> {
    tokens_from(line, 0)
}

/// The classification-and-text items one line yields, scanning the given
/// tokens left to right.  The macro-call, bare and category forms stop
/// the line after their first match; priority tokens, well-formed or not,
/// let the scan go on, so one line can yield several priority items.
pub open spec fn line_items(line: Seq<char>, toks: Seq<Seq<char>>) -> Seq<
    (SpecEntryData, Seq<char>),
>
    decreases toks.len(),
{
    if toks.len() == 0 {
        Seq::empty()
    } else {
        let w = toks[0];
        match token_kind(w) {
            TokenKind::NotMarker => line_items(line, toks.drop_first()),
            TokenKind::Bang => seq![(SpecEntryData::Generic, trim(line))],
            TokenKind::Bare => seq![(SpecEntryData::Generic, spec_clean_text(line, w))],
            TokenKind::Category(name) => seq![
                (SpecEntryData::Category(name), spec_clean_text(line, w)),
            ],
            TokenKind::Priority(p) => seq![(SpecEntryData::Priority(p), spec_clean_text(line, w))]
                + line_items(line, toks.drop_first()),
            TokenKind::Malformed => line_items(line, toks.drop_first()),
        }
    }
}

/// All items of one line.
pub open spec fn spec_scan_line(line: Seq<char>) -> Seq<(SpecEntryData, Seq<char>)> {
    line_items(line, spec_tokens(line))
}

/// A line with one carriage return before its line feed dropped.
pub open spec fn chop_cr(s: Seq<char>) -> Seq<char> {
    if s.len() > 0 && s.last() == '\r' {
        s.drop_last()
    } else {
        s
    }
}

pub proof fn lemma_find_char_valid(s: Seq<char>, c: char, from: int)
    requires
        0 <= from,
        find_char_from(s, c, from) >= 0,
    ensures
        from <= find_char_from(s, c, from) < s.len(),
        s[find_char_from(s, c, from)] == c,
        forall|t: int| from <= t < find_char_from(s, c, from) ==> s[t] != c,
    decreases s.len() - from,
{
    if from < s.len() && s[from] != c {
        lemma_find_char_valid(s, c, from + 1);
    }
}

/// The lines of a text: split at line feeds, with one carriage return
/// dropped before each line feed; a final segment without a line feed is
/// a line of its own, and an empty final segment is no line.
pub open spec fn spec_lines(s: Seq<char>) -> Seq<Seq<char>>
    decreases s.len() via spec_lines_dec
{
    if s.len() == 0 {
        Seq::empty()
    } else {
        let nl = find_char_from(s, '\n', 0);
        if nl >= 0 {
            seq![chop_cr(s.subrange(0, nl))] + spec_lines(s.subrange(nl + 1, s.len() as int))
        } else {
            seq![s]
        }
    }
}

#[via_fn]
proof fn spec_lines_dec(s: Seq<char>) {
    if s.len() > 0 && find_char_from(s, '\n', 0) >= 0 {
        lemma_find_char_valid(s, '\n', 0);
    }
}

/// The items of one line as entries of the given file and line number.
pub open spec fn items_to_entries(
    items: Seq<(SpecEntryData, Seq<char>)>,
    file: Seq<char>,
    line_no: nat,
) -> Seq<SpecEntry> {
    items.map_values(
        |it: (SpecEntryData, Seq<char>)|
            SpecEntry {
                text: it.1,
                location: SpecLocation { file: file, line: line_no },
                data: it.0,
            },
    )
}

/// The entries of a sequence of lines, numbered from `next_no` on.
pub open spec fn scan_lines(ls: Seq<Seq<char>>, file: Seq<char>, next_no: nat) -> Seq<SpecEntry>
    decreases ls.len(),
{
    if ls.len() == 0 {
        Seq::empty()
    } else {
        items_to_entries(spec_scan_line(ls[0]), file, next_no) + scan_lines(
            ls.drop_first(),
            file,
            next_no + 1,
        )
    }
}

/// Every entry the scanner yields for a text, in discovery order.
pub open spec fn spec_scan_string(content: Seq<char>, file: Seq<char>) -> Seq<SpecEntry> {
    scan_lines(spec_lines(content), file, 1)
}

/// A Markdown heading line: its first character is `#`.
pub open spec fn is_heading(line: Seq<char>) -> bool {
    line.len() > 0 && line[0] == '#'
}

/// The text of a heading: everything after the first `#` + space pair.
pub open spec fn heading_text(line: Seq<char>) -> Seq<char> {
    line.subrange(find_from(line, seq!['#', ' '], 0) + 2, line.len() as int)
}

/// Every heading line carries a `#` + space pair somewhere, so its text
/// is well defined; the structured scanners ask this of their input.
pub open spec fn headings_well_formed(content: Seq<char>) -> bool {
    forall|k: int|
        0 <= k < spec_lines(content).len() && is_heading(#[trigger] spec_lines(content)[k])
            ==> find_from(spec_lines(content)[k], seq!['#', ' '], 0) >= 0
}

/// A list-item line: after left-trimming it starts with a dash.
pub open spec fn is_list_item(line: Seq<char>) -> bool {
    trim_start(line).len() > 0 && trim_start(line)[0] == '-'
}

/// The text of a list-item line: left-trimmed, with a leading checkbox
/// prefix and then a leading dash prefix stripped.
pub open spec fn item_text(line: Seq<char>) -> Seq<char> {
    trim_start_matches(
        trim_start_matches(trim_start(line), seq!['-', ' ', '[', ' ', ']', ' ']),
        seq!['-', ' '],
    )
}

/// A token that calls for priority parsing in a list-item line: its
/// colon-stripped form starts with the marker word and the raw token
/// holds a digit.
pub open spec fn is_prio_candidate(w: Seq<char>) -> bool {
    is_todo_prefix(strip_colons(w)) && has_digit(w)
}

/// The first priority-candidate token of a line's tokens, if any.
pub open spec fn first_candidate(toks: Seq<Seq<char>>) -> Option<Seq<char>>
    decreases toks.len(),
{
    if toks.len() == 0 {
        None
    } else if is_prio_candidate(toks[0]) {
        Some(toks[0])
    } else {
        first_candidate(toks.drop_first())
    }
}

/// The items one non-heading line of a structured file yields under the
/// current category: a first priority candidate decides the line (a
/// malformed candidate yields nothing); otherwise a list item becomes a
/// category entry when a category is current, else a generic entry.
pub open spec fn todo_line_items(line: Seq<char>, cat: Option<Seq<char>>) -> Seq<
    (SpecEntryData, Seq<char>),
> {
    if is_heading(line) || !is_list_item(line) {
        Seq::empty()
    } else {
        match first_candidate(spec_tokens(line)) {
            Some(w) => match spec_parse_priority(strip_colons(w)) {
                Some(p) => seq![(SpecEntryData::Priority(p), spec_clean_text(line, w))],
                None => Seq::empty(),
            },
            None => match cat {
                Some(c) => seq![(SpecEntryData::Category(c), item_text(line))],
                None => seq![(SpecEntryData::Generic, item_text(line))],
            },
        }
    }
}

/// The category current after a line: a heading installs its text.
pub open spec fn todo_cat_after(line: Seq<char>, cat: Option<Seq<char>>) -> Option<Seq<char>> {
    if is_heading(line) {
        Some(heading_text(line))
    } else {
        cat
    }
}

/// The entries of a todo-list file's lines, numbered from `next_no` on.
pub open spec fn scan_todo_lines(
    ls: Seq<Seq<char>>,
    file: Seq<char>,
    next_no: nat,
    cat: Option<Seq<char>>,
) -> Seq<SpecEntry>
    decreases ls.len(),
{
    if ls.len() == 0 {
        Seq::empty()
    } else {
        items_to_entries(todo_line_items(ls[0], cat), file, next_no) + scan_todo_lines(
            ls.drop_first(),
            file,
            next_no + 1,
            todo_cat_after(ls[0], cat),
        )
    }
}

/// Every entry the todo-list scanner yields for a text.
pub open spec fn spec_scan_todo(content: Seq<char>, file: Seq<char>) -> Seq<SpecEntry> {
    scan_todo_lines(spec_lines(content), file, 1, None)
}

/// Exactly the marker word, case-insensitively.
pub open spec fn is_todo_word(s: Seq<char>) -> bool {
    s.len() == 4 && is_todo_prefix(s)
}

/// Exactly the marker word with a plural `s`, case-insensitively.
pub open spec fn is_todos_word(s: Seq<char>) -> bool {
    s.len() == 5 && is_todo_prefix(s) && eq_ci(s[4], 's')
}

/// Is a heading the one that opens the README's marker section: its
/// text, with trailing colons stripped and trimmed, is the marker word,
/// singular or plural, case-insensitively?
pub open spec fn is_todo_heading(line: Seq<char>) -> bool {
    let u = trim(trim_end_matches(heading_text(line), seq![':']));
    is_todo_word(u) || is_todos_word(u)
}

/// Whether the scan is inside the README's marker section after a line.
pub open spec fn readme_in_after(line: Seq<char>, inside: bool) -> bool {
    if is_heading(line) {
        is_todo_heading(line)
    } else {
        inside
    }
}

/// The items one README line yields: headings and everything outside the
/// marker section yield nothing; inside it, lines behave as in the
/// todo-list file with no category ever current.
pub open spec fn readme_line_items(line: Seq<char>, inside: bool) -> Seq<
    (SpecEntryData, Seq<char>),
> {
    if is_heading(line) || !inside {
        Seq::empty()
    } else {
        todo_line_items(line, None)
    }
}

/// The entries of a README's lines, numbered from `next_no` on.
pub open spec fn scan_readme_lines(
    ls: Seq<Seq<char>>,
    file: Seq<char>,
    next_no: nat,
    inside: bool,
) -> Seq<SpecEntry>
    decreases ls.len(),
{
    if ls.len() == 0 {
        Seq::empty()
    } else {
        items_to_entries(readme_line_items(ls[0], inside), file, next_no) + scan_readme_lines(
            ls.drop_first(),
            file,
            next_no + 1,
            readme_in_after(ls[0], inside),
        )
    }
}

/// Every entry the README scanner yields for a text.
pub open spec fn spec_scan_readme(content: Seq<char>, file: Seq<char>) -> Seq<SpecEntry> {
    scan_readme_lines(spec_lines(content), file, 1, false)
}

/// Parse the priority annotation of a marker token, the token given as
/// `v[i..k]` with its four marker letters already checked.
fn parse_priority_range(v: &Vec<char>, i: usize, k: usize) -> (r: Option<isize>)
    requires
        i + 4 <= k <= v@.len(),
        k - i <= isize::MAX,
    ensures
        match r {
            Some(p) => spec_parse_priority(v@.subrange(i as int, k as int)) == Some(p as int),
            None => spec_parse_priority(v@.subrange(i as int, k as int)) is None,
        },
{
    let ghost t = v@.subrange(i as int, k as int);
    let ghost sub = t.subrange(4, t.len() as int);
    proof {
        assert(sub =~= v@.subrange(i + 4, k as int));
    }
    let s = i + 4;
    if k - s == 1 && digit_char(v[s]) {
        let p = ((v[s] as u32) - 48) as isize;
        proof {
            assert(sub[0] == v@[s as int]);
        }
        Some(p)
    } else {
        let mut z = s;
        while z < k && v[z] == '0'
            invariant
                s <= z <= k <= v@.len(),
                forall|q: int| s <= q < z ==> v@[q] == '0',
            decreases k - z,
        {
            z = z + 1;
        }
        if z == k && k > s {
            // every character after the marker letters is a zero
            proof {
                assert(all_zeros(sub));
                assert(!(sub.len() == 1 && is_digit(sub[0])) || sub[0] == '0');
            }
            let zeros = k - s;
            Some(1 - (zeros as isize))
        } else {
            proof {
                if z < k {
                    assert(sub[z - s - 4 + 4] == v@[z as int]);
                    assert(!all_zeros(sub)) by {
                        assert(sub[z - s] == v@[z as int]);
                    }
                    if sub.len() == 1 {
                        assert(sub[0] == v@[s as int]);
                    }
                }
            }
            None
        }
    }
}

/// Parse the priority annotation of a marker token.
///
/// The token must case-insensitively start with the marker word, as every
/// token handed to the marker parser does; the encoding is the one
/// `spec_parse_priority` states.
pub fn parse_priority(word: &str) -> (r: Option<isize>)
    requires
        is_todo_prefix(word@),
        word@.len() <= isize::MAX,
    ensures
        match r {
            Some(p) => spec_parse_priority(word@) == Some(p as int),
            None => spec_parse_priority(word@) is None,
        },
{
    let v = chars_of(word);
    let n = v.len();
    let r = parse_priority_range(&v, 0, n);
    proof {
        assert(v@.subrange(0, n as int) =~= word@);
    }
    r
}

/// The comment text after the first occurrence of `delimiter_word` in
/// `line`: trimmed, with known trailing comment closers removed.
///
/// The word must occur in the line, as a token found in the line always
/// does.
pub fn clean_line<'a>(line: &'a str, delimiter_word: &str) -> (r: &'a str)
    requires
        find_from(line@, delimiter_word@, 0) >= 0,
    ensures
        r@ == spec_clean_text(line@, delimiter_word@),
{
    let v = chars_of(line);
    let w = chars_of(delimiter_word);
    let idx = match find_pat(&v, &w) {
        Some(m) => m,
        None => {
            proof {
                assert(false);
            }
            0
        },
    };
    proof {
        lemma_find_from_valid(v@, w@, 0);
    }
    let n = v.len();
    let (c, d) = clean_range(&v, idx + w.len(), n);
    vstd::string::StrSliceExecFns::substring_char(line, c, d)
}

/// Start and end, within `v`, of the cleaned text of `v[rs..n]`: trim,
/// strip trailing comment closers, trim again.
fn clean_range(v: &Vec<char>, rs: usize, n: usize) -> (r: (usize, usize))
    requires
        rs <= n == v@.len(),
    ensures
        r.0 <= r.1 <= v@.len(),
        v@.subrange(r.0 as int, r.1 as int) == trim(
            closers_stripped(trim(v@.subrange(rs as int, n as int))),
        ),
{
    let (a, b) = trim_range(v, rs, n);
    let star = vec!['*', '/'];
    let arrow = vec!['-', '-', '>'];
    let brace = vec!['-', '-', '}', '}'];
    let slash = vec!['/', '>'];
    let e1 = strip_end_pat(v, a, b, &star);
    let e2 = strip_end_pat(v, a, e1, &arrow);
    let e3 = strip_end_pat(v, a, e2, &brace);
    let e4 = strip_end_pat(v, a, e3, &slash);
    let (c, d) = trim_range(v, a, e4);
    (c, d)
}

/// The cleaned comment text for the token `line[ti..tj]`.
fn clean_text_of(line: &Vec<char>, ti: usize, tj: usize) -> (s: String)
    requires
        ti <= tj <= line@.len(),
    ensures
        s@ == spec_clean_text(line@, line@.subrange(ti as int, tj as int)),
{
    let idx = find_first_range(line, ti, tj);
    let n = line.len();
    let (c, d) = clean_range(line, idx + (tj - ti), n);
    string_from_range(line, c, d)
}

/// Build one entry and append it; the views grow by exactly its view.
fn push_entry(
    entries: &mut Vec<Entry>,
    text: String,
    filename: &String,
    line_no: usize,
    data: EntryData,
)
    ensures
        entry_views(final(entries)@) == entry_views(old(entries)@).push(
            SpecEntry {
                text: text@,
                location: SpecLocation { file: filename@, line: line_no as nat },
                data: data@,
            },
        ),
{
    let ghost before = entries@;
    let ghost sv = SpecEntry {
        text: text@,
        location: SpecLocation { file: filename@, line: line_no as nat },
        data: data@,
    };
    let e = Entry { text, location: Location { file: filename.clone(), line: line_no }, data };
    proof {
        assert(e@ == sv);
    }
    entries.push(e);
    proof {
        assert(entries@.last()@ == sv);
        assert(entry_views(entries@) =~= entry_views(before).push(sv));
    }
}

/// Scan one line, appending the entries its marker tokens yield.
#[verifier::rlimit(50)]
fn scan_line_into(line: &Vec<char>, filename: &String, line_no: usize, entries: &mut Vec<Entry>)
    requires
        line@.len() <= isize::MAX,
    ensures
        entry_views(final(entries)@) == entry_views(old(entries)@) + items_to_entries(
            spec_scan_line(line@),
            filename@,
            line_no as nat,
        ),
{
    let n = line.len();
    let ghost l = line@;
    let ghost f = filename@;
    let ghost no = line_no as nat;
    let ghost tgt = items_to_entries(spec_scan_line(l), f, no);
    let mut i: usize = 0;
    loop
        invariant_except_break
            entry_views(old(entries)@) + tgt == entry_views(entries@) + items_to_entries(
                line_items(l, tokens_from(l, i as int)),
                f,
                no,
            ),
        invariant
            i <= n,
            n == l.len(),
            line@ == l,
            f == filename@,
            no == line_no as nat,
            l.len() <= isize::MAX,
            tgt == items_to_entries(spec_scan_line(l), f, no),
        ensures
            entry_views(entries@) == entry_views(old(entries)@) + tgt,
        decreases n - i,
    {
        if i == n {
            proof {
                assert(line_items(l, tokens_from(l, i as int)) =~= Seq::<
                    (SpecEntryData, Seq<char>),
                >::empty());
                assert(items_to_entries(line_items(l, tokens_from(l, i as int)), f, no) =~= Seq::<
                    SpecEntry,
                >::empty());
                assert(entry_views(entries@) =~= entry_views(old(entries)@) + tgt);
            }
            break;
        }
        if ws_char(line[i]) {
            i = i + 1;
            continue;
        }
        // the token runs from i to the next whitespace
        let mut j = i + 1;
        while j < n && !ws_char(line[j])
            invariant
                i < j <= n == l.len(),
                line@ == l,
                forall|t: int| i <= t < j ==> !is_ws(l[t]),
            decreases n - j,
        {
            j = j + 1;
        }
        let ghost w = l.subrange(i as int, j as int);
        let ghost toks = tokens_from(l, i as int);
        let ghost rest = tokens_from(l, j as int);
        proof {
            lemma_token_end_at(l, i as int, j as int);
            assert(toks == seq![w] + rest);
            assert(toks.len() > 0 && toks[0] == w);
            assert(toks.drop_first() =~= rest);
            assert(forall|m: int| 0 <= m < j - i ==> w[m] == l[i + m]);
        }
        // case-insensitive marker prefix
        let marker = j - i >= 4 && eq_ci_char(line[i], 't') && eq_ci_char(line[i + 1], 'o')
            && eq_ci_char(line[i + 2], 'd') && eq_ci_char(line[i + 3], 'o');
        proof {
            assert(marker == is_todo_prefix(w));
        }
        if !marker {
            proof {
                assert(token_kind(w) is NotMarker);
                assert(line_items(l, toks) == line_items(l, rest));
            }
            i = j;
            continue;
        }
        // the macro-call form, matched case-sensitively
        if j - i >= 6 && line[i] == 't' && line[i + 1] == 'o' && line[i + 2] == 'd' && line[i + 3]
            == 'o' && line[i + 4] == '!' && line[i + 5] == '(' {
            proof {
                assert(is_bang_form(w));
                assert(token_kind(w) is Bang);
            }
            let (a, b) = trim_range(line, 0, n);
            let text = string_from_range(line, a, b);
            proof {
                assert(l.subrange(0, n as int) =~= l);
                assert(text@ == trim(l));
            }
            let ghost before = entries@;
            push_entry(entries, text, filename, line_no, EntryData::Generic);
            proof {
                let item_entry = SpecEntry {
                    text: trim(l),
                    location: SpecLocation { file: f, line: no },
                    data: SpecEntryData::Generic,
                };
                assert(line_items(l, toks) == seq![(SpecEntryData::Generic, trim(l))]);
                assert(items_to_entries(line_items(l, toks), f, no) =~= seq![item_entry]);
                assert(entry_views(entries@) =~= entry_views(old(entries)@) + tgt);
            }
            break;
        }
        proof {
            assert(!is_bang_form(w));
        }
        // strip trailing colons; the four marker letters are never colons
        let mut k = j;
        while k > i + 4 && line[k - 1] == ':'
            invariant
                i + 4 <= k <= j <= n == l.len(),
                line@ == l,
                forall|t: int| k <= t < j ==> l[t] == ':',
            decreases k,
        {
            k = k - 1;
        }
        let ghost t = l.subrange(i as int, k as int);
        proof {
            assert(eq_ci(l[i + 3], 'o'));
            assert(l[i + 3] != ':');
            assert(k == i + 4 ==> l[k - 1] != ':');
            lemma_strip_char_suffix(w, ':', k - i);
            assert(w.subrange(0, k - i) =~= t);
            assert(strip_colons(w) == t);
            assert(forall|m: int| 0 <= m < k - i ==> t[m] == l[i + m]);
        }
        // strip trailing double quotes, then single quotes; marker letters
        // are never quotes either
        let mut q = k;
        while q > i + 4 && line[q - 1] == '"'
            invariant
                i + 4 <= q <= k <= n == l.len(),
                line@ == l,
                forall|tq: int| q <= tq < k ==> l[tq] == '"',
            decreases q,
        {
            q = q - 1;
        }
        let mut q2 = q;
        while q2 > i + 4 && line[q2 - 1] == '\''
            invariant
                i + 4 <= q2 <= q <= n == l.len(),
                line@ == l,
                forall|tq: int| q2 <= tq < q ==> l[tq] == '\'',
            decreases q2,
        {
            q2 = q2 - 1;
        }
        proof {
            assert(l[i + 3] != '"' && l[i + 3] != '\'');
            lemma_strip_char_suffix(t, '"', q - i);
            let t1 = l.subrange(i as int, q as int);
            assert(t.subrange(0, q - i) =~= t1);
            lemma_strip_char_suffix(t1, '\'', q2 - i);
            assert(t1.subrange(0, q2 - i) =~= l.subrange(i as int, q2 as int));
            assert(trim_end_matches(trim_end_matches(t, seq!['"']), seq!['\'']) == l.subrange(
                i as int,
                q2 as int,
            ));
            assert(is_bare_marker(t) == (q2 == i + 4));
        }
        if q2 == i + 4 {
            proof {
                assert(token_kind(w) is Bare);
            }
            let text = clean_text_of(line, i, j);
            let ghost item_entry = SpecEntry {
                text: spec_clean_text(l, w),
                location: SpecLocation { file: f, line: no },
                data: SpecEntryData::Generic,
            };
            push_entry(entries, text, filename, line_no, EntryData::Generic);
            proof {
                assert(line_items(l, toks) == seq![(SpecEntryData::Generic, spec_clean_text(l, w))]);
                assert(items_to_entries(line_items(l, toks), f, no) =~= seq![item_entry]);
                assert(entry_views(entries@) =~= entry_views(old(entries)@) + tgt);
            }
            break;
        }
        // a category annotation: the name follows the token's first `@`
        let mut at = i;
        while at < k && line[at] != '@'
            invariant
                i <= at <= k <= n == l.len(),
                line@ == l,
                forall|tq: int| i <= tq < at ==> l[tq] != '@',
            decreases k - at,
        {
            at = at + 1;
        }
        if at < k {
            proof {
                assert(t[at - i] == '@');
                assert(has_char(t, '@'));
                lemma_find_char_is(t, '@', 0, at - i);
                assert(t.subrange(at - i + 1, t.len() as int) =~= l.subrange(
                    at + 1,
                    k as int,
                ));
                assert(token_kind(w) == TokenKind::Category(l.subrange(at + 1, k as int)));
            }
            let name = string_from_range(line, at + 1, k);
            let text = clean_text_of(line, i, j);
            let ghost item_entry = SpecEntry {
                text: spec_clean_text(l, w),
                location: SpecLocation { file: f, line: no },
                data: SpecEntryData::Category(name@),
            };
            push_entry(entries, text, filename, line_no, EntryData::Category(name));
            proof {
                assert(line_items(l, toks) == seq![
                    (SpecEntryData::Category(l.subrange(at + 1, k as int)), spec_clean_text(l, w)),
                ]);
                assert(items_to_entries(line_items(l, toks), f, no) =~= seq![item_entry]);
                assert(entry_views(entries@) =~= entry_views(old(entries)@) + tgt);
            }
            break;
        }
        proof {
            assert(!has_char(t, '@')) by {
                if has_char(t, '@') {
                    let x = choose|x: int| 0 <= x < t.len() && t[x] == '@';
                    assert(l[i + x] == '@');
                }
            }
        }
        // a digit anywhere in the colon-stripped token calls for priority
        // parsing
        let mut g = i;
        while g < k && !digit_char(line[g])
            invariant
                i <= g <= k <= n == l.len(),
                line@ == l,
                forall|tq: int| i <= tq < g ==> !is_digit(l[tq]),
            decreases k - g,
        {
            g = g + 1;
        }
        if g == k {
            proof {
                assert(!has_digit(t)) by {
                    if has_digit(t) {
                        let x = choose|x: int| 0 <= x < t.len() && is_digit(t[x]);
                        assert(is_digit(l[i + x]));
                    }
                }
                assert(token_kind(w) is NotMarker);
                assert(line_items(l, toks) == line_items(l, rest));
            }
            i = j;
            continue;
        }
        proof {
            assert(t[g - i] == l[g as int]);
            assert(has_digit(t));
        }
        match parse_priority_range(line, i, k) {
            Some(p) => {
                proof {
                    assert(token_kind(w) == TokenKind::Priority(p as int));
                }
                let text = clean_text_of(line, i, j);
                let ghost item_entry = SpecEntry {
                    text: spec_clean_text(l, w),
                    location: SpecLocation { file: f, line: no },
                    data: SpecEntryData::Priority(p as int),
                };
                let ghost before = entry_views(entries@);
                push_entry(entries, text, filename, line_no, EntryData::Priority(p));
                proof {
                    assert(line_items(l, toks) == seq![
                        (SpecEntryData::Priority(p as int), spec_clean_text(l, w)),
                    ] + line_items(l, rest));
                    assert(items_to_entries(line_items(l, toks), f, no) =~= seq![item_entry]
                        + items_to_entries(line_items(l, rest), f, no));
                    assert(entry_views(entries@) =~= before.push(item_entry));
                    assert(entry_views(old(entries)@) + tgt =~= entry_views(entries@)
                        + items_to_entries(line_items(l, rest), f, no));
                }
                i = j;
            },
            None => {
                proof {
                    assert(token_kind(w) is Malformed);
                    assert(line_items(l, toks) == line_items(l, rest));
                }
                i = j;
            },
        }
    }
}

/// Scan a text for marker tokens, appending every entry found to
/// `entries`, with 1-based line numbers against the given file name.
///
/// Every entry the text yields, and no other, is appended, in discovery
/// order: first by line, then by token position, as `spec_scan_string`
/// states.
pub fn scan_string(content: String, filename: String, entries: &mut Vec<Entry>)
    requires
        content@.len() <= isize::MAX,
    ensures
        entry_views(final(entries)@) == entry_views(old(entries)@) + spec_scan_string(
            content@,
            filename@,
        ),
{
    let v = chars_of(content.as_str());
    let n = v.len();
    let ghost tgt = spec_scan_string(content@, filename@);
    proof {
        assert(v@.subrange(0, n as int) =~= content@);
    }
    let mut pos: usize = 0;
    let mut done: usize = 0;
    loop
        invariant
            pos <= n == v@.len(),
            v@ == content@,
            done <= pos,
            content@.len() <= isize::MAX,
            tgt == spec_scan_string(content@, filename@),
            entry_views(old(entries)@) + tgt == entry_views(entries@) + scan_lines(
                spec_lines(v@.subrange(pos as int, n as int)),
                filename@,
                (done + 1) as nat,
            ),
        ensures
            entry_views(entries@) == entry_views(old(entries)@) + tgt,
        decreases n - pos,
    {
        if pos == n {
            proof {
                assert(v@.subrange(pos as int, n as int) =~= Seq::<char>::empty());
                assert(spec_lines(Seq::<char>::empty()) =~= Seq::<Seq<char>>::empty());
                assert(scan_lines(Seq::<Seq<char>>::empty(), filename@, (done + 1) as nat) =~= Seq::<
                    SpecEntry,
                >::empty());
                assert(entry_views(entries@) =~= entry_views(old(entries)@) + tgt);
            }
            break;
        }
        let ghost suffix = v@.subrange(pos as int, n as int);
        // find the next line feed
        let mut e = pos;
        while e < n && v[e] != '\n'
            invariant
                pos <= e <= n == v@.len(),
                v@ == content@,
                forall|t: int| pos <= t < e ==> v@[t] != '\n',
            decreases n - e,
        {
            e = e + 1;
        }
        proof {
            assert(forall|m: int| 0 <= m < suffix.len() ==> suffix[m] == v@[pos + m]);
            if e < n {
                lemma_find_char_is(suffix, '\n', 0, e - pos);
            } else {
                lemma_find_char_none(suffix, '\n', 0);
            }
        }
        // drop one carriage return before the line feed
        let le = if e < n && e > pos && v[e - 1] == '\r' {
            e - 1
        } else {
            e
        };
        let ghost first = if e < n {
            chop_cr(suffix.subrange(0, e - pos))
        } else {
            suffix
        };
        proof {
            assert(suffix.subrange(0, e - pos) =~= v@.subrange(pos as int, e as int));
            if e < n && e > pos && v@[e - 1] == '\r' {
                assert(suffix.subrange(0, e - pos).drop_last() =~= v@.subrange(
                    pos as int,
                    le as int,
                ));
            }
            assert(first == v@.subrange(pos as int, le as int));
        }
        let line = vec_range(&v, pos, le);
        let next = if e < n {
            e + 1
        } else {
            n
        };
        let ghost rest_lines = spec_lines(v@.subrange(next as int, n as int));
        proof {
            if e < n {
                assert(suffix.subrange(e - pos + 1, suffix.len() as int) =~= v@.subrange(
                    next as int,
                    n as int,
                ));
                assert(spec_lines(suffix) == seq![first] + rest_lines);
            } else {
                assert(v@.subrange(next as int, n as int) =~= Seq::<char>::empty());
                assert(rest_lines =~= Seq::<Seq<char>>::empty());
                assert(spec_lines(suffix) == seq![first]);
                assert(spec_lines(suffix) =~= seq![first] + rest_lines);
            }
            let ls = seq![first] + rest_lines;
            assert(ls[0] == first);
            assert(ls.drop_first() =~= rest_lines);
            assert(scan_lines(ls, filename@, (done + 1) as nat) == items_to_entries(
                spec_scan_line(first),
                filename@,
                (done + 1) as nat,
            ) + scan_lines(rest_lines, filename@, (done + 2) as nat));
        }
        done = done + 1;
        let ghost before = entry_views(entries@);
        scan_line_into(&line, &filename, done, entries);
        proof {
            assert(entry_views(old(entries)@) + tgt =~= entry_views(entries@) + scan_lines(
                rest_lines,
                filename@,
                (done + 1) as nat,
            ));
        }
        pos = next;
    }
}

/// The category view carried by an optional category string.
pub open spec fn opt_str_view(o: Option<String>) -> Option<Seq<char>> {
    match o {
        Some(s) => Some(s@),
        None => None,
    }
}

/// End of the line starting at `pos`, and the start of the next line:
/// the lines of the suffix at `pos` are this line followed by the lines
/// of the suffix at the returned start.
fn next_line_bounds(v: &Vec<char>, pos: usize) -> (r: (usize, usize))
    requires
        pos < v@.len(),
    ensures
        pos <= r.0 <= r.1 <= v@.len(),
        pos < r.1,
        spec_lines(v@.subrange(pos as int, v@.len() as int)) == seq![
            v@.subrange(pos as int, r.0 as int),
        ] + spec_lines(v@.subrange(r.1 as int, v@.len() as int)),
{
    let n = v.len();
    let ghost suffix = v@.subrange(pos as int, n as int);
    let mut e = pos;
    while e < n && v[e] != '\n'
        invariant
            pos <= e <= n == v@.len(),
            forall|t: int| pos <= t < e ==> v@[t] != '\n',
        decreases n - e,
    {
        e = e + 1;
    }
    proof {
        assert(forall|m: int| 0 <= m < suffix.len() ==> suffix[m] == v@[pos + m]);
        if e < n {
            lemma_find_char_is(suffix, '\n', 0, e - pos);
        } else {
            lemma_find_char_none(suffix, '\n', 0);
        }
    }
    let le = if e < n && e > pos && v[e - 1] == '\r' {
        e - 1
    } else {
        e
    };
    let next = if e < n {
        e + 1
    } else {
        n
    };
    proof {
        let first = if e < n {
            chop_cr(suffix.subrange(0, e - pos))
        } else {
            suffix
        };
        assert(suffix.subrange(0, e - pos) =~= v@.subrange(pos as int, e as int));
        if e < n && e > pos && v@[e - 1] == '\r' {
            assert(suffix.subrange(0, e - pos).drop_last() =~= v@.subrange(pos as int, le as int));
        }
        assert(first == v@.subrange(pos as int, le as int));
        if e < n {
            assert(suffix.subrange(e - pos + 1, suffix.len() as int) =~= v@.subrange(
                next as int,
                n as int,
            ));
            assert(spec_lines(suffix) == seq![first] + spec_lines(
                v@.subrange(next as int, n as int),
            ));
        } else {
            assert(v@.subrange(next as int, n as int) =~= Seq::<char>::empty());
            assert(spec_lines(v@.subrange(next as int, n as int)) =~= Seq::<Seq<char>>::empty());
            assert(spec_lines(suffix) =~= seq![first] + spec_lines(
                v@.subrange(next as int, n as int),
            ));
        }
    }
    (le, next)
}

/// Scan one non-heading line of a structured file under the current
/// category, appending the items it yields.
#[verifier::rlimit(50)]
fn item_line_into(
    line: &Vec<char>,
    filename: &String,
    line_no: usize,
    cat: &Option<String>,
    entries: &mut Vec<Entry>,
)
    requires
        line@.len() <= isize::MAX,
        !is_heading(line@),
    ensures
        entry_views(final(entries)@) == entry_views(old(entries)@) + items_to_entries(
            todo_line_items(line@, opt_str_view(*cat)),
            filename@,
            line_no as nat,
        ),
{
    let n = line.len();
    let ghost l = line@;
    let ghost f = filename@;
    let ghost no = line_no as nat;
    let ghost cv = opt_str_view(*cat);
    let ghost items = todo_line_items(l, cv);
    // a list item starts, after left-trimming, with a dash
    let mut a: usize = 0;
    while a < n && ws_char(line[a])
        invariant
            a <= n == l.len(),
            line@ == l,
            forall|t: int| 0 <= t < a ==> is_ws(l[t]),
        decreases n - a,
    {
        a = a + 1;
    }
    proof {
        lemma_trim_start_at(l, a as int);
        assert(trim_start(l) =~= l.subrange(a as int, n as int));
    }
    if a == n || line[a] != '-' {
        proof {
            assert(!is_list_item(l));
            assert(items_to_entries(items, f, no) =~= Seq::<SpecEntry>::empty());
            assert(entry_views(entries@) =~= entry_views(entries@) + items_to_entries(
                items,
                f,
                no,
            ));
        }
        return;
    }
    proof {
        assert(is_list_item(l));
    }
    // the first token that calls for priority parsing decides the line
    let mut i: usize = 0;
    loop
        invariant
            i <= n == l.len(),
            line@ == l,
            f == filename@,
            no == line_no as nat,
            l.len() <= isize::MAX,
            is_list_item(l),
            !is_heading(l),
            items == todo_line_items(l, cv),
            entries@ == old(entries)@,
            first_candidate(tokens_from(l, i as int)) == first_candidate(spec_tokens(l)),
        ensures
            first_candidate(spec_tokens(l)) is None,
            entries@ == old(entries)@,
        decreases n - i,
    {
        if i == n {
            proof {
                assert(tokens_from(l, i as int) =~= Seq::<Seq<char>>::empty());
            }
            break;
        }
        if ws_char(line[i]) {
            i = i + 1;
            continue;
        }
        let mut j = i + 1;
        while j < n && !ws_char(line[j])
            invariant
                i < j <= n == l.len(),
                line@ == l,
                forall|t: int| i <= t < j ==> !is_ws(l[t]),
            decreases n - j,
        {
            j = j + 1;
        }
        let ghost w = l.subrange(i as int, j as int);
        let ghost rest = tokens_from(l, j as int);
        proof {
            lemma_token_end_at(l, i as int, j as int);
            assert(tokens_from(l, i as int) == seq![w] + rest);
            assert((seq![w] + rest)[0] == w);
            assert((seq![w] + rest).drop_first() =~= rest);
            assert(forall|m: int| 0 <= m < j - i ==> w[m] == l[i + m]);
        }
        // strip trailing colons before testing for the marker prefix
        let mut k = j;
        while k > i && line[k - 1] == ':'
            invariant
                i <= k <= j <= n == l.len(),
                line@ == l,
                forall|t: int| k <= t < j ==> l[t] == ':',
            decreases k,
        {
            k = k - 1;
        }
        let ghost t = l.subrange(i as int, k as int);
        proof {
            lemma_strip_char_suffix(w, ':', k - i);
            assert(w.subrange(0, k - i) =~= t);
            assert(strip_colons(w) == t);
            assert(forall|m: int| 0 <= m < k - i ==> t[m] == l[i + m]);
        }
        let prefix_ok = k - i >= 4 && eq_ci_char(line[i], 't') && eq_ci_char(line[i + 1], 'o')
            && eq_ci_char(line[i + 2], 'd') && eq_ci_char(line[i + 3], 'o');
        proof {
            assert(prefix_ok == is_todo_prefix(t));
        }
        let mut has_d = false;
        if prefix_ok {
            let mut g = i;
            while g < j && !digit_char(line[g])
                invariant
                    i <= g <= j <= n == l.len(),
                    line@ == l,
                    forall|t2: int| i <= t2 < g ==> !is_digit(l[t2]),
                decreases j - g,
            {
                g = g + 1;
            }
            has_d = g < j;
            proof {
                if g < j {
                    assert(w[g - i] == l[g as int]);
                    assert(has_digit(w));
                } else {
                    assert(!has_digit(w)) by {
                        if has_digit(w) {
                            let x = choose|x: int| 0 <= x < w.len() && is_digit(w[x]);
                            assert(is_digit(l[i + x]));
                        }
                    }
                }
            }
        }
        if prefix_ok && has_d {
            proof {
                assert(is_prio_candidate(w));
                assert(first_candidate(spec_tokens(l)) == Some(w));
            }
            match parse_priority_range(line, i, k) {
                Some(p) => {
                    let text = clean_text_of(line, i, j);
                    let ghost item_entry = SpecEntry {
                        text: spec_clean_text(l, w),
                        location: SpecLocation { file: f, line: no },
                        data: SpecEntryData::Priority(p as int),
                    };
                    push_entry(entries, text, filename, line_no, EntryData::Priority(p));
                    proof {
                        assert(items == seq![
                            (SpecEntryData::Priority(p as int), spec_clean_text(l, w)),
                        ]);
                        assert(items_to_entries(items, f, no) =~= seq![item_entry]);
                        assert(entry_views(entries@) =~= entry_views(old(entries)@)
                            + items_to_entries(items, f, no));
                    }
                },
                None => {
                    proof {
                        assert(items =~= Seq::<(SpecEntryData, Seq<char>)>::empty());
                        assert(items_to_entries(items, f, no) =~= Seq::<SpecEntry>::empty());
                        assert(entry_views(entries@) =~= entry_views(old(entries)@)
                            + items_to_entries(items, f, no));
                    }
                },
            }
            return;
        }
        proof {
            assert(!is_prio_candidate(w));
        }
        i = j;
    }
    // no priority candidate: the line is a plain list item
    let cb = vec!['-', ' ', '[', ' ', ']', ' '];
    let dash = vec!['-', ' '];
    let b1 = strip_start_pat(line, a, n, &cb);
    let b2 = strip_start_pat(line, b1, n, &dash);
    let text = string_from_range(line, b2, n);
    proof {
        assert(text@ == item_text(l));
    }
    let ghost dv;
    let data = match cat {
        Some(c) => {
            proof {
                dv = SpecEntryData::Category(c@);
            }
            EntryData::Category(c.clone())
        },
        None => {
            proof {
                dv = SpecEntryData::Generic;
            }
            EntryData::Generic
        },
    };
    proof {
        assert(data@ == dv);
        assert(items == seq![(dv, item_text(l))]);
    }
    let ghost item_entry = SpecEntry {
        text: item_text(l),
        location: SpecLocation { file: f, line: no },
        data: dv,
    };
    push_entry(entries, text, filename, line_no, data);
    proof {
        assert(items_to_entries(items, f, no) =~= seq![item_entry]);
        assert(entry_views(entries@) =~= entry_views(old(entries)@) + items_to_entries(
            items,
            f,
            no,
        ));
    }
}

/// Scan the dedicated todo-list file's text: headings open categories,
/// list items below a heading become category entries, list items above
/// any heading become generic entries, and a first priority-candidate
/// token turns its line into a priority entry.
///
/// Every heading line must carry a `#` + space pair, as the heading's
/// text is what follows it.
pub fn scan_todo_string(content: String, filename: String, entries: &mut Vec<Entry>)
    requires
        content@.len() <= isize::MAX,
        headings_well_formed(content@),
    ensures
        entry_views(final(entries)@) == entry_views(old(entries)@) + spec_scan_todo(
            content@,
            filename@,
        ),
{
    let v = chars_of(content.as_str());
    let n = v.len();
    let ghost tgt = spec_scan_todo(content@, filename@);
    let ghost all = spec_lines(content@);
    proof {
        assert(v@.subrange(0, n as int) =~= content@);
    }
    let mut pos: usize = 0;
    let mut done: usize = 0;
    let mut cur_cat: Option<String> = None;
    loop
        invariant
            pos <= n == v@.len(),
            v@ == content@,
            done <= pos,
            content@.len() <= isize::MAX,
            headings_well_formed(content@),
            all == spec_lines(content@),
            done <= all.len(),
            tgt == spec_scan_todo(content@, filename@),
            spec_lines(v@.subrange(pos as int, n as int)) == all.skip(done as int),
            entry_views(old(entries)@) + tgt == entry_views(entries@) + scan_todo_lines(
                spec_lines(v@.subrange(pos as int, n as int)),
                filename@,
                (done + 1) as nat,
                opt_str_view(cur_cat),
            ),
        ensures
            entry_views(entries@) == entry_views(old(entries)@) + tgt,
        decreases n - pos,
    {
        if pos == n {
            proof {
                assert(v@.subrange(pos as int, n as int) =~= Seq::<char>::empty());
                assert(scan_todo_lines(
                    spec_lines(Seq::<char>::empty()),
                    filename@,
                    (done + 1) as nat,
                    opt_str_view(cur_cat),
                ) =~= Seq::<SpecEntry>::empty());
                assert(entry_views(entries@) =~= entry_views(old(entries)@) + tgt);
            }
            break;
        }
        let (le, next) = next_line_bounds(&v, pos);
        let line = vec_range(&v, pos, le);
        let ghost first = v@.subrange(pos as int, le as int);
        let ghost rest_lines = spec_lines(v@.subrange(next as int, n as int));
        let ghost cv = opt_str_view(cur_cat);
        proof {
            let ls = seq![first] + rest_lines;
            assert(ls[0] == first);
            assert(ls.drop_first() =~= rest_lines);
            assert(ls == all.skip(done as int));
            assert(all.skip(done as int)[0] == all[done as int]);
            assert(first == all[done as int]);
            assert(rest_lines =~= all.skip(done + 1)) by {
                assert(all.skip(done as int).len() == all.len() - done);
                assert(all.skip(done + 1).len() == all.len() - done - 1);
                assert forall|q: int| 0 <= q < rest_lines.len() implies rest_lines[q] == all.skip(
                    done + 1,
                )[q] by {
                    assert(rest_lines[q] == ls[q + 1]);
                    assert(all.skip(done as int)[q + 1] == all[done + 1 + q]);
                    assert(all.skip(done + 1)[q] == all[done + 1 + q]);
                }
            }
            assert(scan_todo_lines(ls, filename@, (done + 1) as nat, cv) == items_to_entries(
                todo_line_items(first, cv),
                filename@,
                (done + 1) as nat,
            ) + scan_todo_lines(rest_lines, filename@, (done + 2) as nat, todo_cat_after(first, cv)));
        }
        done = done + 1;
        let is_h = line.len() > 0 && line[0] == '#';
        proof {
            assert(is_h == is_heading(first));
        }
        if is_h {
            // a heading yields no entry and installs its text as category
            let hp = vec!['#', ' '];
            proof {
                assert(find_from(first, seq!['#', ' '], 0) >= 0);
            }
            let m = match find_pat(&line, &hp) {
                Some(m) => m,
                None => {
                    proof {
                        assert(false);
                    }
                    0
                },
            };
            proof {
                lemma_find_from_valid(line@, hp@, 0);
            }
            let hn = line.len();
            cur_cat = Some(string_from_range(&line, m + 2, hn));
            proof {
                assert(opt_str_view(cur_cat) == Some(heading_text(first)));
                assert(todo_cat_after(first, cv) == opt_str_view(cur_cat));
                assert(todo_line_items(first, cv) =~= Seq::<(SpecEntryData, Seq<char>)>::empty());
                assert(items_to_entries(todo_line_items(first, cv), filename@, done as nat)
                    =~= Seq::<SpecEntry>::empty());
                assert(entry_views(old(entries)@) + tgt =~= entry_views(entries@)
                    + scan_todo_lines(rest_lines, filename@, (done + 1) as nat, opt_str_view(cur_cat)));
            }
        } else {
            proof {
                assert(todo_cat_after(first, cv) == cv);
            }
            item_line_into(&line, &filename, done, &cur_cat, entries);
            proof {
                assert(entry_views(old(entries)@) + tgt =~= entry_views(entries@)
                    + scan_todo_lines(rest_lines, filename@, (done + 1) as nat, opt_str_view(cur_cat)));
            }
        }
        pos = next;
    }
}

/// Scan a README's text: only the section under a heading whose text is
/// the marker word (singular or plural, a trailing colon allowed) yields
/// entries; inside it, list items become generic entries and a first
/// priority-candidate token turns its line into a priority entry.
///
/// Every heading line must carry a `#` + space pair, as the heading's
/// text is what is compared against the marker word.
pub fn scan_readme_string(content: String, filename: String, entries: &mut Vec<Entry>)
    requires
        content@.len() <= isize::MAX,
        headings_well_formed(content@),
    ensures
        entry_views(final(entries)@) == entry_views(old(entries)@) + spec_scan_readme(
            content@,
            filename@,
        ),
{
    let v = chars_of(content.as_str());
    let n = v.len();
    let ghost tgt = spec_scan_readme(content@, filename@);
    let ghost all = spec_lines(content@);
    proof {
        assert(v@.subrange(0, n as int) =~= content@);
    }
    let mut pos: usize = 0;
    let mut done: usize = 0;
    let mut inside: bool = false;
    loop
        invariant
            pos <= n == v@.len(),
            v@ == content@,
            done <= pos,
            content@.len() <= isize::MAX,
            headings_well_formed(content@),
            all == spec_lines(content@),
            done <= all.len(),
            tgt == spec_scan_readme(content@, filename@),
            spec_lines(v@.subrange(pos as int, n as int)) == all.skip(done as int),
            entry_views(old(entries)@) + tgt == entry_views(entries@) + scan_readme_lines(
                spec_lines(v@.subrange(pos as int, n as int)),
                filename@,
                (done + 1) as nat,
                inside,
            ),
        ensures
            entry_views(entries@) == entry_views(old(entries)@) + tgt,
        decreases n - pos,
    {
        if pos == n {
            proof {
                assert(v@.subrange(pos as int, n as int) =~= Seq::<char>::empty());
                assert(scan_readme_lines(
                    spec_lines(Seq::<char>::empty()),
                    filename@,
                    (done + 1) as nat,
                    inside,
                ) =~= Seq::<SpecEntry>::empty());
                assert(entry_views(entries@) =~= entry_views(old(entries)@) + tgt);
            }
            break;
        }
        let (le, next) = next_line_bounds(&v, pos);
        let line = vec_range(&v, pos, le);
        let ghost first = v@.subrange(pos as int, le as int);
        let ghost rest_lines = spec_lines(v@.subrange(next as int, n as int));
        let ghost was_inside = inside;
        proof {
            let ls = seq![first] + rest_lines;
            assert(ls[0] == first);
            assert(ls.drop_first() =~= rest_lines);
            assert(ls == all.skip(done as int));
            assert(all.skip(done as int)[0] == all[done as int]);
            assert(first == all[done as int]);
            assert(rest_lines =~= all.skip(done + 1)) by {
                assert(all.skip(done as int).len() == all.len() - done);
                assert(all.skip(done + 1).len() == all.len() - done - 1);
                assert forall|q: int| 0 <= q < rest_lines.len() implies rest_lines[q] == all.skip(
                    done + 1,
                )[q] by {
                    assert(rest_lines[q] == ls[q + 1]);
                    assert(all.skip(done as int)[q + 1] == all[done + 1 + q]);
                    assert(all.skip(done + 1)[q] == all[done + 1 + q]);
                }
            }
            assert(scan_readme_lines(ls, filename@, (done + 1) as nat, inside) == items_to_entries(
                readme_line_items(first, inside),
                filename@,
                (done + 1) as nat,
            ) + scan_readme_lines(rest_lines, filename@, (done + 2) as nat, readme_in_after(
                first,
                inside,
            )));
        }
        done = done + 1;
        let is_h = line.len() > 0 && line[0] == '#';
        proof {
            assert(is_h == is_heading(first));
        }
        if is_h {
            // a heading yields no entry; it opens or closes the section
            let hp = vec!['#', ' '];
            proof {
                assert(find_from(first, seq!['#', ' '], 0) >= 0);
            }
            let m = match find_pat(&line, &hp) {
                Some(m) => m,
                None => {
                    proof {
                        assert(false);
                    }
                    0
                },
            };
            proof {
                lemma_find_from_valid(line@, hp@, 0);
            }
            let hn = line.len();
            let ghost htext = heading_text(first);
            proof {
                assert(htext == line@.subrange(m + 2, hn as int));
                assert(forall|q: int| 0 <= q < htext.len() ==> htext[q] == line@[m + 2 + q]);
            }
            // strip trailing colons from the heading text, then trim it
            let mut k = hn;
            while k > m + 2 && line[k - 1] == ':'
                invariant
                    m + 2 <= k <= hn == line@.len(),
                    forall|t: int| k <= t < hn ==> line@[t] == ':',
                decreases k,
            {
                k = k - 1;
            }
            proof {
                lemma_strip_char_suffix(htext, ':', k - (m + 2));
                assert(htext.subrange(0, k - (m + 2)) =~= line@.subrange(m + 2, k as int));
            }
            let (c, d) = trim_range(&line, m + 2, k);
            let ghost u = trim(trim_end_matches(htext, seq![':']));
            proof {
                assert(u == line@.subrange(c as int, d as int));
                assert(forall|q: int| 0 <= q < u.len() ==> u[q] == line@[c + q]);
            }
            let len = d - c;
            let w4 = len == 4 && eq_ci_char(line[c], 't') && eq_ci_char(line[c + 1], 'o')
                && eq_ci_char(line[c + 2], 'd') && eq_ci_char(line[c + 3], 'o');
            let w5 = len == 5 && eq_ci_char(line[c], 't') && eq_ci_char(line[c + 1], 'o')
                && eq_ci_char(line[c + 2], 'd') && eq_ci_char(line[c + 3], 'o')
                && eq_ci_char(line[c + 4], 's');
            inside = w4 || w5;
            proof {
                assert(w4 == is_todo_word(u));
                assert(w5 == is_todos_word(u));
                assert(inside == is_todo_heading(first));
                assert(readme_in_after(first, was_inside) == inside);
                assert(readme_line_items(first, was_inside) =~= Seq::<
                    (SpecEntryData, Seq<char>),
                >::empty());
                assert(items_to_entries(readme_line_items(first, was_inside), filename@, done as nat)
                    =~= Seq::<SpecEntry>::empty());
                assert(entry_views(old(entries)@) + tgt =~= entry_views(entries@)
                    + scan_readme_lines(rest_lines, filename@, (done + 1) as nat, inside));
            }
        } else if inside {
            let nocat: Option<String> = None;
            proof {
                assert(readme_in_after(first, was_inside) == inside);
                assert(readme_line_items(first, was_inside) == todo_line_items(
                    first,
                    opt_str_view(nocat),
                ));
            }
            item_line_into(&line, &filename, done, &nocat, entries);
            proof {
                assert(entry_views(old(entries)@) + tgt =~= entry_views(entries@)
                    + scan_readme_lines(rest_lines, filename@, (done + 1) as nat, inside));
            }
        } else {
            proof {
                assert(readme_in_after(first, was_inside) == inside);
                assert(readme_line_items(first, was_inside) =~= Seq::<
                    (SpecEntryData, Seq<char>),
                >::empty());
                assert(items_to_entries(readme_line_items(first, was_inside), filename@, done as nat)
                    =~= Seq::<SpecEntry>::empty());
                assert(entry_views(old(entries)@) + tgt =~= entry_views(entries@)
                    + scan_readme_lines(rest_lines, filename@, (done + 1) as nat, inside));
            }
        }
        pos = next;
    }
}

/// One gitignore pattern line expanded against its base directory: the
/// raw line with a trailing `*/` stripped and surrounding slashes
/// removed, joined to the base with a slash.
pub open spec fn gitignore_pattern(base: Seq<char>, line: Seq<char>) -> Seq<char> {
    base + seq!['/'] + trim_matches_char(trim_end_matches(line, seq!['*', '/']), '/')
}

/// Does a trimmed gitignore line ask to skip: empty, a comment, or a
/// negation (negations are not honored, only skipped)?
pub open spec fn gitignore_skips(t: Seq<char>) -> bool {
    t.len() == 0 || t[0] == '!' || t[0] == '#'
}

/// The glob patterns a gitignore text contributes: one per pattern line
/// before the first lone-star line, which stops the reading.
pub open spec fn spec_gitignore_patterns(ls: Seq<Seq<char>>, base: Seq<char>) -> Seq<Seq<char>>
    decreases ls.len(),
{
    if ls.len() == 0 {
        Seq::empty()
    } else {
        let t = trim(ls[0]);
        if gitignore_skips(t) {
            spec_gitignore_patterns(ls.drop_first(), base)
        } else if t == seq!['*'] {
            Seq::empty()
        } else {
            seq![gitignore_pattern(base, ls[0])] + spec_gitignore_patterns(ls.drop_first(), base)
        }
    }
}

/// Does a gitignore text hold a lone-star line, which excludes the base
/// directory itself?
pub open spec fn spec_gitignore_base(ls: Seq<Seq<char>>) -> bool
    decreases ls.len(),
{
    if ls.len() == 0 {
        false
    } else {
        let t = trim(ls[0]);
        if gitignore_skips(t) {
            spec_gitignore_base(ls.drop_first())
        } else if t == seq!['*'] {
            true
        } else {
            spec_gitignore_base(ls.drop_first())
        }
    }
}

/// What a gitignore file contributes to the exclude set: possibly the
/// base directory itself, and glob patterns to expand.
pub struct GitignoreExcludes {
    /// A lone-star line asked to exclude the whole base directory.
    pub exclude_base: bool,
    /// Glob patterns, each already joined to the base directory.
    pub patterns: Vec<String>,
}

/// Read exclusion patterns from a gitignore text found in `base_dir`.
///
/// Comment, negation and empty lines contribute nothing; a lone star
/// excludes the base directory itself and stops the reading; every other
/// line becomes a glob pattern relative to the base directory.
pub fn gitignore_excludes(base_dir: &str, content: &str) -> (r: GitignoreExcludes)
    requires
        content@.len() <= isize::MAX,
    ensures
        r.exclude_base == spec_gitignore_base(spec_lines(content@)),
        r.patterns@.map_values(|s: String| s@) == spec_gitignore_patterns(
            spec_lines(content@),
            base_dir@,
        ),
{
    let v = chars_of(content);
    let n = v.len();
    let ghost all_pats = spec_gitignore_patterns(spec_lines(content@), base_dir@);
    let ghost all_base = spec_gitignore_base(spec_lines(content@));
    proof {
        assert(v@.subrange(0, n as int) =~= content@);
    }
    let star_slash = vec!['*', '/'];
    let slash = vec!['/'];
    let mut pats: Vec<String> = Vec::new();
    let mut pos: usize = 0;
    let mut base_hit = false;
    loop
        invariant_except_break
            !base_hit,
            all_base == spec_gitignore_base(spec_lines(v@.subrange(pos as int, n as int))),
            all_pats == pats@.map_values(|s: String| s@) + spec_gitignore_patterns(
                spec_lines(v@.subrange(pos as int, n as int)),
                base_dir@,
            ),
        invariant
            pos <= n == v@.len(),
            v@ == content@,
            star_slash@ == seq!['*', '/'],
            slash@ == seq!['/'],
            all_pats == spec_gitignore_patterns(spec_lines(content@), base_dir@),
            all_base == spec_gitignore_base(spec_lines(content@)),
        ensures
            base_hit == all_base,
            pats@.map_values(|s: String| s@) == all_pats,
        decreases n - pos,
    {
        if pos == n {
            proof {
                assert(v@.subrange(pos as int, n as int) =~= Seq::<char>::empty());
                assert(spec_lines(Seq::<char>::empty()) =~= Seq::<Seq<char>>::empty());
                assert(pats@.map_values(|s: String| s@) =~= pats@.map_values(|s: String| s@)
                    + Seq::<Seq<char>>::empty());
            }
            break;
        }
        let (le, next) = next_line_bounds(&v, pos);
        let line = vec_range(&v, pos, le);
        let ghost first = v@.subrange(pos as int, le as int);
        let ghost rest_lines = spec_lines(v@.subrange(next as int, n as int));
        proof {
            let ls = seq![first] + rest_lines;
            assert(ls[0] == first);
            assert(ls.drop_first() =~= rest_lines);
        }
        let ln = line.len();
        let (a, b) = trim_range(&line, 0, ln);
        proof {
            assert(line@.subrange(0, ln as int) =~= first);
            assert(trim(first) == line@.subrange(a as int, b as int));
        }
        if a == b || line[a] == '!' || line[a] == '#' {
            proof {
                assert(gitignore_skips(trim(first)));
            }
            pos = next;
            continue;
        }
        proof {
            assert(!gitignore_skips(trim(first)));
        }
        if b - a == 1 && line[a] == '*' {
            proof {
                assert(trim(first) =~= seq!['*']);
                assert(spec_gitignore_patterns(seq![first] + rest_lines, base_dir@) =~= Seq::<
                    Seq<char>,
                >::empty());
                assert(pats@.map_values(|s: String| s@) =~= pats@.map_values(|s: String| s@)
                    + Seq::<Seq<char>>::empty());
            }
            base_hit = true;
            break;
        }
        proof {
            assert(trim(first) != seq!['*']) by {
                if trim(first) == seq!['*'] {
                    assert(trim(first).len() == 1 && trim(first)[0] == '*');
                }
            }
        }
        // a pattern line: strip a trailing `*/`, then surrounding slashes,
        // and join to the base directory
        let e1 = strip_end_pat(&line, 0, ln, &star_slash);
        let b1 = strip_start_pat(&line, 0, e1, &slash);
        let e2 = strip_end_pat(&line, b1, e1, &slash);
        let mut pattern = String::new();
        vstd::string::StringExecFns::append(&mut pattern, base_dir);
        pattern.push('/');
        let tail = string_from_range(&line, b1, e2);
        vstd::string::StringExecFns::append(&mut pattern, tail.as_str());
        proof {
            assert(line@.subrange(0, e1 as int) == trim_end_matches(first, seq!['*', '/']));
            assert(line@.subrange(b1 as int, e2 as int) == trim_matches_char(
                trim_end_matches(first, seq!['*', '/']),
                '/',
            )) by {
                let mid = line@.subrange(0, e1 as int);
                assert(mid.subrange(b1 as int, mid.len() as int) =~= line@.subrange(
                    b1 as int,
                    e1 as int,
                ));
                let mid2 = line@.subrange(b1 as int, e1 as int);
                assert(mid2.subrange(0, (e2 - b1) as int) =~= line@.subrange(b1 as int, e2 as int));
            }
            assert(pattern@ =~= gitignore_pattern(base_dir@, first));
        }
        let ghost before = pats@;
        pats.push(pattern);
        proof {
            assert(pats@.map_values(|s: String| s@) =~= before.map_values(|s: String| s@).push(
                pats@.last()@,
            ));
            assert(spec_gitignore_patterns(seq![first] + rest_lines, base_dir@) == seq![
                gitignore_pattern(base_dir@, first),
            ] + spec_gitignore_patterns(rest_lines, base_dir@));
            assert(before.map_values(|s: String| s@) + (seq![gitignore_pattern(base_dir@, first)]
                + spec_gitignore_patterns(rest_lines, base_dir@)) =~= pats@.map_values(
                |s: String| s@,
            ) + spec_gitignore_patterns(rest_lines, base_dir@));
        }
        pos = next;
    }
    GitignoreExcludes { exclude_base: base_hit, patterns: pats }
}

/// Is a path, by exact comparison, in the exclude set?
pub open spec fn spec_excluded(path: Seq<char>, excludes: Seq<Seq<char>>) -> bool {
    exists|i: int| 0 <= i < excludes.len() && excludes[i] == path
}

/// Does the exclude set hold exactly this canonical path?  The walker
/// skips every entry whose canonical path a gitignore or the caller
/// excluded.
pub fn is_excluded(path: &String, excludes: &Vec<String>) -> (r: bool)
    ensures
        r == spec_excluded(path@, excludes@.map_values(|s: String| s@)),
{
    let ghost exs = excludes@.map_values(|s: String| s@);
    let n = excludes.len();
    let mut i: usize = 0;
    while i < n
        invariant
            i <= n == excludes@.len(),
            exs == excludes@.map_values(|s: String| s@),
            forall|t: int| 0 <= t < i ==> exs[t] != path@,
        decreases n - i,
    {
        if excludes[i].eq(path) {
            proof {
                assert(exs[i as int] == path@);
            }
            return true;
        }
        i = i + 1;
    }
    false
}

/// Does a file name begin with a dot?  The walker skips every entry
/// whose final path component is hidden this way.
pub fn is_hidden_name(name: &str) -> (r: bool)
    ensures
        r == (name@.len() > 0 && name@[0] == '.'),
{
    if name.is_empty() {
        false
    } else {
        let c = vstd::string::StrSliceExecFns::get_char(name, 0);
        c == '.'
    }
}

} // verus!
