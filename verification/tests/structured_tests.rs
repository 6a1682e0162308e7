use todo_scan::entries::{Entry, EntryData, Location};
use todo_scan::scan::{scan_readme_string, scan_todo_string};

fn entry(data: EntryData, text: &str, file: &str, line: usize) -> Entry {
    Entry {
        data,
        text: String::from(text),
        location: Location { file: String::from(file), line },
    }
}

#[test]
fn todo_string_test() {
    let content = "\
- generic foo
- generic bar
- todo00 priority bar

# High priority
- todo0 a
- foo
- bar

# Responsivity
- abc
- def";

    let mut entries: Vec<Entry> = vec![];
    scan_todo_string(String::from(content), String::from("todo.md"), &mut entries);

    assert_eq!(8, entries.len());
    assert_eq!(entry(EntryData::Generic, "generic foo", "todo.md", 1), entries[0]);
    assert_eq!(entry(EntryData::Generic, "generic bar", "todo.md", 2), entries[1]);
    assert_eq!(entry(EntryData::Priority(-1), "priority bar", "todo.md", 3), entries[2]);
    assert_eq!(entry(EntryData::Priority(0), "a", "todo.md", 6), entries[3]);
    assert_eq!(
        entry(EntryData::Category(String::from("High priority")), "foo", "todo.md", 7),
        entries[4]
    );
    assert_eq!(
        entry(EntryData::Category(String::from("High priority")), "bar", "todo.md", 8),
        entries[5]
    );
    assert_eq!(
        entry(EntryData::Category(String::from("Responsivity")), "abc", "todo.md", 11),
        entries[6]
    );
    assert_eq!(
        entry(EntryData::Category(String::from("Responsivity")), "def", "todo.md", 12),
        entries[7]
    );
}

#[test]
fn todo_heading_categories() {
    let content = "# High priority\n- foo\n- bar";
    let mut entries: Vec<Entry> = vec![];
    scan_todo_string(String::from(content), String::from("todo.md"), &mut entries);

    assert_eq!(2, entries.len());
    assert_eq!(
        entry(EntryData::Category(String::from("High priority")), "foo", "todo.md", 2),
        entries[0]
    );
    assert_eq!(
        entry(EntryData::Category(String::from("High priority")), "bar", "todo.md", 3),
        entries[1]
    );
}

#[test]
fn todo_checkbox_prefix_stripped() {
    let content = "- [ ] boxed\n- plain\nnot a list item";
    let mut entries: Vec<Entry> = vec![];
    scan_todo_string(String::from(content), String::from("todo.md"), &mut entries);

    assert_eq!(2, entries.len());
    assert_eq!(entry(EntryData::Generic, "boxed", "todo.md", 1), entries[0]);
    assert_eq!(entry(EntryData::Generic, "plain", "todo.md", 2), entries[1]);
}

#[test]
fn readme_string_test() {
    let content = "\
# My project

Some description.

- not scanned, outside the marker section

## Usage

- still not scanned

# TODO
- [ ] abc
- todo0 def
- todo00 ghi
- bar
- [ ] baz

# Other
- nope";

    let mut entries: Vec<Entry> = vec![];
    scan_readme_string(String::from(content), String::from("README.md"), &mut entries);

    assert_eq!(5, entries.len());
    assert_eq!(entry(EntryData::Generic, "abc", "README.md", 12), entries[0]);
    assert_eq!(entry(EntryData::Priority(0), "def", "README.md", 13), entries[1]);
    assert_eq!(entry(EntryData::Priority(-1), "ghi", "README.md", 14), entries[2]);
    assert_eq!(entry(EntryData::Generic, "bar", "README.md", 15), entries[3]);
    assert_eq!(entry(EntryData::Generic, "baz", "README.md", 16), entries[4]);
}

#[test]
fn readme_section_scenario() {
    let content = "intro\n# TODO\n- [ ] abc\n# Notes\n- outside";
    let mut entries: Vec<Entry> = vec![];
    scan_readme_string(String::from(content), String::from("README.md"), &mut entries);

    assert_eq!(1, entries.len());
    assert_eq!(entry(EntryData::Generic, "abc", "README.md", 3), entries[0]);
}

#[test]
fn readme_heading_variants() {
    let content = "# TODOS:\n- one\n# todos\n- two\n# todo:\n- three\n# TODOX\n- four";
    let mut entries: Vec<Entry> = vec![];
    scan_readme_string(String::from(content), String::from("README.md"), &mut entries);

    assert_eq!(3, entries.len());
    assert_eq!(entry(EntryData::Generic, "one", "README.md", 2), entries[0]);
    assert_eq!(entry(EntryData::Generic, "two", "README.md", 4), entries[1]);
    assert_eq!(entry(EntryData::Generic, "three", "README.md", 6), entries[2]);
}

#[test]
fn readme_never_yields_categories() {
    let content = "# TODO\n## Nested\n- after nested heading";
    let mut entries: Vec<Entry> = vec![];
    scan_readme_string(String::from(content), String::from("README.md"), &mut entries);

    assert_eq!(0, entries.len());
}

#[test]
fn todo_malformed_priority_line_yields_nothing() {
    let content = "- todo11 nothing\n- kept";
    let mut entries: Vec<Entry> = vec![];
    scan_todo_string(String::from(content), String::from("todo.md"), &mut entries);

    assert_eq!(1, entries.len());
    assert_eq!(entry(EntryData::Generic, "kept", "todo.md", 2), entries[0]);
}
