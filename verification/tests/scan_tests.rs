use todo_scan::entries::{Entry, EntryData, Location};
use todo_scan::scan::{clean_line, parse_priority, scan_string};

fn entry(data: EntryData, text: &str, file: &str, line: usize) -> Entry {
    Entry {
        data,
        text: String::from(text),
        location: Location { file: String::from(file), line },
    }
}

#[test]
fn generic_test() {
    let str = r#"
            1
            2
            // todo foo
            /* TODO: foo bar */
            /*

            * TODO baz
            TODO baz2
            TODO baz2 todo
            <!-- TODO foo2 -->
            */
        "#;

    let mut entries: Vec<Entry> = vec![];
    let path = String::from("foo.txt");

    scan_string(str.to_string(), path.clone(), &mut entries);

    assert_eq!(6, entries.len());

    assert_eq!(entry(EntryData::Generic, "foo", "foo.txt", 4), entries[0]);
    assert_eq!(entry(EntryData::Generic, "foo bar", "foo.txt", 5), entries[1]);
    assert_eq!(entry(EntryData::Generic, "baz", "foo.txt", 8), entries[2]);
    assert_eq!(entry(EntryData::Generic, "baz2", "foo.txt", 9), entries[3]);
    assert_eq!(entry(EntryData::Generic, "baz2 todo", "foo.txt", 10), entries[4]);
    assert_eq!(entry(EntryData::Generic, "foo2", "foo.txt", 11), entries[5]);
}

#[test]
fn category_test() {
    let str = r#"
            1
            2
            todo@foo
            todo@bar abc def
            3
            todo@baz x y
            4
            // TODO@baz2 a
            /* TODO@baz3 */
            // TODO@baz3 b
            <!-- TODO@baz3 -->
        "#;

    let mut entries: Vec<Entry> = vec![];
    let path = String::from("foo.txt");

    scan_string(str.to_string(), path.clone(), &mut entries);

    assert_eq!(7, entries.len());

    assert_eq!(entry(EntryData::Category(String::from("foo")), "", "foo.txt", 4), entries[0]);
    assert_eq!(
        entry(EntryData::Category(String::from("bar")), "abc def", "foo.txt", 5),
        entries[1]
    );
    assert_eq!(entry(EntryData::Category(String::from("baz")), "x y", "foo.txt", 7), entries[2]);
    assert_eq!(entry(EntryData::Category(String::from("baz2")), "a", "foo.txt", 9), entries[3]);
    assert_eq!(entry(EntryData::Category(String::from("baz3")), "", "foo.txt", 10), entries[4]);
    assert_eq!(entry(EntryData::Category(String::from("baz3")), "b", "foo.txt", 11), entries[5]);
    assert_eq!(entry(EntryData::Category(String::from("baz3")), "", "foo.txt", 12), entries[6]);
}

#[test]
fn priority_test() {
    let str = r#"
            1
            2
            todo00
            todo000 abc
            todo0 abc def
            todo1 foo
            3
            todo1 x y
            4
            // todo0 bar
            // TODO1 a
            /* TODO2 */
            // TODO3 b
            <!-- TODO4 b -->
        "#;

    let mut entries: Vec<Entry> = vec![];
    let path = String::from("foo.txt");

    scan_string(str.to_string(), path.clone(), &mut entries);

    assert_eq!(10, entries.len());

    assert_eq!(entry(EntryData::Priority(-1), "", "foo.txt", 4), entries[0]);
    assert_eq!(entry(EntryData::Priority(-2), "abc", "foo.txt", 5), entries[1]);
    assert_eq!(entry(EntryData::Priority(0), "abc def", "foo.txt", 6), entries[2]);
    assert_eq!(entry(EntryData::Priority(1), "foo", "foo.txt", 7), entries[3]);
    assert_eq!(entry(EntryData::Priority(1), "x y", "foo.txt", 9), entries[4]);
    assert_eq!(entry(EntryData::Priority(0), "bar", "foo.txt", 11), entries[5]);
    assert_eq!(entry(EntryData::Priority(1), "a", "foo.txt", 12), entries[6]);
    assert_eq!(entry(EntryData::Priority(2), "", "foo.txt", 13), entries[7]);
    assert_eq!(entry(EntryData::Priority(3), "b", "foo.txt", 14), entries[8]);
    assert_eq!(entry(EntryData::Priority(4), "b", "foo.txt", 15), entries[9]);
}

#[test]
fn generic_comment_closer_scenario() {
    let mut entries: Vec<Entry> = vec![];
    scan_string(
        String::from("// TODO: foo bar */"),
        String::from("a.rs"),
        &mut entries,
    );

    assert_eq!(1, entries.len());
    assert_eq!(entry(EntryData::Generic, "foo bar", "a.rs", 1), entries[0]);
}

#[test]
fn category_scenario() {
    let mut entries: Vec<Entry> = vec![];
    scan_string(String::from("todo@bar abc def"), String::from("a.rs"), &mut entries);

    assert_eq!(1, entries.len());
    assert_eq!(
        entry(EntryData::Category(String::from("bar")), "abc def", "a.rs", 1),
        entries[0]
    );
}

#[test]
fn priority_scenario() {
    let mut entries: Vec<Entry> = vec![];
    scan_string(String::from("todo00\ntodo1 foo"), String::from("a.rs"), &mut entries);

    assert_eq!(2, entries.len());
    assert_eq!(entry(EntryData::Priority(-1), "", "a.rs", 1), entries[0]);
    assert_eq!(entry(EntryData::Priority(1), "foo", "a.rs", 2), entries[1]);
}

#[test]
fn macro_call_form_takes_whole_line() {
    let mut entries: Vec<Entry> = vec![];
    let str = "    todo!(\"generic\");\n    todo!();\n    todo!(\"@foo not category\");\n    todo!(\"00 not priority\");";
    scan_string(String::from(str), String::from("b.rs"), &mut entries);

    assert_eq!(4, entries.len());
    assert_eq!(entry(EntryData::Generic, "todo!(\"generic\");", "b.rs", 1), entries[0]);
    assert_eq!(entry(EntryData::Generic, "todo!();", "b.rs", 2), entries[1]);
    assert_eq!(
        entry(EntryData::Generic, "todo!(\"@foo not category\");", "b.rs", 3),
        entries[2]
    );
    assert_eq!(
        entry(EntryData::Generic, "todo!(\"00 not priority\");", "b.rs", 4),
        entries[3]
    );
}

#[test]
fn quoted_bare_marker() {
    let mut entries: Vec<Entry> = vec![];
    scan_string(String::from("foo=\"bar todo\""), String::from("c.txt"), &mut entries);

    assert_eq!(1, entries.len());
    assert_eq!(entry(EntryData::Generic, "", "c.txt", 1), entries[0]);
}

#[test]
fn malformed_priority_yields_nothing() {
    let mut entries: Vec<Entry> = vec![];
    scan_string(String::from("todo11 nope"), String::from("c.txt"), &mut entries);
    assert_eq!(0, entries.len());
}

#[test]
fn several_priority_tokens_on_one_line() {
    let mut entries: Vec<Entry> = vec![];
    scan_string(String::from("todo1 x todo2 y"), String::from("c.txt"), &mut entries);

    assert_eq!(2, entries.len());
    assert_eq!(entry(EntryData::Priority(1), "x todo2 y", "c.txt", 1), entries[0]);
    assert_eq!(entry(EntryData::Priority(2), "y", "c.txt", 1), entries[1]);
}

#[test]
fn scan_twice_gives_identical_lists() {
    let str = "// TODO one\ntodo@cat two\ntodo3 three";
    let mut first: Vec<Entry> = vec![];
    let mut second: Vec<Entry> = vec![];
    scan_string(String::from(str), String::from("d.txt"), &mut first);
    scan_string(String::from(str), String::from("d.txt"), &mut second);

    assert_eq!(first, second);
    assert_eq!(3, first.len());
}

#[test]
fn parse_priority_encoding() {
    assert_eq!(Some(0), parse_priority("todo0"));
    assert_eq!(Some(-1), parse_priority("todo00"));
    assert_eq!(Some(-2), parse_priority("todo000"));
    assert_eq!(Some(1), parse_priority("todo1"));
    assert_eq!(Some(9), parse_priority("todo9"));
    assert_eq!(None, parse_priority("todo11"));
    assert_eq!(Some(5), parse_priority("TODO5"));
}

#[test]
fn empty_input_yields_nothing() {
    let mut entries: Vec<Entry> = vec![];
    scan_string(String::new(), String::from("e.txt"), &mut entries);
    assert_eq!(0, entries.len());
}

#[test]
fn carriage_returns_are_dropped_before_line_feeds() {
    let mut entries: Vec<Entry> = vec![];
    scan_string(
        String::from("// todo one\r\ntodo1 two\r\n"),
        String::from("w.txt"),
        &mut entries,
    );

    assert_eq!(2, entries.len());
    assert_eq!(entry(EntryData::Generic, "one", "w.txt", 1), entries[0]);
    assert_eq!(entry(EntryData::Priority(1), "two", "w.txt", 2), entries[1]);
}

#[test]
fn clean_line_strips_closers() {
    assert_eq!("foo bar", clean_line("/* TODO: foo bar */", "TODO:"));
    assert_eq!("x", clean_line("<!-- todo x -->", "todo"));
    assert_eq!("y", clean_line("{{! todo y --}}", "todo"));
    assert_eq!("z", clean_line("<a todo z />", "todo"));
    assert_eq!("plain", clean_line("todo plain", "todo"));
}
