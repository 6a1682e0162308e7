use todo_scan::entries::{Entry, EntryData, Location};
use todo_scan::render::{Grouped, group_entries, priority_heading, render_entries};

fn entry(data: EntryData, text: &str, file: &str, line: usize) -> Entry {
    Entry {
        data,
        text: String::from(text),
        location: Location { file: String::from(file), line },
    }
}

#[test]
fn priority_heading_notation() {
    assert_eq!("todo0", priority_heading(0).as_str());
    assert_eq!("todo00", priority_heading(-1).as_str());
    assert_eq!("todo000", priority_heading(-2).as_str());
    assert_eq!("todo1", priority_heading(1).as_str());
    assert_eq!("todo9", priority_heading(9).as_str());
    assert_eq!("todo42", priority_heading(42).as_str());
}

#[test]
fn render_line_with_and_without_text() {
    let with_text = entry(EntryData::Generic, "fix this", "src/a.rs", 12);
    assert_eq!("- [ ] fix this (src/a.rs:12)", with_text.render_line().as_str());

    let without_text = entry(EntryData::Generic, "", "src/a.rs", 3);
    assert_eq!("- [ ] src/a.rs:3", without_text.render_line().as_str());
}

#[test]
fn groups_are_ordered() {
    let entries = vec![
        entry(EntryData::Priority(3), "p3", "f", 1),
        entry(EntryData::Category(String::from("beta")), "cb", "f", 2),
        entry(EntryData::Priority(-1), "pm1", "f", 3),
        entry(EntryData::Generic, "zz", "f", 4),
        entry(EntryData::Category(String::from("alpha")), "ca", "f", 5),
        entry(EntryData::Priority(3), "p3 again", "f", 6),
        entry(EntryData::Generic, "aa", "f", 7),
        entry(EntryData::Generic, "", "f", 8),
    ];

    let g: Grouped = group_entries(entries);

    let pkeys: Vec<isize> = g.priorities.iter().map(|p| p.0).collect();
    assert_eq!(vec![-1isize, 3], pkeys);
    assert_eq!(1, g.priorities[0].1.len());
    assert_eq!(2, g.priorities[1].1.len());
    assert_eq!("p3", g.priorities[1].1[0].text);
    assert_eq!("p3 again", g.priorities[1].1[1].text);

    let ckeys: Vec<&str> = g.categories.iter().map(|c| c.0.as_str()).collect();
    assert_eq!(vec!["alpha", "beta"], ckeys);

    let gtexts: Vec<&str> = g.generic.iter().map(|e| e.text.as_str()).collect();
    assert_eq!(vec!["", "aa", "zz"], gtexts);
}

#[test]
fn full_report_text() {
    let entries = vec![
        entry(EntryData::Priority(2), "later", "f.rs", 1),
        entry(EntryData::Generic, "b", "f.rs", 2),
        entry(EntryData::Category(String::from("web")), "style", "f.rs", 3),
        entry(EntryData::Priority(-1), "urgent", "f.rs", 4),
        entry(EntryData::Generic, "a", "f.rs", 5),
        entry(EntryData::Category(String::from("api")), "route", "f.rs", 6),
    ];

    let out = render_entries(entries);
    let expected = "\
# TODOs

## todo00
- [ ] urgent (f.rs:4)

## todo2
- [ ] later (f.rs:1)

## api
- [ ] route (f.rs:6)

## web
- [ ] style (f.rs:3)

## Other
- [ ] a (f.rs:5)
- [ ] b (f.rs:2)
";
    assert_eq!(expected, out.as_str());
}

#[test]
fn empty_report() {
    let out = render_entries(vec![]);
    assert_eq!("# TODOs\n\n## Other\n", out.as_str());
}

#[test]
fn equal_texts_keep_discovery_order() {
    let entries = vec![
        entry(EntryData::Generic, "same", "f", 9),
        entry(EntryData::Generic, "same", "f", 2),
    ];
    let g = group_entries(entries);
    assert_eq!(9, g.generic[0].location.line);
    assert_eq!(2, g.generic[1].location.line);
}
