use todo_scan::scan::{GitignoreExcludes, Stats, gitignore_excludes, is_excluded, is_hidden_name};

#[test]
fn gitignore_patterns_collected() {
    let content = "# a comment\n\n!negated\ntarget/\nbuild*/\n/abs\n";
    let r: GitignoreExcludes = gitignore_excludes("/base", content);

    assert!(!r.exclude_base);
    let pats: Vec<&str> = r.patterns.iter().map(|p| p.as_str()).collect();
    assert_eq!(vec!["/base/target", "/base/build", "/base/abs"], pats);
}

#[test]
fn gitignore_star_excludes_whole_directory() {
    let r = gitignore_excludes("/base", "*\n");
    assert!(r.exclude_base);
    assert_eq!(0, r.patterns.len());
}

#[test]
fn gitignore_star_stops_reading() {
    let r = gitignore_excludes("/base", "kept\n*\nignored\n");
    assert!(r.exclude_base);
    let pats: Vec<&str> = r.patterns.iter().map(|p| p.as_str()).collect();
    assert_eq!(vec!["/base/kept"], pats);
}

#[test]
fn exclusion_is_exact_path_equality() {
    let excludes = vec![String::from("/a/b"), String::from("/c")];
    assert!(is_excluded(&String::from("/a/b"), &excludes));
    assert!(!is_excluded(&String::from("/a/b/c"), &excludes));
    assert!(!is_excluded(&String::from("/a"), &excludes));
}

#[test]
fn hidden_names_start_with_a_dot() {
    assert!(is_hidden_name(".git"));
    assert!(is_hidden_name(".gitignore"));
    assert!(!is_hidden_name("src"));
    assert!(!is_hidden_name(""));
}

#[test]
fn stats_count_visits() {
    let mut stats = Stats::new(0);
    stats.add_file(String::from("a"));
    stats.add_file(String::from("b"));
    stats.add_folder(String::from("d"));

    assert_eq!(2, stats.file_count());
    assert_eq!(1, stats.folder_count());
    // at verbosity zero the path lists are not kept
    assert_eq!(0, stats.files().len());
    assert_eq!(0, stats.folders().len());
}

#[test]
fn stats_keep_paths_when_verbose() {
    let mut stats = Stats::new(2);
    stats.add_file(String::from("a"));
    stats.add_folder(String::from("d"));

    assert_eq!(vec![String::from("a")], *stats.files());
    assert_eq!(vec![String::from("d")], *stats.folders());
    assert_eq!(2, stats.verbosity());
}
