use plugin_loader::{candidate_of, from_path, from_paths, EntryInfo, DESCRIPTOR_FILE};

fn entry(source: &str, is_dir: bool, has_descriptor: bool) -> EntryInfo {
    EntryInfo { source: source.to_string(), is_dir, has_descriptor }
}

fn pair(a: &str, b: &str) -> (String, String) {
    (a.to_string(), b.to_string())
}

#[test]
fn descriptor_file_name() {
    assert_eq!(DESCRIPTOR_FILE, "plugin.ron");
}

#[test]
fn candidate_of_marked_directory() {
    let c = candidate_of(&entry("/p/foo", true, true));
    assert_eq!(c, Some(pair("/p/foo", "/p/foo/plugin.ron")));
}

#[test]
fn candidate_of_directory_without_descriptor() {
    assert_eq!(candidate_of(&entry("/p/bar", true, false)), None);
}

#[test]
fn candidate_of_plain_file() {
    assert_eq!(candidate_of(&entry("/p/notes.txt", false, false)), None);
    assert_eq!(candidate_of(&entry("/p/odd", false, true)), None);
}

#[test]
fn unreadable_root_gives_nothing() {
    assert!(from_path(&None).is_empty());
}

#[test]
fn empty_root_gives_nothing() {
    assert!(from_path(&Some(vec![])).is_empty());
}

#[test]
fn only_marked_directories_in_listing_order() {
    let listing = Some(vec![
        Some(entry("/p/b", true, true)),
        Some(entry("/p/readme", false, false)),
        None,
        Some(entry("/p/empty", true, false)),
        Some(entry("/p/a", true, true)),
    ]);
    assert_eq!(
        from_path(&listing),
        vec![pair("/p/b", "/p/b/plugin.ron"), pair("/p/a", "/p/a/plugin.ron")]
    );
}

#[test]
fn roots_in_priority_order_without_dedup() {
    let roots = vec![
        Some(vec![Some(entry("/home/u/.plugins/foo", true, true))]),
        Some(vec![
            Some(entry("/usr/lib/plugins/foo", true, true)),
            Some(entry("/usr/lib/plugins/bar", true, false)),
        ]),
    ];
    assert_eq!(
        from_paths(&roots),
        vec![
            pair("/home/u/.plugins/foo", "/home/u/.plugins/foo/plugin.ron"),
            pair("/usr/lib/plugins/foo", "/usr/lib/plugins/foo/plugin.ron"),
        ]
    );
}

#[test]
fn missing_root_does_not_stop_later_roots() {
    let roots = vec![
        None,
        Some(vec![Some(entry("/usr/lib/plugins/calc", true, true))]),
        None,
    ];
    assert_eq!(
        from_paths(&roots),
        vec![pair("/usr/lib/plugins/calc", "/usr/lib/plugins/calc/plugin.ron")]
    );
}

#[test]
fn no_roots_gives_nothing() {
    assert!(from_paths(&vec![]).is_empty());
}
