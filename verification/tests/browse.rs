//! Browsing within roots.

use goose_roaming::browse::{
    after_inspecting, after_reading, after_resolving, begin_listing, browse_roots,
    configured_roots, is_within_roots, CanonicalPath, DirItem, ItemMeta, ListError, ListPlan,
};
use goose_roaming::instant::{FIRST_SECOND, LAST_SECOND};

fn path(text: &str) -> CanonicalPath {
    CanonicalPath::from_bytes(text.as_bytes()).unwrap()
}

fn item(name: &str, is_dir: bool) -> DirItem {
    DirItem {
        name: name.as_bytes().to_vec(),
        is_symlink: Some(false),
        meta: Some(ItemMeta { is_dir, len: 12, modified: Some((0, 0)) }),
    }
}

#[test]
fn plain_subdirectory_is_allowed() {
    let roots = vec![path("/base/plain/root")];
    assert!(is_within_roots(&path("/base/plain/root/sub"), &roots));
    assert!(is_within_roots(&path("/base/plain/root"), &roots));
}

#[test]
fn dotdot_cannot_escape_a_root() {
    // Textually this starts with the root; it is no resolved path.
    assert!(CanonicalPath::from_bytes(b"/base/dotdot/root/../outside").is_none());
    let roots = vec![path("/base/dotdot/root")];
    assert!(!is_within_roots(&path("/base/dotdot/outside"), &roots));
}

#[test]
fn symlink_out_of_a_root_cannot_escape() {
    // The link stands inside the root; what it resolves to does not.
    let roots = vec![path("/base/symlink/root")];
    assert!(is_within_roots(&path("/base/symlink/root/escape"), &roots));
    match after_resolving("/base/symlink/root/escape", Ok(path("/base/symlink/outside")), &roots) {
        ListPlan::Refuse(ListError::InvalidParams(_)) => {}
        _ => panic!("a symlink escaped the roots"),
    }
}

#[test]
fn sibling_with_a_shared_name_prefix_is_not_inside() {
    // "/a/root-evil" must not count as inside "/a/root" just because the string starts with it.
    let roots = vec![path("/base/prefix/root")];
    assert!(!is_within_roots(&path("/base/prefix/root-evil"), &roots));
}

#[test]
fn resolved_paths_are_absolute_and_plain() {
    for bad in ["", "a", "a/b", "/a/", "//", "/a//b", "/./a", "/a/.", "/..", "/a/../b"] {
        assert!(CanonicalPath::from_bytes(bad.as_bytes()).is_none(), "{bad}");
    }
    for good in ["/", "/a", "/a/b.c", "/...", "/.hidden/x"] {
        assert_eq!(path(good).spell(), good.as_bytes().to_vec());
        assert_eq!(path(good).to_text(), good);
    }
    assert_eq!(path("/a/b").parent(), Some(path("/a")));
    assert_eq!(path("/a").parent(), Some(path("/")));
    assert_eq!(path("/").parent(), None);
    assert!(path("/a/b").starts_with(&path("/")));
    assert!(!path("/a").starts_with(&path("/a/b")));
}

#[test]
fn text_that_is_not_utf8_is_replaced() {
    let odd = CanonicalPath::from_bytes(b"/a\xff/b").unwrap();
    assert_eq!(odd.to_text(), "/a\u{fffd}/b");
    assert_eq!(odd.spell(), b"/a\xff/b".to_vec());
}

#[test]
fn roots_are_trimmed_resolved_and_listed_once() {
    assert_eq!(configured_roots(Some(" /a : : /b:/a ".to_string())), vec!["/a", "/b", "/a"]);
    assert!(configured_roots(None).is_empty());
    let roots = browse_roots(vec![
        Some(path("/work")),
        None,
        Some(path("/a")),
        Some(path("/work")),
    ]);
    assert_eq!(roots, vec![path("/work"), path("/a")]);
}

#[test]
fn requests_without_a_path_list_the_roots() {
    let roots = vec![path("/home/me/project"), path("/")];
    for request in [None, Some("  ")] {
        match begin_listing("s1", true, &roots, request) {
            ListPlan::Answer(a) => {
                assert_eq!(a.path, "");
                assert_eq!(a.parent, None);
                assert_eq!(a.roots, vec!["/home/me/project", "/"]);
                assert_eq!(a.entries[0].name, "project");
                assert_eq!(a.entries[0].path, "/home/me/project");
                assert!(a.entries[0].is_dir && a.entries[0].size.is_none());
                assert_eq!(a.entries[1].name, "/");
            }
            _ => panic!("the roots were not listed"),
        }
    }
}

#[test]
fn requests_go_through_resolving_and_containment() {
    let roots = vec![path("/a"), path("/b")];
    match begin_listing("s1", false, &roots, Some("/a")) {
        ListPlan::Refuse(e) => {
            assert_eq!(e, ListError::NotFound("Session not found: s1".to_string()))
        }
        _ => panic!("an unknown session was served"),
    }
    match begin_listing("s1", true, &roots, Some(" /a/x ")) {
        ListPlan::Resolve(p) => assert_eq!(p, "/a/x"),
        _ => panic!("the path was not resolved"),
    }
    match after_resolving("/a/x", Err("no such file".to_string()), &roots) {
        ListPlan::Refuse(e) => {
            assert_eq!(e, ListError::NotFound("Cannot resolve /a/x: no such file".to_string()))
        }
        _ => panic!("an unresolved path was served"),
    }
    match after_resolving("/c", Ok(path("/c")), &roots) {
        ListPlan::Refuse(e) => assert_eq!(
            e,
            ListError::InvalidParams(
                "Path is outside the browsable roots (/a, /b): /c".to_string()
            )
        ),
        _ => panic!("a path outside the roots was served"),
    }
    match after_resolving("/a/x", Ok(path("/a/x")), &roots) {
        ListPlan::Inspect(p) => assert_eq!(p, path("/a/x")),
        _ => panic!("a path within the roots was refused"),
    }
    match after_inspecting(path("/a/x"), false) {
        ListPlan::Refuse(e) => {
            assert_eq!(e, ListError::InvalidParams("Not a directory: /a/x".to_string()))
        }
        _ => panic!("a file was listed"),
    }
    assert!(matches!(after_inspecting(path("/a/x"), true), ListPlan::Read(_)));
}

#[test]
fn listings_put_directories_first_and_ignore_case() {
    let roots = vec![path("/a")];
    let mut link = item("link", true);
    link.is_symlink = Some(true);
    let broken = DirItem { name: b"Broken".to_vec(), is_symlink: None, meta: None };
    let items = vec![item("b", false), item("Zoo", true), broken, link, item("A", false)];
    let answer = after_reading(&path("/a/x"), &roots, Ok(items)).unwrap();
    let names: Vec<&str> = answer.entries.iter().map(|e| e.name.as_str()).collect();
    assert_eq!(names, vec!["link", "Zoo", "A", "b", "Broken"]);
    assert_eq!(answer.path, "/a/x");
    assert_eq!(answer.parent.as_deref(), Some("/a"));
    assert_eq!(answer.roots, vec!["/a"]);
    let link = &answer.entries[0];
    assert!(link.is_symlink && link.is_dir && link.size.is_none());
    assert_eq!(link.path, "/a/x/link");
    let file = &answer.entries[2];
    assert_eq!(file.size, Some(12));
    assert_eq!(file.modified.as_deref(), Some("1970-01-01T00:00:00+00:00"));
    let broken = &answer.entries[4];
    assert!(!broken.is_dir && !broken.is_symlink);
    assert_eq!((broken.size, broken.modified.clone()), (None, None));
}

#[test]
fn parents_outside_the_roots_are_not_offered() {
    let roots = vec![path("/a/x")];
    let answer = after_reading(&path("/a/x"), &roots, Ok(vec![])).unwrap();
    assert_eq!(answer.parent, None);
    let everything = vec![path("/")];
    let top = after_reading(&path("/"), &everything, Ok(vec![item("etc", true)])).unwrap();
    assert_eq!(top.parent, None);
    assert_eq!(top.entries[0].path, "/etc");
    let below = after_reading(&path("/etc"), &everything, Ok(vec![])).unwrap();
    assert_eq!(below.parent.as_deref(), Some("/"));
}

#[test]
fn failures_to_read_are_reported() {
    assert_eq!(
        after_reading(&path("/a"), &vec![path("/a")], Err("denied".to_string())),
        Err(ListError::Internal("denied".to_string()))
    );
}

#[test]
fn the_calendar_has_the_bounds_of_the_time_crate() {
    assert_eq!(chrono::DateTime::<chrono::Utc>::MIN_UTC.timestamp(), FIRST_SECOND);
    assert_eq!(chrono::DateTime::<chrono::Utc>::MAX_UTC.timestamp(), LAST_SECOND);
    assert!(chrono::DateTime::from_timestamp(FIRST_SECOND, 999_999_999).is_some());
    assert!(chrono::DateTime::from_timestamp(LAST_SECOND, 999_999_999).is_some());
    let roots = vec![path("/")];
    for secs in [FIRST_SECOND, LAST_SECOND] {
        let mut old = item("f", false);
        old.meta = Some(ItemMeta { is_dir: false, len: 0, modified: Some((secs, 999_999_999)) });
        let answer = after_reading(&path("/"), &roots, Ok(vec![old])).unwrap();
        assert!(answer.entries[0].modified.is_some());
    }
}

#[test]
fn names_in_utf8_are_listed_as_they_are() {
    let roots = vec![path("/プロジェクト")];
    let dir = path("/プロジェクト/é");
    let answer = after_reading(&dir, &roots, Ok(vec![item("naïve.txt", false)])).unwrap();
    assert_eq!(answer.path, "/プロジェクト/é");
    assert_eq!(answer.parent.as_deref(), Some("/プロジェクト"));
    assert_eq!(answer.roots, vec!["/プロジェクト"]);
    assert_eq!(answer.entries[0].name, "naïve.txt");
    assert_eq!(answer.entries[0].path, "/プロジェクト/é/naïve.txt");
    match begin_listing("s1", true, &roots, None) {
        ListPlan::Answer(a) => assert_eq!(a.entries[0].name, "プロジェクト"),
        _ => panic!("the roots were not listed"),
    }
}
