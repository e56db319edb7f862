use project_tree::entry::Entry;
use project_tree::output::{join_lines, with_root_name};
use project_tree::path::{canonicalize_relative, CanonicalPath};
use project_tree::tree::{ProjectTree, TraversalError};

fn s(x: &str) -> String {
    x.to_string()
}

fn strings(xs: &[&str]) -> Vec<String> {
    xs.iter().map(|x| x.to_string()).collect()
}

/// `root/` holding `a.txt`, `b/` (with the given children) and `.git/`.
fn sample(b_children: Vec<Entry>) -> Entry {
    Entry::dir(
        s("root"),
        vec![
            Entry::file(s("a.txt")),
            Entry::dir(s("b"), b_children),
            Entry::dir(s(".git"), vec![Entry::file(s("HEAD"))]),
        ],
    )
}

fn defaults(ignore: &[&str], stop: &[&str], dirs: bool) -> ProjectTree {
    ProjectTree::from_options(&strings(ignore), &strings(stop), false, false, false, dirs)
}

fn render(cfg: &ProjectTree, root: &Entry, show: bool) -> Vec<String> {
    match cfg.scan_folder(&CanonicalPath::root(), root, String::new(), show) {
        Ok(lines) => lines,
        Err(TraversalError::Unreadable(p)) => panic!("unreadable {:?}", p.parts),
    }
}

#[test]
fn default_filters_hide_git() {
    let cfg = defaults(&[], &[], false);
    assert_eq!(render(&cfg, &sample(vec![]), true), strings(&["├── a.txt", "└── b/"]));
}

#[test]
fn top_level_without_line_drawing() {
    let cfg = defaults(&[], &[], false);
    assert_eq!(render(&cfg, &sample(vec![]), false), strings(&["a.txt", "b/"]));
}

#[test]
fn ignored_sibling_does_not_count_for_last() {
    let cfg = defaults(&["a.txt"], &[], false);
    assert_eq!(render(&cfg, &sample(vec![]), true), strings(&["└── b/"]));
}

#[test]
fn ignore_written_with_dot_slash() {
    let cfg = defaults(&["./a.txt"], &[], false);
    assert_eq!(render(&cfg, &sample(vec![]), true), strings(&["└── b/"]));
}

#[test]
fn stop_hides_contents() {
    let cfg = defaults(&[], &["b"], false);
    let root = sample(vec![Entry::file(s("c.txt"))]);
    assert_eq!(render(&cfg, &root, true), strings(&["├── a.txt", "└── b/"]));
}

#[test]
fn contents_listed_without_stop() {
    let cfg = defaults(&[], &[], false);
    let root = sample(vec![Entry::file(s("c.txt"))]);
    assert_eq!(render(&cfg, &root, true), strings(&["├── a.txt", "└── b/", "    └── c.txt"]));
}

#[test]
fn root_name_header() {
    let cfg = defaults(&[], &[], false);
    let root = Entry::dir(s("proj"), vec![Entry::file(s("a.txt")), Entry::dir(s("b"), vec![])]);
    let tree = join_lines(&render(&cfg, &root, true));
    assert_eq!(with_root_name(&s("proj"), &tree), "proj\n├── a.txt\n└── b/");
}

#[test]
fn rendering_twice_is_identical() {
    let cfg = defaults(&[], &[], true);
    let root = sample(vec![Entry::file(s("c.txt")), Entry::dir(s("d"), vec![])]);
    let first = join_lines(&render(&cfg, &root, true));
    let second = join_lines(&render(&cfg, &root, true));
    assert_eq!(first, second);
}

#[test]
fn ignored_nested_path_and_descendants_absent() {
    let cfg = defaults(&["b/d"], &[], false);
    let root = sample(vec![
        Entry::dir(s("d"), vec![Entry::file(s("deep.txt"))]),
        Entry::file(s("c.txt")),
    ]);
    assert_eq!(render(&cfg, &root, true), strings(&["├── a.txt", "└── b/", "    └── c.txt"]));
}

#[test]
fn nested_prefixes_follow_ancestors() {
    let cfg = defaults(&[], &[], false);
    let root = Entry::dir(
        s("root"),
        vec![
            Entry::dir(s("src"), vec![Entry::file(s("lib.rs")), Entry::dir(s("util"), vec![Entry::file(s("x.rs"))])]),
            Entry::file(s("Cargo.toml")),
        ],
    );
    assert_eq!(
        render(&cfg, &root, true),
        strings(&["├── src/", "│   ├── lib.rs", "│   └── util/", "│       └── x.rs", "└── Cargo.toml"])
    );
}

#[test]
fn directories_first_when_prioritized() {
    let root = Entry::dir(
        s("root"),
        vec![
            Entry::file(s("x")),
            Entry::dir(s("y"), vec![]),
            Entry::file(s("z")),
            Entry::dir(s("w"), vec![]),
        ],
    );
    let cfg = defaults(&[], &[], true);
    assert_eq!(render(&cfg, &root, true), strings(&["├── y/", "├── w/", "├── x", "└── z"]));
    let cfg = defaults(&[], &[], false);
    assert_eq!(render(&cfg, &root, true), strings(&["├── x", "├── y/", "├── z", "└── w/"]));
}

#[test]
fn node_modules_stopped_by_default() {
    let root = Entry::dir(
        s("root"),
        vec![Entry::dir(s("node_modules"), vec![Entry::file(s("pkg"))]), Entry::file(s("index.js"))],
    );
    let cfg = defaults(&[], &[], false);
    assert_eq!(render(&cfg, &root, true), strings(&["├── node_modules/", "└── index.js"]));
    let cfg = ProjectTree::from_options(&vec![], &vec![], true, false, false, false);
    assert_eq!(render(&cfg, &root, true), strings(&["├── node_modules/", "│   └── pkg", "└── index.js"]));
}

#[test]
fn shown_when_defaults_turned_off() {
    let root = Entry::dir(s("root"), vec![Entry::dir(s(".git"), vec![]), Entry::dir(s(".vscode"), vec![])]);
    let cfg = ProjectTree::from_options(&vec![], &vec![], false, true, true, false);
    assert_eq!(render(&cfg, &root, true), strings(&["├── .git/", "└── .vscode/"]));
    let cfg = ProjectTree::from_options(&vec![], &vec![], false, true, false, false);
    assert_eq!(render(&cfg, &root, true), strings(&["└── .git/"]));
}

#[test]
fn empty_directory_renders_nothing() {
    let cfg = defaults(&[], &[], false);
    assert_eq!(render(&cfg, &Entry::dir(s("root"), vec![]), true), Vec::<String>::new());
}

#[test]
fn all_children_ignored_behaves_as_empty() {
    let cfg = defaults(&["a.txt", "b"], &[], false);
    let root = sample(vec![Entry::file(s("c.txt"))]);
    assert_eq!(render(&cfg, &root, true), Vec::<String>::new());
}

#[test]
fn placeholder_name_is_rendered() {
    let cfg = defaults(&[], &[], false);
    let root = Entry::dir(s("root"), vec![Entry::file(s("")), Entry::file(s("k"))]);
    assert_eq!(render(&cfg, &root, true), strings(&["├── ", "└── k"]));
}

#[test]
fn unreadable_root_fails() {
    let cfg = defaults(&[], &[], false);
    match cfg.scan_folder(&CanonicalPath::root(), &Entry::unreadable_dir(s("root")), String::new(), true) {
        Err(TraversalError::Unreadable(p)) => assert!(p.parts.is_empty()),
        Ok(_) => panic!("expected a failure"),
    }
}

#[test]
fn unreadable_subdirectory_aborts() {
    let cfg = defaults(&[], &[], false);
    let root = Entry::dir(s("root"), vec![Entry::file(s("a")), Entry::unreadable_dir(s("locked")), Entry::file(s("z"))]);
    match cfg.scan_folder(&CanonicalPath::root(), &root, String::new(), true) {
        Err(TraversalError::Unreadable(p)) => assert_eq!(p.parts, strings(&["locked"])),
        Ok(_) => panic!("expected a failure"),
    }
}

#[test]
fn unreadable_but_stopped_directory_is_fine() {
    let cfg = defaults(&[], &["locked"], false);
    let root = Entry::dir(s("root"), vec![Entry::unreadable_dir(s("locked"))]);
    assert_eq!(render(&cfg, &root, true), strings(&["└── locked/"]));
}

#[test]
fn canonical_forms_agree() {
    for written in ["a/b", "./a/b", "a/b/", "./a//./b", "a/./b"] {
        assert_eq!(canonicalize_relative(written).parts, strings(&["a", "b"]), "{}", written);
    }
    assert!(canonicalize_relative("./").parts.is_empty());
    assert!(canonicalize_relative(".").parts.is_empty());
    assert!(canonicalize_relative("").parts.is_empty());
    assert_eq!(canonicalize_relative("../x").parts, strings(&["..", "x"]));
}

#[test]
fn path_equality_and_membership() {
    let a = canonicalize_relative("./src/lib.rs");
    let b = CanonicalPath::root().child(&s("src")).child(&s("lib.rs"));
    assert!(a.same_as(&b));
    assert!(!a.same_as(&CanonicalPath::root().child(&s("src"))));
    let cfg = defaults(&["src/lib.rs"], &["target"], false);
    assert!(cfg.is_ignored(&b));
    assert!(cfg.is_ignored(&CanonicalPath::root().child(&s(".git"))));
    assert!(!cfg.is_ignored(&CanonicalPath::root().child(&s("src"))));
    assert!(cfg.is_stopped(&canonicalize_relative("target")));
    assert!(cfg.is_stopped(&canonicalize_relative("node_modules")));
}

#[test]
fn descends_only_into_plain_directories() {
    let cfg = defaults(&["skip"], &["leaf"], false);
    let root = CanonicalPath::root();
    assert!(cfg.descends_into(&root, &s("src"), true));
    assert!(!cfg.descends_into(&root, &s("src"), false));
    assert!(!cfg.descends_into(&root, &s("skip"), true));
    assert!(!cfg.descends_into(&root, &s("leaf"), true));
    assert!(cfg.descends_into(&root.child(&s("x")), &s("leaf"), true));
}

#[test]
fn visible_order_indices() {
    let kids = vec![Entry::file(s("f")), Entry::dir(s(".git"), vec![]), Entry::dir(s("d"), vec![]), Entry::file(s("g"))];
    let root = CanonicalPath::root();
    assert_eq!(defaults(&[], &[], false).visible_order(&root, &kids), vec![0, 2, 3]);
    assert_eq!(defaults(&[], &[], true).visible_order(&root, &kids), vec![2, 0, 3]);
}

#[test]
fn joining_lines() {
    assert_eq!(join_lines(&vec![]), "");
    assert_eq!(join_lines(&strings(&["x"])), "x");
    assert_eq!(join_lines(&strings(&["x", "y", "z"])), "x\ny\nz");
    assert_eq!(with_root_name(&s("proj"), &s("")), "proj\n");
}

#[test]
fn new_keeps_configuration() {
    let cfg = ProjectTree::new(vec![canonicalize_relative("a")], vec![], true);
    assert!(cfg.prioritize_dirs);
    assert_eq!(cfg.ignore_list.len(), 1);
    assert!(cfg.stop_list.is_empty());
}
