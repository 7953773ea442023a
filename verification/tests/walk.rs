//! Paths, the census of a scan, churn, override globs, and plain text.

use trail::overrides::{build_failure, build_overrides};
use trail::text::{before, blank, decimal, same};
use trail::walk::{apply_churn, rel_path};
use trail::{normalize_rel, scan, Config, Error, FileEntry, FolderStat};

fn file(folder: &str, size: i64) -> FileEntry {
    FileEntry { folder: folder.to_string(), size }
}

fn none() -> Vec<String> {
    Vec::new()
}

fn names(dirs: &[&str]) -> Vec<String> {
    dirs.iter().map(|d| d.to_string()).collect()
}

#[test]
fn scans_folders_and_counts_files() {
    let files = vec![
        file("src", "fn a() {}".len() as i64),
        file("src", "fn b() {}".len() as i64),
        file("docs", "hi".len() as i64),
        file(".", "x".len() as i64),
    ];
    let out = scan(&files, &names(&[".", "src", "docs"]), &none(), &Config::default());
    let paths: Vec<_> = out.folders.iter().map(|f| f.path.as_str()).collect();
    assert!(paths.contains(&"src"));
    assert!(paths.contains(&"docs"));
    assert!(paths.contains(&".")); // top.txt lives at the root
    assert_eq!(paths, [".", "docs", "src"]);

    let src = out.folders.iter().find(|f| f.path == "src").unwrap();
    assert_eq!(src.file_count, 2);
    assert!(src.size_bytes > 0);
    assert_eq!(src.size_bytes, 18);
    assert_eq!(out.excluded, 0);
}

#[test]
fn min_files_filters_thin_folders() {
    let files = vec![file("thin", 1), file("fat", 1), file("fat", 1)];
    let mut cfg = Config::default();
    cfg.scan.min_files = 2;
    let out = scan(&files, &names(&[".", "thin", "fat"]), &none(), &cfg);
    let paths: Vec<_> = out.folders.iter().map(|f| f.path.as_str()).collect();
    assert!(paths.contains(&"fat"));
    assert!(!paths.contains(&"thin"));
    assert!(out.excluded >= 1);
    // The thin folder, and the root, which directly holds no file at all.
    assert_eq!(out.excluded, 2);
}

#[test]
fn directories_without_files_are_excluded() {
    // src/api/a.rs: the root and src are met on the way and hold no file.
    let dirs = names(&[".", "src", "src/api", "src"]);
    let out = scan(&vec![file("src/api", 1)], &dirs, &none(), &Config::default());
    let paths: Vec<_> = out.folders.iter().map(|f| f.path.as_str()).collect();
    assert_eq!(paths, ["src/api"]);
    assert_eq!(out.excluded, 2);
    // Where no file is asked for nothing is excluded, and a folder still holds files.
    let mut cfg = Config::default();
    cfg.scan.min_files = 0;
    let out = scan(&vec![file("src/api", 1)], &dirs, &none(), &cfg);
    assert_eq!((out.folders.len(), out.excluded), (1, 0));
    // Nor is one that the walk did not name but whose file it found.
    let out = scan(&vec![file("x", 1)], &none(), &none(), &Config::default());
    assert_eq!((out.folders.len(), out.excluded), (1, 0));
}

#[test]
fn scan_sorts_by_bytes_and_counts_churn() {
    let files = vec![file("b", 1), file("a/z", 2), file("\u{e9}", 3), file("B", 4), file("a", 5)];
    let touched: Vec<String> =
        ["a", "gone", "b", "a", "a"].iter().map(|s| s.to_string()).collect();
    let out = scan(&files, &none(), &touched, &Config::default());
    let rows: Vec<_> = out.folders.iter().map(|f| (f.path.as_str(), f.size_bytes, f.churn)).collect();
    assert_eq!(rows, [("B", 4, 0), ("a", 5, 3), ("a/z", 2, 0), ("b", 1, 1), ("\u{e9}", 3, 0)]);
}

#[test]
fn churn_without_changes_is_kept() {
    let mut folders = vec![
        FolderStat { path: "a".into(), file_count: 1, size_bytes: 1, churn: 9 },
        FolderStat { path: "b".into(), file_count: 1, size_bytes: 1, churn: 9 },
    ];
    apply_churn(&mut folders, &vec!["b".to_string()]);
    assert_eq!((folders[0].churn, folders[1].churn), (9, 1));
}

#[test]
fn normalize_rel_forms() {
    for (given, stored) in [
        ("", "."),
        (".", "."),
        ("./", "."),
        ("/", "."),
        ("///", "."),
        ("a", "a"),
        ("./a", "a"),
        (".\\a\\b\\", "a/b"),
        ("a/b//", "a/b"),
        ("../a", "../a"),
        (".hidden", ".hidden"),
        ("./\u{e9}\\\u{1f980}/", "\u{e9}/\u{1f980}"),
        // However many prefixes there are.
        ("././a", "a"),
        (".\\./.\\a", "a"),
        ("././", "."),
        (".//a", "/a"),
    ] {
        assert_eq!(normalize_rel(given), stored, "{given}");
    }
}

#[test]
fn spellings_of_a_folder_agree() {
    for p in ["", ".", "src", "src/api", "a\\b", "\u{e9}/x"] {
        let stored = normalize_rel(p);
        assert_eq!(normalize_rel(&p.replace('\\', "/")), stored);
        assert_eq!(normalize_rel(&format!("{p}/")), stored);
        assert_eq!(normalize_rel(&format!("./{p}")), stored);
        assert_eq!(normalize_rel(&format!("././{p}")), stored);
        assert!(!stored.starts_with("./"));
        assert_eq!(normalize_rel(&stored), stored);
    }
}

#[test]
fn rel_path_forms() {
    assert_eq!(rel_path(Some(""), "/repo"), ".");
    assert_eq!(rel_path(Some("src\\api"), "/repo/src/api"), "src/api");
    assert_eq!(rel_path(None, "C:\\else\\where"), "C:/else/where");
    assert_eq!(rel_path(None, ""), "");
}

#[test]
fn configured_excludes_are_ignored() {
    let mut cfg = Config::default();
    cfg.scan.exclude = vec!["**/migrations/**".to_string()];
    let o = build_overrides("/repo", &cfg).unwrap();
    assert_eq!(o.num_ignores(), 1);
    assert_eq!(o.num_whitelists(), 0);
    assert!(o.matched("/repo/migrations/0001.sql", false).is_ignore());
    assert!(!o.matched("/repo/kept/keep.rs", false).is_ignore());
}

#[test]
fn configured_includes_narrow_the_walk() {
    let mut cfg = Config::default();
    cfg.scan.includes = vec!["*.rs".to_string(), "# not a glob".to_string(), "  ".to_string()];
    let o = build_overrides("/repo", &cfg).unwrap();
    assert_eq!(o.num_whitelists(), 1);
    assert_eq!(o.path(), std::path::Path::new("/repo"));
    assert!(o.matched("/repo/a.rs", false).is_whitelist());
    assert!(o.matched("/repo/a.sql", false).is_ignore());
}

#[test]
fn the_catch_all_narrows_nothing() {
    let o = build_overrides("/repo", &Config::default()).unwrap();
    assert!(o.is_empty());
    assert!(o.matched("/repo/anything", false).is_none());
}

#[test]
fn bad_globs_are_named() {
    let mut cfg = Config::default();
    cfg.scan.exclude = vec!["ok".to_string(), "[z".to_string(), "{".to_string()];
    match build_overrides("/repo", &cfg) {
        Err(Error::Walk(m)) => {
            assert!(m.starts_with("bad exclude glob \"[z\": error parsing glob '![z': "), "{m}");
        }
        other => panic!("expected a refusal, got {other:?}"),
    }
    cfg.scan.includes = vec!["a/[\"".to_string()];
    match build_overrides("/repo", &cfg) {
        Err(Error::Walk(m)) => {
            assert!(m.starts_with("bad include glob \"a/[\\\"\": error parsing glob 'a/[\"': "), "{m}");
        }
        other => panic!("expected a refusal, got {other:?}"),
    }
    match build_failure("too big") {
        Error::Walk(m) => assert_eq!(m, "override build: too big"),
        other => panic!("expected a walk error, got {other:?}"),
    }
}

#[test]
fn deep_braces_are_refused() {
    let nested = |n: usize| format!("{}a{}", "{".repeat(n), "}".repeat(n));
    let refusal = |glob: String| {
        let mut cfg = Config::default();
        cfg.scan.exclude = vec![glob];
        match build_overrides("/repo", &cfg) {
            Err(Error::Walk(m)) => Some(m),
            Err(other) => panic!("expected a walk error, got {other:?}"),
            Ok(_) => None,
        }
    };
    assert_eq!(refusal(nested(40)), None);
    for glob in [nested(251), nested(1_000_000), "{".repeat(1_000_000)] {
        let m = refusal(glob).unwrap();
        assert!(m.starts_with("bad exclude glob \"{{{"), "{}", &m[..40]);
        assert!(m.ends_with("\": braces are nested too deeply"), "{}", &m[m.len() - 40..]);
    }
    // Side by side they may be many; where one may be guarded all of them count.
    assert_eq!(refusal("{a,b}".repeat(300)), None);
    assert!(refusal("[{]".repeat(251)).unwrap().ends_with("nested too deeply"));
    assert_eq!(refusal("[{]".repeat(250)), None);
    assert_eq!(refusal("\\{".repeat(250)), None);
    // Braces that are not closed are refused as such.
    assert!(refusal("{".repeat(250)).unwrap().contains("unclosed alternate group"));
}

#[test]
fn a_backslash_behind_two_stars_is_up_to_the_platform() {
    let mut cfg = Config::default();
    cfg.scan.exclude = vec!["**\\".to_string()];
    match build_overrides("/repo", &cfg) {
        Ok(o) => assert_eq!(o.num_ignores(), 1),
        Err(Error::Walk(m)) => assert!(m.starts_with("bad exclude glob \"**\\\\\": "), "{m}"),
        Err(other) => panic!("expected a walk error, got {other:?}"),
    }
}

#[test]
fn too_many_globs_are_refused() {
    let mut cfg = Config::default();
    cfg.scan.exclude = vec!["**/a/b".to_string(); 9_000];
    assert_eq!(build_overrides("/repo", &cfg).unwrap().num_ignores(), 9_000);
    cfg.scan.exclude = vec!["**/a/b".to_string(); 12_000];
    match build_overrides("/repo", &cfg) {
        Err(Error::Walk(m)) => assert_eq!(m, "override build: too many globs"),
        other => panic!("expected a refusal, got {other:?}"),
    }
}

#[test]
fn blank_is_what_trimming_empties() {
    for c in '\0'..=char::MAX {
        let mut s = String::new();
        s.push(c);
        assert_eq!(blank(&s), s.trim().is_empty(), "{:?}", c);
    }
    assert!(blank(""));
    assert!(!blank(" x "));
}

#[test]
fn texts_compare_by_bytes() {
    let ts = ["", "a", "a/b", "aa", "b", "\u{e9}", "\u{1f980}", "B", "ab"];
    for x in ts {
        for y in ts {
            assert_eq!(same(x, y), x == y);
            assert_eq!(before(x, y), x < y, "{x} {y}");
        }
    }
}

#[test]
fn decimals() {
    for n in [0, 1, 9, 10, 907, -1, -10, i64::MAX, i64::MIN] {
        assert_eq!(decimal(n), n.to_string());
    }
}
