use media_recommend::paths::{
    check_and_correct_extension, display_path, is_canonical, join_path, parent_dir, paths_equal,
    relativize, LibPath,
};

fn chars(s: &str) -> Vec<char> {
    s.chars().collect()
}

fn path(s: &str) -> LibPath {
    let absolute = s.starts_with('/');
    let components = s
        .split('/')
        .filter(|c| !c.is_empty())
        .map(|c| c.chars().collect())
        .collect();
    LibPath { absolute, components }
}

fn text(p: &LibPath) -> String {
    display_path(p).iter().collect()
}

#[test]
fn extension_added_when_missing() {
    let p = check_and_correct_extension(&path("/lib/out"), &chars("json"));
    assert_eq!(text(&p), "/lib/out.json");
}

#[test]
fn extension_replaced_when_wrong() {
    let p = check_and_correct_extension(&path("/lib/out.txt"), &chars("json"));
    assert_eq!(text(&p), "/lib/out.json");
}

#[test]
fn extension_kept_when_already_right() {
    let p = check_and_correct_extension(&path("/lib/out.json"), &chars("json"));
    assert_eq!(text(&p), "/lib/out.json");
}

#[test]
fn extension_only_last_dot_counts() {
    let p = check_and_correct_extension(&path("/lib/a.b.c"), &chars("m3u8"));
    assert_eq!(text(&p), "/lib/a.b.m3u8");
}

#[test]
fn extension_leading_dot_is_no_extension() {
    let p = check_and_correct_extension(&path("/lib/.config"), &chars("json"));
    assert_eq!(text(&p), "/lib/.config.json");
}

#[test]
fn extension_normalization_idempotent() {
    for case in ["/lib/out", "/lib/out.txt", "/lib/out.json", "/lib/.config", "/lib/a.b.c", "rel/x"]
    {
        let once = check_and_correct_extension(&path(case), &chars("json"));
        let twice = check_and_correct_extension(&once, &chars("json"));
        assert!(paths_equal(&once, &twice), "not idempotent on {}", case);
    }
}

#[test]
fn relativize_into_sibling_directory() {
    let rel = relativize(&path("/lib/music/song.mp3"), &path("/lib/playlists")).unwrap();
    assert_eq!(text(&rel), "../music/song.mp3");
}

#[test]
fn relativize_within_same_directory() {
    let rel = relativize(&path("/lib/a.mp3"), &path("/lib")).unwrap();
    assert_eq!(text(&rel), "a.mp3");
}

#[test]
fn relativize_across_the_root() {
    let rel = relativize(&path("/other/x.mp3"), &path("/lib/playlists")).unwrap();
    assert_eq!(text(&rel), "../../other/x.mp3");
}

#[test]
fn relativize_descendant() {
    let rel = relativize(&path("/lib/a/b/c.mp3"), &path("/lib")).unwrap();
    assert_eq!(text(&rel), "a/b/c.mp3");
}

#[test]
fn relativize_rejects_unrooted_paths() {
    assert!(relativize(&path("music/song.mp3"), &path("/lib")).is_none());
    assert!(relativize(&path("/lib/a.mp3"), &path("lib")).is_none());
}

#[test]
fn relativize_matches_pathdiff() {
    let cases = [
        ("/lib/music/song.mp3", "/lib/playlists"),
        ("/lib/a.mp3", "/lib"),
        ("/other/x.mp3", "/lib/playlists"),
        ("/a/b/c/d", "/a/x/y"),
    ];
    for (target, base) in cases {
        let rel = relativize(&path(target), &path(base)).unwrap();
        let expected = pathdiff::diff_paths(target, base).unwrap();
        assert_eq!(text(&rel), expected.to_str().unwrap(), "differs on {} vs {}", target, base);
    }
}

#[test]
fn relativize_round_trips() {
    let cases = [
        ("/lib/music/song.mp3", "/lib/playlists"),
        ("/other/x.mp3", "/lib/playlists"),
        ("/lib/a/b/c.mp3", "/lib"),
    ];
    for (target, base) in cases {
        let rel = relativize(&path(target), &path(base)).unwrap();
        let mut resolved: Vec<String> = path(base)
            .components
            .iter()
            .map(|c| c.iter().collect())
            .collect();
        for comp in &rel.components {
            let comp: String = comp.iter().collect();
            if comp == ".." {
                resolved.pop();
            } else {
                resolved.push(comp);
            }
        }
        let resolved = format!("/{}", resolved.join("/"));
        assert_eq!(resolved, target, "round trip failed from {}", base);
    }
}

#[test]
fn display_renders_paths() {
    assert_eq!(text(&path("/a/b/c")), "/a/b/c");
    assert_eq!(text(&path("a/b")), "a/b");
    assert_eq!(text(&path("/")), "/");
}

#[test]
fn join_appends_relative_and_takes_absolute() {
    let joined = join_path(&path("/lib"), &path("playlists/mix"));
    assert_eq!(text(&joined), "/lib/playlists/mix");
    let replaced = join_path(&path("/lib"), &path("/tmp/out"));
    assert_eq!(text(&replaced), "/tmp/out");
}

#[test]
fn parent_dir_drops_the_file() {
    assert_eq!(text(&parent_dir(&path("/lib/playlists/mix.m3u8"))), "/lib/playlists");
    assert_eq!(text(&parent_dir(&path("/"))), "/");
}

#[test]
fn canonical_paths_are_recognized() {
    assert!(is_canonical(&path("/lib/music")));
    assert!(!is_canonical(&path("lib/music")));
    assert!(!is_canonical(&path("/lib/../music")));
}
