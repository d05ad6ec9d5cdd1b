use rtk::paths::{
    is_current_dir, joined_path, normalize_display_path, path_file_name, relative_path,
};
use rtk::prefix::PathStyle::{Unix, Windows};
use std::path::Path;

const TEXTS: [&str; 28] = [
    "", ".", "./", "..", "/", "//", "/.", "./.", "a", "a/", "a/.", "./a", "a/b", "a//b", "a/./b",
    "a/../b", "/a", "/a/b/", "a/b/..", "a/b/./", ".a", "a.", "a/.b", "..a", "a/...", "./a/b", "/./a",
    "a/b/c",
];

#[test]
fn file_names_agree_with_those_of_paths() {
    for t in TEXTS {
        let expected = Path::new(t).file_name().map(|n| n.to_string_lossy().into_owned());
        assert_eq!(path_file_name(t, Unix), expected, "{:?}", t);
    }
}

#[test]
fn relative_paths_agree_with_those_of_paths() {
    for t in TEXTS {
        for b in TEXTS {
            let expected = Path::new(t).strip_prefix(b).ok().map(|p| p.to_string_lossy().into_owned());
            assert_eq!(relative_path(t, b, Unix), expected, "{:?} from {:?}", t, b);
        }
    }
}

#[test]
fn joined_paths_agree_with_those_of_paths() {
    for t in TEXTS {
        for n in TEXTS {
            assert_eq!(joined_path(t, n, Unix), Path::new(t).join(n).to_string_lossy(), "{:?} {:?}", t, n);
        }
        assert_eq!(is_current_dir(t, Unix), Path::new(t) == Path::new("."), "{:?}", t);
    }
}

#[test]
fn files_are_found_from_their_directory() {
    for base in ["a", "a/", "/", "./x//", "..", "a/."] {
        let path = joined_path(base, "f.txt", Unix);
        assert_eq!(path_file_name(&path, Unix), Some("f.txt".to_string()));
        assert_eq!(relative_path(&path, base, Unix), Some("f.txt".to_string()));
    }
}

#[test]
fn shown_paths_hold_slashes() {
    assert_eq!(normalize_display_path("a\\b/c\\"), "a/b/c/");
}

fn name(path: &str) -> Option<String> {
    path_file_name(path, Windows)
}

fn relative(path: &str, base: &str) -> Option<String> {
    relative_path(path, base, Windows)
}

#[test]
fn drives_are_no_part_of_a_name() {
    let file = Some("file.txt".to_string());
    assert_eq!(name("C:file.txt"), file);
    assert_eq!(name("C:\\file.txt"), file);
    assert_eq!(name("c:/dir\\file.txt"), file);
    assert_eq!(name("dir\\file.txt"), file);
    assert_eq!(name("C:"), None);
    assert_eq!(name("C:\\"), None);
    assert_eq!(name("C:."), None);
    assert_eq!(name("C:.."), None);
    assert_eq!(name("1:file.txt"), Some("1:file.txt".to_string()));
    assert_eq!(path_file_name("C:file.txt", Unix), Some("C:file.txt".to_string()));
    assert_eq!(relative("C:file.txt", "C:"), file);
    assert_eq!(relative("C:file.txt", "c:"), file);
    assert_eq!(relative("C:\\file.txt", "C:"), Some("\\file.txt".to_string()));
    assert_eq!(relative("C:\\file.txt", "C:/"), file);
    assert_eq!(relative("C:\\a\\.\\b\\", "c:/a"), Some("b".to_string()));
    assert_eq!(relative("C:\\a", "D:\\"), None);
    assert_eq!(relative("C:.", "C:"), Some(".".to_string()));
}

#[test]
fn shares_and_devices_imply_a_root() {
    assert_eq!(name("\\\\server\\share"), None);
    assert_eq!(name("\\\\server\\share\\f"), Some("f".to_string()));
    assert_eq!(name("//server/share/f"), Some("f".to_string()));
    assert_eq!(name("\\\\server"), Some("server".to_string()));
    assert_eq!(name("\\\\.\\COM42"), None);
    assert_eq!(relative("\\\\server\\share\\f", "\\\\server\\share"), Some("f".to_string()));
    assert_eq!(relative("\\\\server\\share\\f", "\\\\server\\share\\"), Some("f".to_string()));
    assert_eq!(relative("\\\\server\\share", "\\\\server\\share\\"), Some(String::new()));
    assert_eq!(relative("\\\\server\\other\\f", "\\\\server\\share"), None);
}

#[test]
fn verbatim_paths_are_taken_literally() {
    assert_eq!(name("\\\\?\\C:\\dir\\f"), Some("f".to_string()));
    assert_eq!(name("\\\\?\\C:\\dir/f"), Some("dir/f".to_string()));
    assert_eq!(name("\\\\?\\C:\\dir\\."), None);
    assert_eq!(name("\\\\?\\pictures"), None);
    assert_eq!(name("\\\\?\\pictures\\kittens"), Some("kittens".to_string()));
    assert_eq!(name("\\\\?\\UNC\\server\\share"), None);
    assert_eq!(relative("\\\\?\\C:\\dir\\f", "\\\\?\\c:\\dir"), Some("f".to_string()));
    assert_eq!(relative("\\\\?\\C:\\dir\\f", "C:\\dir"), None);
    assert_eq!(relative("\\\\?\\C:\\f", "\\\\?\\C:"), Some("\\f".to_string()));
    assert_eq!(relative("//?/C:/f", "//?/C:"), Some("f".to_string()));
}

#[test]
fn paths_are_joined_on_windows() {
    let join = |base: &str, name: &str| joined_path(base, name, Windows);
    assert_eq!(join("C:", "f"), "C:f");
    assert_eq!(join("C:\\", "f"), "C:\\f");
    assert_eq!(join("C:\\a", "f"), "C:\\a\\f");
    assert_eq!(join("C:/a/", "b/f"), "C:/a/b/f");
    assert_eq!(join("", "f"), "f");
    assert_eq!(join("C:\\a", "\\f"), "C:\\f");
    assert_eq!(join("C:\\a", "D:f"), "D:f");
    assert_eq!(join("\\\\s\\h\\a", "/f"), "\\\\s\\h/f");
    assert_eq!(join("\\\\?\\C:", "f"), "\\\\?\\C:\\f");
    assert_eq!(join("\\\\?\\C:\\a\\", "./b/../c/f"), "\\\\?\\C:\\a\\c\\f");
    assert_eq!(join("\\\\?\\C:\\a", "/f"), "\\\\?\\C:\\f");
}

#[test]
fn the_directory_at_hand_is_known_on_windows() {
    assert!(is_current_dir(".", Windows));
    assert!(is_current_dir(".\\", Windows));
    assert!(!is_current_dir("C:.", Windows));
}
