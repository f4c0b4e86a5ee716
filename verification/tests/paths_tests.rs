use searchlight::paths::{extension, file_name, file_stem, has_extension};
use searchlight::text::{chars_of, contains, ends_with, matches_at};

fn some(s: &str) -> Option<String> {
    Some(s.to_string())
}

#[test]
fn file_name_is_the_last_component() {
    assert_eq!(file_name("C:\\Windows\\notepad.exe"), some("notepad.exe"));
    assert_eq!(file_name("C:/Windows/notepad.exe"), some("notepad.exe"));
    assert_eq!(file_name("C:\\Apps/mixed\\tool"), some("tool"));
    assert_eq!(file_name("plain.txt"), some("plain.txt"));
}

#[test]
fn file_name_needs_a_last_component() {
    assert_eq!(file_name(""), None);
    assert_eq!(file_name("\\"), None);
    assert_eq!(file_name("/"), None);
    assert_eq!(file_name("C:"), None);
    assert_eq!(file_name("C:\\"), None);
    assert_eq!(file_name("C:\\Windows\\.."), None);
    assert_eq!(file_name("."), None);
    assert_eq!(file_name(".."), None);
    assert_eq!(file_name("C:."), None);
    assert_eq!(file_name("..."), some("..."));
}

#[test]
fn file_name_skips_what_ends_the_path() {
    assert_eq!(file_name("C:\\Windows\\"), some("Windows"));
    assert_eq!(file_name("C:/Windows/"), some("Windows"));
    assert_eq!(file_name("C:\\Windows\\\\/"), some("Windows"));
    assert_eq!(file_name("C:\\Windows\\."), some("Windows"));
    assert_eq!(file_name("C:\\Windows\\.\\"), some("Windows"));
    assert_eq!(file_name("tool.exe\\"), some("tool.exe"));
    assert_eq!(file_name("C:\\a\\x."), some("x."));
}

#[test]
fn file_name_stands_behind_a_drive() {
    assert_eq!(file_name("C:tool.exe"), some("tool.exe"));
    assert_eq!(file_name("c:tool.exe\\"), some("tool.exe"));
    assert_eq!(file_name("C:.."), None);
    assert_eq!(file_name("1:tool.exe"), some("1:tool.exe"));
    assert_eq!(file_name("dir\\C:tool.exe"), some("C:tool.exe"));
    assert_eq!(extension("C:tool.exe"), some("exe"));
    assert_eq!(file_stem("C:tool.exe"), some("tool"));
}

#[test]
fn extension_follows_the_last_dot() {
    assert_eq!(extension("C:\\Windows\\notepad.exe"), some("exe"));
    assert_eq!(extension("C:\\a\\archive.tar.gz"), some("gz"));
    assert_eq!(extension("C:\\a\\Games.lnk"), some("lnk"));
    assert_eq!(extension("C:\\a\\trailing."), some(""));
    assert_eq!(extension("C:\\a.b\\noext"), None);
    assert_eq!(extension("C:\\a\\.hidden"), None);
    assert_eq!(extension("C:\\a\\.hidden.exe"), some("exe"));
    assert_eq!(extension("C:\\a\\"), None);
    assert_eq!(extension("C:\\a.b\\"), some("b"));
    assert_eq!(extension(""), None);
}

#[test]
fn file_stem_drops_the_extension() {
    assert_eq!(file_stem("C:\\Windows\\notepad.exe"), some("notepad"));
    assert_eq!(file_stem("C:\\a\\archive.tar.gz"), some("archive.tar"));
    assert_eq!(file_stem("C:\\a\\Visual Studio Code.lnk"), some("Visual Studio Code"));
    assert_eq!(file_stem("C:\\a\\noext"), some("noext"));
    assert_eq!(file_stem("C:/x/.hidden"), some(".hidden"));
    assert_eq!(file_stem("C:\\a\\trailing."), some("trailing"));
    assert_eq!(file_stem("C:\\a\\"), some("a"));
    assert_eq!(file_stem("C:\\"), None);
    assert_eq!(file_stem(".."), None);
}

#[test]
fn file_stem_counts_characters_not_bytes() {
    assert_eq!(file_stem("C:\\Программы\\Блокнот.exe"), some("Блокнот"));
    assert_eq!(extension("C:\\アプリ\\メモ帳.lnk"), some("lnk"));
    assert_eq!(file_name("C:\\アプリ\\メモ帳.lnk"), some("メモ帳.lnk"));
}

#[test]
fn has_extension_compares_letter_for_letter() {
    assert!(has_extension("C:\\a\\tool.exe", "exe"));
    assert!(!has_extension("C:\\a\\TOOL.EXE", "exe"));
    assert!(!has_extension("C:\\a\\tool.exe", "lnk"));
    assert!(!has_extension("C:\\a\\exe", "exe"));
    assert!(!has_extension("C:\\a\\.exe", "exe"));
    assert!(has_extension("C:\\a\\x.", ""));
}

#[test]
fn chars_of_lists_the_characters() {
    assert_eq!(chars_of("a\\é"), vec!['a', '\\', 'é']);
    assert_eq!(chars_of(""), Vec::<char>::new());
}

#[test]
fn contains_finds_a_substring_anywhere() {
    let hay = chars_of("c:\\programs\\tool.lnk");
    assert!(contains(&hay, &chars_of("\\programs\\")));
    assert!(contains(&hay, &chars_of("c:")));
    assert!(contains(&hay, &chars_of(".lnk")));
    assert!(contains(&hay, &chars_of("")));
    assert!(!contains(&hay, &chars_of("\\program files\\")));
    assert!(!contains(&chars_of("ab"), &chars_of("abc")));
    assert!(contains(&chars_of(""), &chars_of("")));
    assert!(contains(&chars_of("aab"), &chars_of("ab")));
}

#[test]
fn ends_with_looks_at_the_end_only() {
    let hay = chars_of("c:\\programs\\tool.lnk");
    assert!(ends_with(&hay, &chars_of(".lnk")));
    assert!(ends_with(&hay, &chars_of("")));
    assert!(!ends_with(&hay, &chars_of("tool")));
    assert!(!ends_with(&chars_of("nk"), &chars_of(".lnk")));
    assert!(matches_at(&hay, &chars_of("programs"), 3));
    assert!(!matches_at(&hay, &chars_of("programs"), 2));
}
