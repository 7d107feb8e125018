use unreal_shimloader::clean::clean_path;
use unreal_shimloader::grammar::{parse, Component};
use unreal_shimloader::join::join_paths;
use unreal_shimloader::text::{text_keeps_separators, text_lowers_in_place, to_lowercase};

fn prefix(text: &str) -> Component {
    Component::Prefix(String::from(text))
}

fn normal(text: &str) -> Component {
    Component::Normal(String::from(text))
}

#[test]
fn drive_paths_fall_into_prefix_root_and_names() {
    assert_eq!(
        parse("C:\\Game\\Mods\\test.lua"),
        vec![prefix("C:"), Component::RootDir, normal("Game"), normal("Mods"), normal("test.lua")]
    );
    assert_eq!(parse("C:"), vec![prefix("C:")]);
    assert_eq!(parse("C:\\"), vec![prefix("C:"), Component::RootDir]);
    assert_eq!(parse("c:foo"), vec![prefix("c:"), normal("foo")]);
    assert_eq!(parse("C:.\\x"), vec![prefix("C:"), Component::CurDir, normal("x")]);
    assert_eq!(parse("C:..\\x"), vec![prefix("C:"), Component::ParentDir, normal("x")]);
}

#[test]
fn both_separators_split_and_repeats_vanish() {
    assert_eq!(
        parse("C:/Game//Mods\\/x"),
        vec![prefix("C:"), Component::RootDir, normal("Game"), normal("Mods"), normal("x")]
    );
    assert_eq!(parse("a\\b/"), vec![normal("a"), normal("b")]);
}

#[test]
fn dots_mean_here_and_up() {
    assert_eq!(parse("."), vec![Component::CurDir]);
    assert_eq!(parse(".\\a\\.\\b"), vec![Component::CurDir, normal("a"), normal("b")]);
    assert_eq!(parse("a\\.\\b\\."), vec![normal("a"), normal("b")]);
    assert_eq!(
        parse("..\\a\\..\\b"),
        vec![Component::ParentDir, normal("a"), Component::ParentDir, normal("b")]
    );
    assert_eq!(parse("\\.\\a"), vec![Component::RootDir, normal("a")]);
    assert_eq!(parse("..."), vec![normal("...")]);
    assert_eq!(parse(".a"), vec![normal(".a")]);
}

#[test]
fn empty_path_has_no_component() {
    assert_eq!(parse(""), Vec::<Component>::new());
    assert_eq!(parse("\\"), vec![Component::RootDir]);
    assert_eq!(parse("\\\\"), vec![Component::RootDir]);
}

#[test]
fn network_paths_have_server_and_share_as_prefix() {
    assert_eq!(
        parse("\\\\server\\share\\file.txt"),
        vec![prefix("\\\\server\\share"), Component::RootDir, normal("file.txt")]
    );
    assert_eq!(parse("\\\\server\\share"), vec![prefix("\\\\server\\share"), Component::RootDir]);
    assert_eq!(
        parse("//server/share/x"),
        vec![prefix("\\\\server\\share"), Component::RootDir, normal("x")]
    );
    assert_eq!(
        parse("\\\\server/share"),
        vec![prefix("\\\\server\\share"), Component::RootDir]
    );
    assert_eq!(parse("\\\\server"), vec![Component::RootDir, normal("server")]);
    assert_eq!(parse("\\\\server\\"), vec![Component::RootDir, normal("server")]);
}

#[test]
fn device_and_verbatim_paths_have_their_name_as_prefix() {
    assert_eq!(
        parse("\\\\.\\C:\\Game"),
        vec![prefix("\\\\.\\C:"), Component::RootDir, normal("Game")]
    );
    assert_eq!(
        parse("\\\\?\\C:\\Game\\Mods"),
        vec![prefix("\\\\?\\C:"), Component::RootDir, normal("Game"), normal("Mods")]
    );
    assert_eq!(
        parse("\\\\?\\UNC\\server\\share\\x"),
        vec![prefix("\\\\?\\UNC\\server\\share"), Component::RootDir, normal("x")]
    );
    assert_eq!(
        parse("\\\\?\\unc\\server\\share\\x"),
        vec![prefix("\\\\?\\unc\\server\\share"), Component::RootDir, normal("x")]
    );
    assert_eq!(parse("\\\\?\\pipe"), vec![prefix("\\\\?\\pipe"), Component::RootDir]);
    assert_eq!(parse("//./C:/x"), vec![prefix("\\\\.\\C:"), Component::RootDir, normal("x")]);
    assert_eq!(
        parse("\\\\?\\UNC\\server/share\\x"),
        vec![prefix("\\\\?\\UNC\\server/share"), Component::RootDir, normal("x")]
    );
}

#[test]
fn cleaning_drops_dots_and_resolves_parents() {
    assert_eq!(clean_path("C:\\Game\\..\\Game\\Mods\\.\\test.lua"), "C:\\Game\\Mods\\test.lua");
    assert_eq!(clean_path("a\\b\\..\\..\\c"), "c");
    assert_eq!(clean_path("a/b/c"), "a\\b\\c");
    assert_eq!(clean_path(".\\a"), "a");
    assert_eq!(clean_path("a\\.."), ".");
    assert_eq!(clean_path(""), ".");
    assert_eq!(clean_path("."), ".");
    assert_eq!(clean_path("C:\\"), "C:\\");
    assert_eq!(clean_path("C:"), "C:");
    assert_eq!(clean_path("C:foo\\..\\bar"), "C:bar");
    assert_eq!(clean_path("//server/share/a/../b"), "\\\\server\\share\\b");
}

#[test]
fn parents_that_cannot_be_resolved_are_kept() {
    assert_eq!(clean_path("..\\..\\a"), "..\\..\\a");
    assert_eq!(clean_path("a\\..\\..\\b"), "..\\b");
    assert_eq!(clean_path("C:\\..\\a"), "C:\\..\\a");
    assert_eq!(clean_path("\\.."), "\\..");
    assert_eq!(clean_path("C:..\\a"), "C:..\\a");
    assert_eq!(clean_path("\\\\server\\share\\..\\a"), "\\\\server\\share\\..\\a");
}

#[test]
fn joining_appends_replaces_or_keeps_the_prefix() {
    assert_eq!(join_paths("D:\\MyMods", "test.lua"), "D:\\MyMods\\test.lua");
    assert_eq!(join_paths("D:\\MyMods\\", "test.lua"), "D:\\MyMods\\test.lua");
    assert_eq!(join_paths("D:\\MyMods", "a\\b"), "D:\\MyMods\\a\\b");
    assert_eq!(join_paths("D:\\MyMods", ""), "D:\\MyMods\\");
    assert_eq!(join_paths("D:", "x"), "D:x");
    assert_eq!(join_paths("", "x"), "x");
    assert_eq!(join_paths("D:\\MyMods", "E:\\x"), "E:\\x");
    assert_eq!(join_paths("D:\\MyMods", "\\\\server\\share"), "\\\\server\\share");
    assert_eq!(join_paths("D:\\MyMods", "\\x"), "D:\\x");
    assert_eq!(join_paths("\\\\server\\share\\a", "\\x"), "\\\\server\\share\\x");
    assert_eq!(join_paths("a\\b", "\\x"), "\\x");
    assert_eq!(join_paths("D:\\MyMods", ".."), "D:\\MyMods\\..");
}

#[test]
fn lowering_folds_ascii_and_asks_the_unicode_tables() {
    assert_eq!(to_lowercase("C:\\Game\\MODS"), "c:\\game\\mods");
    assert_eq!(to_lowercase("AZ[@`{az09"), "az[@`{az09");
    assert_eq!(to_lowercase("\u{C9}T\u{C9}"), "\u{E9}t\u{E9}");
    assert_eq!(to_lowercase("\u{130}"), "i\u{307}");
    assert_eq!(to_lowercase("\u{212A}"), "k");
    assert_eq!(to_lowercase("\u{3A3}"), "\u{3C3}");
    assert_eq!(to_lowercase(""), "");
}

#[test]
fn most_texts_lower_in_place() {
    assert!(text_lowers_in_place(""));
    assert!(text_lowers_in_place("C:\\Game\\MODS"));
    assert!(text_lowers_in_place("\u{C9}t\u{E9}\u{3A3}"));
    assert!(!text_lowers_in_place("a\u{130}"));
    assert!(!text_lowers_in_place("\u{212A}:\\x"));
}

#[test]
fn lowering_writes_no_separator() {
    assert!(text_keeps_separators(""));
    assert!(text_keeps_separators("C:\\Game/MODS"));
    assert!(text_keeps_separators("\u{130}\u{212A}\u{C9}\u{3A3}\u{1E9E}"));
}
