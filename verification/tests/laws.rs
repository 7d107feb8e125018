use unreal_shimloader::grammar::{parse, Component};
use unreal_shimloader::{remap_path, splice_path, NormalizedPath, PathMapping, PathRegistry};

fn normal(text: &str) -> Component {
    Component::Normal(String::from(text))
}

#[test]
fn splice_is_defined_exactly_under_the_source() {
    let source = NormalizedPath::new("C:\\Game\\Mods");
    let target = NormalizedPath::new("D:\\MyMods");
    let cases = [
        "C:\\Game\\Mods",
        "C:\\Game\\Mods\\a",
        "c:/game/mods/a/b",
        "C:\\Game",
        "C:\\Game\\ModsBackup",
        "C:\\Game\\Mod",
        "D:\\Game\\Mods\\a",
        "Game\\Mods\\a",
        "",
    ];
    for case in cases {
        let path = NormalizedPath::new(case);
        let spliced = splice_path(&path, &source, &target);
        assert_eq!(spliced.is_some(), path.starts_with(&source), "{}", case);
        if let Some(result) = spliced {
            assert!(NormalizedPath::new(&result).starts_with(&target), "{}", case);
        }
    }
}

#[test]
fn spliced_path_keeps_what_followed_the_source() {
    let path = NormalizedPath::new("C:\\Game\\Mods\\Sub\\..\\Dir\\File.LUA");
    let source = NormalizedPath::new("c:\\game\\MODS");
    let target = NormalizedPath::new("D:\\My Mods");
    let result = splice_path(&path, &source, &target).unwrap();
    assert_eq!(result, "D:\\My Mods\\dir\\file.lua");
    let parts = parse(&result);
    let target_parts = parse(target.original());
    assert_eq!(&parts[..target_parts.len()], &target_parts[..]);
    assert_eq!(&parts[target_parts.len()..], &[normal("dir"), normal("file.lua")][..]);
    assert_eq!(&path.components()[source.component_count()..], &parts[target_parts.len()..]);
}

#[test]
fn a_root_after_the_source_leaves_only_the_prefix_of_the_target() {
    let path = NormalizedPath::new("C:\\x");
    let source = NormalizedPath::new("C:");
    let target = NormalizedPath::new("D:\\mods");
    assert_eq!(path.strip_prefix(&source), Some(String::from("\\x")));
    assert_eq!(splice_path(&path, &source, &target), Some(String::from("D:\\x")));
}

#[test]
fn case_does_not_change_the_compared_form() {
    let lower = NormalizedPath::new("c:\\game\\..\\game\\mods\\\u{E9}t\u{E9}.lua");
    let upper = NormalizedPath::new("C:\\GAME\\..\\Game\\MODS\\\u{C9}T\u{C9}.LUA");
    assert_eq!(lower, upper);
    assert_eq!(lower.inner(), upper.inner());
    assert_eq!(upper.inner(), "c:\\game\\mods\\\u{E9}t\u{E9}.lua");
    assert_eq!(upper.original(), "C:\\Game\\MODS\\\u{C9}T\u{C9}.LUA");
    let unc_a = NormalizedPath::new("\\\\?\\UNC\\Server\\Share\\A");
    let unc_b = NormalizedPath::new("\\\\?\\unc\\server\\share\\a");
    assert_eq!(unc_a, unc_b);
}

#[test]
fn normal_form_has_no_more_components_than_the_path() {
    for case in ["a\\b\\c", ".\\a\\.\\b", ".", "a\\.", "A/B/./C/.", "name"] {
        let before = parse(case).len();
        let after = NormalizedPath::new(case).component_count();
        assert!(after <= before, "{}: {} > {}", case, after, before);
    }
    assert_eq!(NormalizedPath::new(".\\a\\.\\b").component_count(), 2);
    assert_eq!(parse(".\\a\\.\\b").len(), 3);
    assert_eq!(parse("").len(), 0);
    assert_eq!(NormalizedPath::new("").component_count(), 1);
}

#[test]
fn path_under_no_source_is_not_remapped() {
    let mut registry = PathRegistry::new();
    registry.register("C:\\Game\\Mods", "D:\\MyMods");
    registry.register("C:\\Game\\Config", "D:\\MyCfg");
    for case in ["C:\\Game", "C:\\Game\\Content\\x", "D:\\MyMods\\x", "C:\\Game\\ModsBackup\\x"] {
        let path = NormalizedPath::new(case);
        assert!(!registry.would_remap(&path));
        assert_eq!(registry.try_remap(&path), None);
    }
    assert!(registry.would_remap(&NormalizedPath::new("C:\\Game\\Config\\app.ini")));
}

#[test]
fn the_source_registered_first_wins() {
    let mut nested_first = PathRegistry::new();
    nested_first.register("C:\\Game\\Mods\\Special", "D:\\Special");
    nested_first.register("C:\\Game\\Mods", "D:\\Mods");
    let special = NormalizedPath::new("C:\\Game\\Mods\\Special\\x");
    let other = NormalizedPath::new("C:\\Game\\Mods\\Other\\x");
    assert_eq!(nested_first.try_remap(&special), Some(String::from("D:\\Special\\x")));
    let remapped = nested_first.try_remap(&other).unwrap();
    assert_eq!(remapped, "D:\\Mods\\other\\x");
    assert!(remapped.eq_ignore_ascii_case("D:\\Mods\\Other\\x"));

    let mut outer_first = PathRegistry::new();
    outer_first.register("C:\\Game\\Mods", "D:\\Mods");
    outer_first.register("C:\\Game\\Mods\\Special", "D:\\Special");
    assert_eq!(outer_first.try_remap(&special), Some(String::from("D:\\Mods\\special\\x")));
}

#[test]
fn empty_path_is_dot_and_matches_no_source() {
    let empty = NormalizedPath::new("");
    assert_eq!(empty.inner(), ".");
    assert_eq!(empty.original(), ".");
    let mut registry = PathRegistry::new();
    registry.register("C:\\Game\\Mods", "D:\\MyMods");
    registry.register("Mods", "D:\\Relative");
    registry.register("\\", "D:\\Root");
    assert_eq!(registry.try_remap(&empty), None);
}

#[test]
fn the_source_itself_splices_to_the_target_itself() {
    let source = NormalizedPath::new("C:\\Game\\Mods\\");
    let target = NormalizedPath::new("D:\\My\\..\\MyMods");
    let path = NormalizedPath::new("c:/GAME/mods");
    assert_eq!(splice_path(&path, &source, &target), Some(String::from("D:\\MyMods")));
    assert_eq!(splice_path(&source, &source, &target), Some(target.to_path_buf()));
}

#[test]
fn a_textual_prefix_is_not_a_source() {
    let source = NormalizedPath::new("C:\\Game");
    let target = NormalizedPath::new("D:\\Elsewhere");
    let backup = NormalizedPath::new("C:\\GameBackup");
    assert!(backup.inner().starts_with(source.inner()));
    assert!(!backup.starts_with(&source));
    assert_eq!(splice_path(&backup, &source, &target), None);
}

#[test]
fn registry_counts_its_mappings() {
    let mut registry = PathRegistry::new();
    assert!(registry.is_empty());
    assert_eq!(registry.len(), 0);
    registry.register("C:\\Game\\Mods", "D:\\MyMods");
    registry.register("C:\\Game\\Config", "D:\\MyCfg");
    assert!(!registry.is_empty());
    assert_eq!(registry.len(), 2);
    assert_eq!(registry.source_names(), vec![String::from("Mods"), String::from("Config")]);
    let _ = PathMapping::new("C:\\a", "D:\\b");
}

#[test]
fn nothing_is_remapped_before_a_registry_is_published() {
    let path = NormalizedPath::new("C:\\Game\\Mods\\x");
    assert_eq!(remap_path(None, &path), None);
    let mut registry = PathRegistry::new();
    registry.register("C:\\Game\\Mods", "D:\\MyMods");
    assert_eq!(remap_path(Some(&registry), &path), Some(String::from("D:\\MyMods\\x")));
}

#[test]
fn normalized_paths_can_be_copied_and_joined() {
    let path = NormalizedPath::new("C:\\Game\\Binaries");
    let copy = path.clone();
    assert_eq!(copy, path);
    assert_eq!(copy.original(), "C:\\Game\\Binaries");
    let joined = path.join("..\\Content\\.\\Paks");
    assert_eq!(joined.original(), "C:\\Game\\Content\\Paks");
    assert_eq!(joined.inner(), "c:\\game\\content\\paks");
    assert_eq!(path.join("D:\\x").original(), "D:\\x");
    assert_eq!(path.to_path_buf(), "C:\\Game\\Binaries");
    assert_eq!(path.component_count(), 4);
    assert_eq!(
        path.components(),
        vec![
            Component::Prefix(String::from("c:")),
            Component::RootDir,
            normal("game"),
            normal("binaries")
        ]
    );
}

#[test]
fn equal_paths_hash_alike() {
    let mut seen = std::collections::HashSet::new();
    assert!(seen.insert(NormalizedPath::new("C:\\Game\\Mods")));
    assert!(!seen.insert(NormalizedPath::new("c:/GAME/./mods")));
    assert!(seen.insert(NormalizedPath::new("C:\\Game\\Mod")));
    assert_eq!(seen.len(), 2);
}

#[test]
fn strings_convert_to_normal_form() {
    let from_str: NormalizedPath = "C:\\Game\\..\\Game\\Mods".into();
    let from_string = NormalizedPath::from(String::from("c:/game/mods"));
    assert_eq!(from_str.original(), "C:\\Game\\Mods");
    assert_eq!(from_str, from_string);
}

#[test]
fn a_prefix_is_one_whichever_separators_it_is_written_with() {
    let forward = NormalizedPath::new("//Server/Share/Mods/x");
    let backward = NormalizedPath::new("\\\\server\\share\\mods\\x");
    assert_eq!(forward, backward);
    assert_eq!(forward.original(), "\\\\Server\\Share\\Mods\\x");
    let source = NormalizedPath::new("\\\\server/share\\mods");
    let target = NormalizedPath::new("D:\\MyMods");
    assert!(forward.starts_with(&source));
    assert_eq!(splice_path(&forward, &source, &target), Some(String::from("D:\\MyMods\\x")));
    let verbatim = NormalizedPath::new("\\\\?\\C:\\Mods");
    assert!(!NormalizedPath::new("C:\\Mods").starts_with(&verbatim));
}
