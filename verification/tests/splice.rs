use unreal_shimloader::{splice_path, NormalizedPath};

#[test]
fn test_splice_path_basic() {
    let path = NormalizedPath::new("C:\\Game\\Mods\\test.lua");
    let source = NormalizedPath::new("C:\\Game\\Mods");
    let target = NormalizedPath::new("D:\\MyMods");

    let result = splice_path(&path, &source, &target);
    assert_eq!(result, Some(String::from("D:\\MyMods\\test.lua")));
}

#[test]
fn test_splice_path_nested() {
    let path = NormalizedPath::new("C:\\Game\\Mods\\subdir\\another\\test.lua");
    let source = NormalizedPath::new("C:\\Game\\Mods");
    let target = NormalizedPath::new("D:\\MyMods");

    let result = splice_path(&path, &source, &target);
    assert_eq!(result, Some(String::from("D:\\MyMods\\subdir\\another\\test.lua")));
}

#[test]
fn test_splice_path_not_under_source() {
    let path = NormalizedPath::new("C:\\Other\\test.lua");
    let source = NormalizedPath::new("C:\\Game\\Mods");
    let target = NormalizedPath::new("D:\\MyMods");

    let result = splice_path(&path, &source, &target);
    assert_eq!(result, None);
}

#[test]
fn test_splice_path_parent_does_not_match() {
    let path = NormalizedPath::new("C:\\Game");
    let source = NormalizedPath::new("C:\\Game\\Mods");
    let target = NormalizedPath::new("D:\\MyMods");

    let result = splice_path(&path, &source, &target);
    assert_eq!(result, None);
}

#[test]
fn test_splice_path_exact_match() {
    let path = NormalizedPath::new("C:\\Game\\Mods");
    let source = NormalizedPath::new("C:\\Game\\Mods");
    let target = NormalizedPath::new("D:\\MyMods");

    let result = splice_path(&path, &source, &target);
    assert_eq!(result, Some(String::from("D:\\MyMods")));
}

#[test]
fn test_splice_path_case_insensitive() {
    let path = NormalizedPath::new("C:\\GAME\\MODS\\test.lua");
    let source = NormalizedPath::new("c:\\game\\mods");
    let target = NormalizedPath::new("D:\\MyMods");

    let result = splice_path(&path, &source, &target);
    assert_eq!(result, Some(String::from("D:\\MyMods\\test.lua")));
}

#[test]
fn test_unc_path_not_remapped() {
    let path = NormalizedPath::new("\\\\server\\share\\Mods\\test.lua");
    let source = NormalizedPath::new("C:\\Game\\Mods");
    let target = NormalizedPath::new("D:\\MyMods");

    let result = splice_path(&path, &source, &target);
    assert_eq!(result, None);
}

#[test]
fn test_different_drive_not_remapped() {
    let path = NormalizedPath::new("E:\\Game\\Mods\\test.lua");
    let source = NormalizedPath::new("C:\\Game\\Mods");
    let target = NormalizedPath::new("D:\\MyMods");

    let result = splice_path(&path, &source, &target);
    assert_eq!(result, None);
}

#[test]
fn test_similar_prefix_not_remapped() {
    let path = NormalizedPath::new("C:\\Game\\ModsBackup\\test.lua");
    let source = NormalizedPath::new("C:\\Game\\Mods");
    let target = NormalizedPath::new("D:\\MyMods");

    let result = splice_path(&path, &source, &target);
    assert_eq!(result, None);
}
