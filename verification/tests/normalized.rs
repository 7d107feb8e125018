use unreal_shimloader::NormalizedPath;

#[test]
fn test_case_insensitive_equality() {
    let path1 = NormalizedPath::new("C:\\Game\\MODS");
    let path2 = NormalizedPath::new("c:\\game\\mods");
    assert_eq!(path1, path2);
}

#[test]
fn test_cleans_dot_components() {
    let path = NormalizedPath::new("C:\\Game\\..\\Game\\Mods\\.\\test.lua");
    assert_eq!(path.inner(), "c:\\game\\mods\\test.lua");
}

#[test]
fn test_starts_with() {
    let parent = NormalizedPath::new("C:\\Game\\Mods");
    let child = NormalizedPath::new("C:\\Game\\Mods\\test.lua");
    let other = NormalizedPath::new("C:\\Other\\Mods");

    assert!(child.starts_with(&parent));
    assert!(!other.starts_with(&parent));
    assert!(!parent.starts_with(&child));
}

#[test]
fn test_strip_prefix() {
    let parent = NormalizedPath::new("C:\\Game\\Mods");
    let child = NormalizedPath::new("C:\\Game\\Mods\\test.lua");

    let remainder = child.strip_prefix(&parent);
    assert_eq!(remainder, Some(String::from("test.lua")));
}

#[test]
fn test_forward_slashes_normalized() {
    let path = NormalizedPath::new("C:/Game/Mods/test.lua");
    assert!(path.inner().contains("\\"));
}

#[test]
fn test_unc_path_preserved() {
    let path = NormalizedPath::new("\\\\server\\share\\file.txt");
    assert!(path.inner().starts_with("\\\\"));
}

#[test]
fn test_extended_path_prefix() {
    let path = NormalizedPath::new("\\\\?\\C:\\Game\\Mods\\test.lua");
    assert!(!path.inner().is_empty());
}

#[test]
fn test_device_path_prefix() {
    let path = NormalizedPath::new("\\\\.\\C:\\Game\\Mods\\test.lua");
    assert!(!path.inner().is_empty());
}

#[test]
fn test_trailing_spaces_and_dots() {
    let path1 = NormalizedPath::new("C:\\Game\\Mods\\test.txt");
    let path2 = NormalizedPath::new("C:\\Game\\Mods\\test.txt.");
    assert!(!path1.inner().is_empty());
    assert!(!path2.inner().is_empty());
}

#[test]
fn test_empty_path() {
    let path = NormalizedPath::new("");
    assert!(path.inner().is_empty() || path.inner() == ".");
}

#[test]
fn test_root_path() {
    let path = NormalizedPath::new("C:\\");
    assert!(!path.inner().is_empty());
}
