use unreal_shimloader::{NormalizedPath, PathRegistry};

#[test]
fn test_registry_basic() {
    let mut registry = PathRegistry::new();
    registry.register("C:\\Game\\Mods", "D:\\MyMods");
    registry.register("C:\\Game\\Content\\Paks\\LogicMods", "D:\\MyPaks");

    let path = NormalizedPath::new("C:\\Game\\Mods\\test.lua");
    let result = registry.try_remap(&path);
    assert_eq!(result, Some(String::from("D:\\MyMods\\test.lua")));

    let path = NormalizedPath::new("C:\\Game\\Content\\Paks\\LogicMods\\mod.pak");
    let result = registry.try_remap(&path);
    assert_eq!(result, Some(String::from("D:\\MyPaks\\mod.pak")));
}

#[test]
fn test_registry_no_match() {
    let mut registry = PathRegistry::new();
    registry.register("C:\\Game\\Mods", "D:\\MyMods");

    let path = NormalizedPath::new("C:\\Other\\file.txt");
    let result = registry.try_remap(&path);
    assert_eq!(result, None);
}

#[test]
fn test_registry_first_match_wins() {
    let mut registry = PathRegistry::new();
    registry.register("C:\\Game\\Mods\\Special", "D:\\SpecialMods");
    registry.register("C:\\Game\\Mods", "D:\\MyMods");

    let path = NormalizedPath::new("C:\\Game\\Mods\\Special\\test.lua");
    let result = registry.try_remap(&path);
    assert_eq!(result, Some(String::from("D:\\SpecialMods\\test.lua")));

    let path = NormalizedPath::new("C:\\Game\\Mods\\Other\\test.lua");
    let result = registry.try_remap(&path);
    assert_eq!(result, Some(String::from("D:\\MyMods\\other\\test.lua")));
}
