use unreal_shimloader::ntname::{rewrite_nt_name, system_path, NtName};
use unreal_shimloader::PathRegistry;

fn wide(text: &str) -> Vec<u16> {
    text.encode_utf16().collect()
}

fn game_registry() -> PathRegistry {
    let mut registry = PathRegistry::new();
    registry.register("C:\\Game\\Binaries\\Win64\\Mods", "D:\\MyMods");
    registry.register("C:\\Game\\Content\\Paks\\LogicMods", "D:\\MyPaks");
    registry.register("C:\\Game\\Config", "D:\\MyCfg");
    registry
}

#[test]
fn nt_name_under_a_source_is_rebuilt() {
    let registry = game_registry();
    let name = wide("\\??\\C:\\Game\\Config\\app.ini");
    let rewritten = rewrite_nt_name(&registry, &name).unwrap();
    let mut expected = wide("\\??\\D:\\MyCfg\\app.ini");
    let units = expected.len();
    expected.push(0);
    assert_eq!(
        rewritten,
        NtName {
            buffer: expected,
            length: (units * 2) as u16,
            maximum_length: (units * 2 + 2) as u16,
        }
    );
    assert_eq!(rewritten.length, 40);
    assert_eq!(rewritten.maximum_length, 42);
}

#[test]
fn nt_name_in_the_device_namespace_passes_through() {
    let mut registry = game_registry();
    registry.register("\\\\Device\\Harddisk0", "D:\\Disk");
    let name = wide("\\??\\\\\\Device\\Harddisk0\\x");
    assert_eq!(rewrite_nt_name(&registry, &name), None);
}

#[test]
fn nt_name_in_the_system_directory_passes_through() {
    let mut registry = PathRegistry::new();
    registry.register("C:\\Windows\\System32", "D:\\Fake");
    let name = wide("\\??\\C:\\WINDOWS\\System32\\kernel32.dll");
    assert_eq!(rewrite_nt_name(&registry, &name), None);
    let other = wide("\\??\\C:\\Win\\System32\\kernel32.dll");
    assert_eq!(rewrite_nt_name(&registry, &other), None);
}

#[test]
fn nt_name_under_no_source_passes_through() {
    let registry = game_registry();
    let name = wide("\\??\\C:\\Other\\x.txt");
    assert_eq!(rewrite_nt_name(&registry, &name), None);
}

#[test]
fn nt_name_shorter_than_its_token_passes_through() {
    let registry = game_registry();
    assert_eq!(rewrite_nt_name(&registry, &wide("\\??")), None);
    assert_eq!(rewrite_nt_name(&registry, &Vec::new()), None);
}

#[test]
fn nt_name_is_read_up_to_the_first_zero() {
    let registry = game_registry();
    let mut name = wide("\\??\\C:\\Game\\Config");
    name.push(0);
    name.extend(wide("\\ignored"));
    let rewritten = rewrite_nt_name(&registry, &name).unwrap();
    let mut expected = wide("\\??\\D:\\MyCfg");
    expected.push(0);
    assert_eq!(rewritten.buffer, expected);
    assert_eq!(rewritten.length, 24);
    assert_eq!(rewritten.maximum_length, 26);
}

#[test]
fn nt_name_that_is_not_utf16_passes_through() {
    let registry = game_registry();
    let mut name = wide("\\??\\C:\\Game\\Config\\");
    name.push(0xD800);
    assert_eq!(rewrite_nt_name(&registry, &name), None);
}

#[test]
fn nt_name_too_long_for_a_counted_string_passes_through() {
    let mut registry = PathRegistry::new();
    let long = "x".repeat(32760);
    let target = format!("D:\\{}", long);
    registry.register("C:\\Game\\Config", &target);
    let name = wide("\\??\\C:\\Game\\Config");
    assert_eq!(rewrite_nt_name(&registry, &name), None);

    let mut fits = PathRegistry::new();
    let target = format!("D:\\{}", "x".repeat(32759));
    fits.register("C:\\Game\\Config", &target);
    let rewritten = rewrite_nt_name(&fits, &name).unwrap();
    assert_eq!(rewritten.buffer.len(), 32767);
    assert_eq!(rewritten.length, 65532);
    assert_eq!(rewritten.maximum_length, 65534);
}

#[test]
fn system_paths_are_told_in_any_case() {
    assert!(system_path("\\\\Device\\Harddisk0"));
    assert!(system_path("\\\\DEVICE"));
    assert!(system_path("c:\\windows"));
    assert!(system_path("C:\\Windows\\System32"));
    assert!(!system_path("\\Device\\Harddisk0"));
    assert!(!system_path("D:\\Windows"));
    assert!(!system_path("C:\\Window"));
    assert!(!system_path(""));
}
