use unreal_shimloader::detour::{redirect, Forward};
use unreal_shimloader::enumeration::{
    entry_for, find_close, find_first, find_next, is_listing_request, EnumerationTable, FindFirst,
    FindNext, DIRECTORY_ATTRIBUTE, FIRST_HANDLE, NAME_CAPACITY,
};
use unreal_shimloader::PathRegistry;

fn wide(text: &str) -> Vec<u16> {
    let mut units: Vec<u16> = text.encode_utf16().collect();
    units.push(0);
    units
}

fn game_registry() -> PathRegistry {
    let mut registry = PathRegistry::new();
    registry.register("C:\\Game\\Binaries\\Win64\\Mods", "D:\\MyMods");
    registry.register("C:\\Game\\Content\\Paks\\LogicMods", "D:\\MyPaks");
    registry.register("C:\\Game\\Config", "D:\\MyCfg");
    registry
}

fn name_of(units: &[u16]) -> String {
    let end = units.iter().position(|u| *u == 0).unwrap_or(units.len());
    String::from_utf16(&units[..end]).unwrap()
}

#[test]
fn create_file_under_a_source_is_redirected() {
    let registry = game_registry();
    let forward = redirect(&registry, &wide("C:\\Game\\Binaries\\Win64\\Mods\\foo.lua"));
    assert_eq!(forward, Forward::Rewritten(wide("D:\\MyMods\\foo.lua")));
}

#[test]
fn get_attributes_outside_every_source_keeps_the_pointer() {
    let registry = game_registry();
    let forward = redirect(&registry, &wide("C:\\OTHER\\x.txt"));
    assert_eq!(forward, Forward::Unchanged);
}

#[test]
fn remapping_a_path_onto_itself_keeps_the_pointer() {
    let mut registry = PathRegistry::new();
    registry.register("C:\\Game\\Mods", "C:\\Game\\Mods");
    assert_eq!(redirect(&registry, &wide("C:\\Game\\Mods")), Forward::Unchanged);
    assert_eq!(
        redirect(&registry, &wide("C:\\Game\\Mods\\A")),
        Forward::Rewritten(wide("C:\\Game\\Mods\\a"))
    );
}

#[test]
fn invalid_wide_text_keeps_the_pointer() {
    let registry = game_registry();
    let raw: Vec<u16> = vec![0x43, 0xD800, 0];
    assert_eq!(redirect(&registry, &raw), Forward::Unchanged);
}

#[test]
fn listing_of_the_mods_directory_is_made_up() {
    let registry = game_registry();
    let mut table = EnumerationTable::new();
    let first = find_first(&mut table, &registry, &wide("C:\\Game\\Binaries\\Win64\\Mods\\*"));
    let handle = match first {
        FindFirst::Synthetic { handle, entry } => {
            assert_eq!(name_of(&entry.file_name), "Mods");
            assert_eq!(entry.attributes, DIRECTORY_ATTRIBUTE);
            assert_eq!(entry.file_name.len(), NAME_CAPACITY);
            assert_eq!(entry.creation_time, 0);
            assert_eq!(entry.last_access_time, 0);
            assert_eq!(entry.last_write_time, 0);
            assert_eq!(entry.file_size, 0);
            handle
        }
        FindFirst::Forward(_) => panic!("the listing was passed on"),
    };
    assert_eq!(handle, FIRST_HANDLE);
    assert_eq!(table.cursor(handle), Some(1));

    match find_next(&mut table, &registry, handle) {
        FindNext::Entry(entry) => assert_eq!(name_of(&entry.file_name), "LogicMods"),
        other => panic!("unexpected {:?}", other),
    }
    match find_next(&mut table, &registry, handle) {
        FindNext::Entry(entry) => assert_eq!(name_of(&entry.file_name), "Config"),
        other => panic!("unexpected {:?}", other),
    }
    assert_eq!(find_next(&mut table, &registry, handle), FindNext::NoMoreFiles);
    assert_eq!(find_next(&mut table, &registry, handle), FindNext::NoMoreFiles);
    assert_eq!(table.cursor(handle), Some(3));

    assert!(find_close(&mut table, handle));
    assert!(!table.is_synthetic(handle));
    assert_eq!(find_next(&mut table, &registry, handle), FindNext::NotSynthetic);
    assert!(!find_close(&mut table, handle));
}

#[test]
fn other_queries_under_the_mods_directory_are_passed_on() {
    let registry = game_registry();
    let mut table = EnumerationTable::new();
    let first = find_first(&mut table, &registry, &wide("C:\\Game\\Binaries\\Win64\\Mods\\*.lua"));
    assert_eq!(first, FindFirst::Forward(Forward::Rewritten(wide("D:\\MyMods\\*.lua"))));
    let outside = find_first(&mut table, &registry, &wide("C:\\Other\\*"));
    assert_eq!(outside, FindFirst::Forward(Forward::Unchanged));
    assert!(!table.is_synthetic(FIRST_HANDLE));
}

#[test]
fn listing_without_sources_is_passed_on() {
    let registry = PathRegistry::new();
    let mut table = EnumerationTable::new();
    let first = find_first(&mut table, &registry, &wide("C:\\Game\\Binaries\\Win64\\Mods\\*"));
    assert_eq!(first, FindFirst::Forward(Forward::Unchanged));
}

#[test]
fn each_listing_gets_a_handle_of_its_own() {
    let registry = game_registry();
    let mut table = EnumerationTable::new();
    let raw = wide("c:/game/binaries/WIN64/MODS/*");
    let a = match find_first(&mut table, &registry, &raw) {
        FindFirst::Synthetic { handle, .. } => handle,
        FindFirst::Forward(_) => panic!("the listing was passed on"),
    };
    let b = match find_first(&mut table, &registry, &raw) {
        FindFirst::Synthetic { handle, .. } => handle,
        FindFirst::Forward(_) => panic!("the listing was passed on"),
    };
    assert_eq!(a, 16);
    assert_eq!(b, 17);
    assert_eq!(find_next(&mut table, &registry, a), {
        FindNext::Entry(entry_for("LogicMods"))
    });
    assert_eq!(table.cursor(a), Some(2));
    assert_eq!(table.cursor(b), Some(1));
    assert!(find_close(&mut table, a));
    assert_eq!(table.cursor(b), Some(1));
    assert_eq!(find_next(&mut table, &registry, 4), FindNext::NotSynthetic);
}

#[test]
fn listing_requests_are_told_by_their_end() {
    assert!(is_listing_request("c:\\game\\binaries\\win64\\mods\\*"));
    assert!(is_listing_request("win64\\mods\\*"));
    assert!(!is_listing_request("c:\\game\\binaries\\win64\\mods"));
    assert!(!is_listing_request("c:\\game\\binaries\\win64\\mods\\*.*"));
    assert!(!is_listing_request("Win64\\Mods\\*"));
    assert!(!is_listing_request(""));
}

#[test]
fn entry_names_are_cut_and_filled_to_the_field() {
    let short = entry_for("Mods");
    assert_eq!(short.file_name.len(), 260);
    assert_eq!(&short.file_name[..5], &[0x4Du16, 0x6F, 0x64, 0x73, 0][..]);
    assert!(short.file_name[4..].iter().all(|u| *u == 0));

    let long = entry_for(&"n".repeat(300));
    assert_eq!(long.file_name.len(), 260);
    assert!(long.file_name.iter().all(|u| *u == 0x6E));
}
