use unreal_shimloader::hooks::{hooked_api, Api, InstallStep, Installer, API_COUNT};
use unreal_shimloader::clean::normalize_path;
use unreal_shimloader::ntname::counted_units;
use unreal_shimloader::startup::{
    ancestor, parent, plan_startup, reroot_path, Options, StartupError, StartupPlan,
};
use unreal_shimloader::{logical_splice, NormalizedPath};

fn options(mod_dir: Option<&str>, pak_dir: Option<&str>, cfg_dir: Option<&str>) -> Options {
    Options {
        mod_dir: mod_dir.map(String::from),
        pak_dir: pak_dir.map(String::from),
        cfg_dir: cfg_dir.map(String::from),
        disable_mods: false,
    }
}

#[test]
fn parents_and_ancestors_drop_components_from_the_end() {
    let exe = "C:\\Game\\Binaries\\Win64\\game.exe";
    assert_eq!(parent(exe), Some(String::from("C:\\Game\\Binaries\\Win64")));
    assert_eq!(ancestor(exe, 0), Some(String::from(exe)));
    assert_eq!(ancestor(exe, 3), Some(String::from("C:\\Game")));
    assert_eq!(ancestor(exe, 4), Some(String::from("C:\\")));
    assert_eq!(ancestor(exe, 5), None);
    assert_eq!(parent("C:\\"), None);
    assert_eq!(parent("C:"), None);
    assert_eq!(parent(""), None);
    assert_eq!(parent("game.exe"), Some(String::new()));
    assert_eq!(parent("a/b"), Some(String::from("a")));
}

#[test]
fn no_directory_option_starts_the_game_as_it_is() {
    let plan = plan_startup("C:\\Game\\Binaries\\Win64\\game.exe", &options(None, None, None));
    assert!(matches!(plan, Ok(StartupPlan::Vanilla)));
    let misplaced = plan_startup("game.exe", &options(None, None, None));
    assert!(matches!(misplaced, Ok(StartupPlan::Vanilla)));
}

#[test]
fn disabled_mods_start_the_game_as_it_is() {
    let mut all = options(Some("D:\\M"), Some("D:\\P"), Some("D:\\C"));
    all.disable_mods = true;
    let plan = plan_startup("C:\\Game\\Binaries\\Win64\\game.exe", &all);
    assert!(matches!(plan, Ok(StartupPlan::Vanilla)));
}

#[test]
fn misplaced_executable_is_an_error() {
    let all = options(Some("D:\\M"), Some("D:\\P"), Some("D:\\C"));
    let plan = plan_startup("C:\\Win64\\game.exe", &all);
    assert!(matches!(plan, Err(StartupError::MisplacedExecutable)));
    let some = options(Some("D:\\M"), None, None);
    let plan = plan_startup("game.exe", &some);
    assert!(matches!(plan, Err(StartupError::MisplacedExecutable)));
}

#[test]
fn a_missing_directory_option_is_an_error() {
    let exe = "C:\\Game\\Binaries\\Win64\\game.exe";
    for incomplete in [
        options(Some("D:\\M"), None, None),
        options(None, Some("D:\\P"), Some("D:\\C")),
        options(Some("D:\\M"), Some("D:\\P"), None),
    ] {
        let plan = plan_startup(exe, &incomplete);
        assert!(matches!(plan, Err(StartupError::MissingDirectory)));
    }
}

#[test]
fn three_directories_give_three_mappings() {
    let exe = "C:\\Game\\Binaries\\Win64\\game.exe";
    let all = options(Some("D:\\My\\Mods"), Some("D:\\My\\.\\Paks"), Some("D:\\Other\\..\\My\\Cfg"));
    let plan = match plan_startup(exe, &all) {
        Ok(StartupPlan::Virtualize(plan)) => plan,
        _ => panic!("the shim does not virtualize"),
    };
    assert_eq!(plan.registry.len(), 3);
    assert_eq!(
        plan.registry.try_remap(&NormalizedPath::new("C:\\Game\\Binaries\\Win64\\Mods\\foo.lua")),
        Some(String::from("D:\\My\\Mods\\foo.lua"))
    );
    assert_eq!(
        plan.registry.try_remap(&NormalizedPath::new("C:\\Game\\Content\\Paks\\LogicMods\\a.pak")),
        Some(String::from("D:\\My\\Paks\\a.pak"))
    );
    assert_eq!(
        plan.registry.try_remap(&NormalizedPath::new("C:\\Game\\Config\\app.ini")),
        Some(String::from("D:\\My\\Cfg\\app.ini"))
    );
    assert_eq!(plan.registry.try_remap(&NormalizedPath::new("C:\\Game\\Content\\x")), None);
    assert_eq!(
        plan.directories,
        vec![
            String::from("C:\\Game\\Content\\Paks\\LogicMods"),
            String::from("C:\\Game\\Config"),
            String::from("D:\\My\\Mods"),
            String::from("D:\\My\\Paks"),
            String::from("D:\\My\\Cfg"),
        ]
    );
    assert_eq!(plan.module, "C:\\Game\\Binaries\\Win64\\game.exe\\../ue4ss.dll");
    assert_eq!(
        NormalizedPath::new(&plan.module).original(),
        "C:\\Game\\Binaries\\Win64\\ue4ss.dll"
    );
    assert_eq!(
        plan.registry.source_names(),
        vec![String::from("Mods"), String::from("LogicMods"), String::from("Config")]
    );
}

#[test]
fn hooks_go_in_one_by_one_in_a_fixed_order() {
    let order = [
        Api::CreateFileW,
        Api::NtCreateFile,
        Api::GetFileAttributesW,
        Api::GetFileAttributesExW,
        Api::FindFirstFileW,
        Api::FindFirstFileExW,
        Api::FindNextFileW,
        Api::FindClose,
        Api::LoadLibraryW,
        Api::AddDllDirectory,
    ];
    assert_eq!(order.len(), API_COUNT);
    let mut installer = Installer::new();
    for (place, api) in order.iter().enumerate() {
        assert_eq!(hooked_api(place), *api);
        assert!(!installer.is_armed());
        assert_eq!(installer.next_step(), InstallStep::Install(*api));
        installer.record(true);
    }
    assert!(installer.is_armed());
    assert_eq!(installer.next_step(), InstallStep::Armed);
    installer.record(false);
    assert_eq!(installer.next_step(), InstallStep::Armed);
}

#[test]
fn one_failed_hook_leaves_the_shim_unarmed() {
    let mut installer = Installer::new();
    installer.record(true);
    installer.record(true);
    installer.record(false);
    assert_eq!(installer.next_step(), InstallStep::Aborted(Api::GetFileAttributesW));
    assert!(!installer.is_armed());
    for _ in 0..20 {
        installer.record(true);
    }
    assert_eq!(installer.next_step(), InstallStep::Aborted(Api::GetFileAttributesW));
    assert!(!installer.is_armed());
}

#[test]
fn logical_splice_goes_by_the_written_components() {
    assert_eq!(
        logical_splice("C:\\Game\\Mods\\a\\b.lua", "c:\\game\\MODS", "D:\\MyMods"),
        Some(String::from("D:\\MyMods\\a\\b.lua"))
    );
    assert_eq!(
        logical_splice("C:\\Game\\Mods", "C:\\Game\\Mods", "D:\\MyMods"),
        Some(String::from("D:\\MyMods"))
    );
    assert_eq!(logical_splice("C:\\Other\\x", "C:\\Game\\Mods", "D:\\MyMods"), None);
    assert_eq!(logical_splice("C:\\Game\\ModsBackup\\x", "C:\\Game\\Mods", "D:\\MyMods"), None);
    assert_eq!(logical_splice("E:\\Game\\Mods\\x", "C:\\Game\\Mods", "D:\\MyMods"), None);
}

#[test]
fn logical_splice_refuses_a_base_above_the_root() {
    assert_eq!(logical_splice("C:\\Game", "C:\\Game\\Mods", "D:\\MyMods"), None);
    assert_eq!(logical_splice("C:\\", "C:\\Game\\Mods", "D:\\MyMods"), None);
    assert_eq!(logical_splice("", "C:\\Game\\Mods", "D:\\MyMods"), None);
    assert_eq!(logical_splice("", "", "D:\\MyMods"), Some(String::from("D:\\MyMods")));
    assert_eq!(logical_splice("a\\b", "", "D:\\MyMods"), Some(String::from("D:\\MyMods\\a\\b")));
}

#[test]
fn logical_splice_cleans_nothing_and_folds_ascii_only() {
    assert_eq!(
        logical_splice("C:\\Game\\Mods\\..\\x", "C:\\Game\\Mods", "D:\\MyMods"),
        Some(String::from("D:\\MyMods\\..\\x"))
    );
    assert_eq!(logical_splice("C:\\Game\\.\\Mods\\x", "C:\\Game\\Mods", "D:\\M"), Some(String::from("D:\\M\\x")));
    assert_eq!(logical_splice("C:\\\u{C9}\\x", "C:\\\u{E9}", "D:\\M"), None);
    assert_eq!(logical_splice("C:\\\u{C9}\\x", "C:\\\u{C9}", "D:\\M"), Some(String::from("D:\\M\\x")));
}

#[test]
fn reroot_path_takes_the_first_root_that_matches() {
    let exe_dir = "C:\\Game\\Binaries\\Win64";
    let reroot = |origin: &str| reroot_path(origin, exe_dir, "D:\\M", "D:\\P", "D:\\C");
    assert_eq!(
        reroot("C:\\Game\\Binaries\\Win64\\Mods\\a.lua"),
        Some(String::from("D:\\M\\a.lua"))
    );
    assert_eq!(
        reroot("c:\\game\\content\\paks\\logicmods\\B.pak"),
        Some(String::from("D:\\P\\B.pak"))
    );
    assert_eq!(reroot("C:\\Game\\Config"), Some(String::from("D:\\C")));
    assert_eq!(reroot("C:\\Game\\Content\\x"), None);
    assert_eq!(reroot("C:\\Game"), None);
}

#[test]
fn normalize_path_cleans() {
    assert_eq!(normalize_path("C:/Game/./Binaries/../Config"), "C:\\Game\\Config");
}

#[test]
fn counted_strings_hold_half_as_many_units_as_bytes() {
    assert_eq!(counted_units(0), 0);
    assert_eq!(counted_units(40), 20);
    assert_eq!(counted_units(41), 20);
    assert_eq!(counted_units(65535), 32767);
}
