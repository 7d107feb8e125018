//! What the shim decides when it starts: whether to virtualize at all,
//! which roots to map, and which directories must exist first.

use vstd::prelude::*;
use crate::clean::{cleaned, clean_path, copy_component, join_components, join_parts};
use crate::grammar::{Component, components, parts_of, parse};
use crate::join::{joined, join_paths};
use crate::registry::{MappingView, PathRegistry, mapping_of};
use crate::splice::{logical_splice, logically_spliced};
use crate::text::{text_of, texts_of};

verus! {

/// `path` without its last component; `None` where it has none to lose,
/// which is so for the empty path and for one that ends in a root or a
/// prefix.
pub open spec fn parent_of(path: Seq<char>) -> Option<Seq<char>> {
    let parts = components(path);
    if parts.len() > 0 && !(parts.last() is RootDir) && !(parts.last() is Prefix) {
        Some(join_parts(parts.drop_last()))
    } else {
        None
    }
}

/// The parent of the parent, `n` times over; `path` itself for `n == 0`.
pub open spec fn ancestor_of(path: Seq<char>, n: nat) -> Option<Seq<char>>
    decreases n,
{
    if n == 0 {
        Some(path)
    } else {
        match parent_of(path) {
            Some(parent) => ancestor_of(parent, (n - 1) as nat),
            None => None,
        }
    }
}

/// `path` without its last component.
pub fn parent(path: &str) -> (r: Option<String>)
    ensures
        text_of(r) == parent_of(path@),
{
    let parsed = parse(path);
    assert(parts_of(parsed@).len() == parsed@.len());
    if parsed.len() == 0 {
        return None;
    }
    assert(parts_of(parsed@).last() == parsed@.last()@);
    match &parsed[parsed.len() - 1] {
        Component::RootDir => {
            return None;
        },
        Component::Prefix(_) => {
            return None;
        },
        _ => {},
    }
    let mut kept: Vec<Component> = Vec::new();
    let mut i: usize = 0;
    while i < parsed.len() - 1
        invariant
            i <= parsed.len() - 1,
            parts_of(kept@) == parts_of(parsed@).take(i as int),
        decreases parsed.len() - i,
    {
        let ghost before = kept@;
        kept.push(copy_component(&parsed[i]));
        proof {
            assert(parts_of(kept@) == parts_of(before).push(parsed@[i as int]@));
            assert(parts_of(parsed@)[i as int] == parsed@[i as int]@);
            assert(parts_of(kept@) == parts_of(parsed@).take(i + 1));
        }
        i += 1;
    }
    assert(parts_of(parsed@).take(parsed.len() - 1) == parts_of(parsed@).drop_last());
    Some(join_components(&kept))
}

/// The `n`th ancestor of `path`.
pub fn ancestor(path: &str, n: usize) -> (r: Option<String>)
    ensures
        text_of(r) == ancestor_of(path@, n as nat),
{
    let mut current = String::new();
    current.append(path);
    assert(current@ == path@);
    let mut left: usize = n;
    while left > 0
        invariant
            ancestor_of(path@, n as nat) == ancestor_of(current@, left as nat),
        decreases left,
    {
        match parent(current.as_str()) {
            Some(up) => {
                current = up;
            },
            None => {
                return None;
            },
        }
        left -= 1;
    }
    Some(current)
}

/// What the command line asked for.
pub struct Options {
    /// `--mod-dir`: where the script mods are.
    pub mod_dir: Option<String>,
    /// `--pak-dir`: where the blueprint paks are.
    pub pak_dir: Option<String>,
    /// `--cfg-dir`: where the configuration is.
    pub cfg_dir: Option<String>,
    /// `--disable-mods`: start the game as it is.
    pub disable_mods: bool,
}

/// Why the shim cannot start.
#[derive(Clone, Copy, Debug, PartialEq, Eq, Structural)]
pub enum StartupError {
    /// The executable does not lie three levels below a game root.
    MisplacedExecutable,
    /// One directory option was given but not all three.
    MissingDirectory,
}

/// What is to be done before the hooks go in.
pub struct Virtualization {
    /// The source and target roots, in the order they are matched.
    pub registry: PathRegistry,
    /// The directories that must exist, to be made where they do not.
    pub directories: Vec<String>,
    /// The module to load once the hooks are in.
    pub module: String,
}

/// How the shim starts.
pub enum StartupPlan {
    /// No hooks, no module: the game runs as it is.
    Vanilla,
    /// Make the directories, publish the registry, hook, load the module.
    Virtualize(Virtualization),
}

impl Options {
    /// Mods are switched off, or no directory was named.
    pub open spec fn runs_vanilla(&self) -> bool {
        self.disable_mods || (self.mod_dir is None && self.pak_dir is None && self.cfg_dir
            is None)
    }

    /// All three directories were named.
    pub open spec fn is_complete(&self) -> bool {
        self.mod_dir is Some && self.pak_dir is Some && self.cfg_dir is Some
    }
}

/// The directory two levels above `dir`, written as `dir\..\..`.
pub open spec fn two_above(dir: Seq<char>) -> Seq<char> {
    joined(joined(dir, ".."@), ".."@)
}

/// `Content\Paks\LogicMods` under `root`.
pub open spec fn logic_mods_under(root: Seq<char>) -> Seq<char> {
    joined(joined(joined(root, "Content"@), "Paks"@), "LogicMods"@)
}

/// `Config` under `root`.
pub open spec fn config_under(root: Seq<char>) -> Seq<char> {
    joined(root, "Config"@)
}

/// Where the host looks for script mods: `Mods` beside the executable.
pub open spec fn mods_source(exe_dir: Seq<char>) -> Seq<char> {
    joined(exe_dir, "Mods"@)
}

/// Where the host looks for blueprint paks: two levels above the
/// executable's directory, then `Content\Paks\LogicMods`.
pub open spec fn paks_source(exe_dir: Seq<char>) -> Seq<char> {
    logic_mods_under(two_above(exe_dir))
}

/// Where the host looks for its configuration: two levels above the
/// executable's directory, then `Config`.
pub open spec fn config_source(exe_dir: Seq<char>) -> Seq<char> {
    config_under(two_above(exe_dir))
}

/// The mappings for an executable in `exe_dir` and the three directories
/// of the user, in the order they are registered.
pub open spec fn startup_mappings(
    exe_dir: Seq<char>,
    mod_dir: Seq<char>,
    pak_dir: Seq<char>,
    cfg_dir: Seq<char>,
) -> Seq<MappingView> {
    seq![
        mapping_of(mods_source(exe_dir), cleaned(mod_dir)),
        mapping_of(paks_source(exe_dir), cleaned(pak_dir)),
        mapping_of(config_source(exe_dir), cleaned(cfg_dir)),
    ]
}

/// The directories that must exist: the two virtual roots under the game
/// root that the host expects, and the three directories of the user.
pub open spec fn startup_directories(
    game_root: Seq<char>,
    mod_dir: Seq<char>,
    pak_dir: Seq<char>,
    cfg_dir: Seq<char>,
) -> Seq<Seq<char>> {
    seq![
        logic_mods_under(game_root),
        config_under(game_root),
        cleaned(mod_dir),
        cleaned(pak_dir),
        cleaned(cfg_dir),
    ]
}

/// The module that is loaded after the hooks: `ue4ss.dll` beside the
/// executable.
pub open spec fn follow_on_module(exe: Seq<char>) -> Seq<char> {
    joined(exe, "../ue4ss.dll"@)
}

/// The directory two levels above `dir`.
fn two_levels_above(dir: &str) -> (r: String)
    ensures
        r@ == two_above(dir@),
{
    let up = join_paths(dir, "..");
    join_paths(up.as_str(), "..")
}

/// `Content\Paks\LogicMods` under `root`.
fn logic_mods_in(root: &str) -> (r: String)
    ensures
        r@ == logic_mods_under(root@),
{
    let content = join_paths(root, "Content");
    let paks = join_paths(content.as_str(), "Paks");
    join_paths(paks.as_str(), "LogicMods")
}

/// What is to be done for the executable `exe` in `exe_dir` under
/// `game_root`, given the three directories of the user, cleaned.
fn virtualization(
    exe: &str,
    exe_dir: &str,
    game_root: &str,
    mod_dir: String,
    pak_dir: String,
    cfg_dir: String,
) -> (plan: Virtualization)
    ensures
        plan.registry@ == seq![
            mapping_of(mods_source(exe_dir@), mod_dir@),
            mapping_of(paks_source(exe_dir@), pak_dir@),
            mapping_of(config_source(exe_dir@), cfg_dir@),
        ],
        texts_of(plan.directories@) == seq![
            logic_mods_under(game_root@),
            config_under(game_root@),
            mod_dir@,
            pak_dir@,
            cfg_dir@,
        ],
        plan.module@ == follow_on_module(exe@),
{
    let mods = join_paths(exe_dir, "Mods");
    let top = two_levels_above(exe_dir);
    let logic_mods = logic_mods_in(top.as_str());
    let config = join_paths(top.as_str(), "Config");
    let mut registry = PathRegistry::new();
    registry.register(mods.as_str(), mod_dir.as_str());
    registry.register(logic_mods.as_str(), pak_dir.as_str());
    registry.register(config.as_str(), cfg_dir.as_str());
    let real_logic_mods = logic_mods_in(game_root);
    let real_config = join_paths(game_root, "Config");
    let mut directories: Vec<String> = Vec::new();
    directories.push(real_logic_mods);
    directories.push(real_config);
    directories.push(mod_dir);
    directories.push(pak_dir);
    directories.push(cfg_dir);
    let module = join_paths(exe, "../ue4ss.dll");
    Virtualization { registry, directories, module }
}

/// Decides how the shim starts for the executable `exe` and the command
/// line `options`.
///
/// Without a directory option, or with mods switched off, the game runs as
/// it is. Otherwise the executable must lie three levels below the game
/// root and all three directories must be named.
pub fn plan_startup(exe: &str, options: &Options) -> (r: Result<StartupPlan, StartupError>)
    ensures
        options.runs_vanilla() ==> r matches Ok(StartupPlan::Vanilla),
        !options.runs_vanilla() && ancestor_of(exe@, 3) is None ==> r == Err::<
            StartupPlan,
            StartupError,
        >(StartupError::MisplacedExecutable),
        !options.runs_vanilla() && ancestor_of(exe@, 3) is Some && !options.is_complete() ==> r
            == Err::<StartupPlan, StartupError>(StartupError::MissingDirectory),
        !options.runs_vanilla() && ancestor_of(exe@, 3) is Some && options.is_complete() ==> {
            &&& r matches Ok(StartupPlan::Virtualize(plan))
            &&& parent_of(exe@) matches Some(exe_dir)
            &&& plan.registry@ == startup_mappings(
                exe_dir,
                options.mod_dir->0@,
                options.pak_dir->0@,
                options.cfg_dir->0@,
            )
            &&& texts_of(plan.directories@) == startup_directories(
                ancestor_of(exe@, 3)->0,
                options.mod_dir->0@,
                options.pak_dir->0@,
                options.cfg_dir->0@,
            )
            &&& plan.module@ == follow_on_module(exe@)
        },
{
    if options.disable_mods || (options.mod_dir.is_none() && options.pak_dir.is_none()
        && options.cfg_dir.is_none()) {
        return Ok(StartupPlan::Vanilla);
    }
    let game_root = match ancestor(exe, 3) {
        Some(root) => root,
        None => {
            return Err(StartupError::MisplacedExecutable);
        },
    };
    proof {
        reveal_with_fuel(ancestor_of, 4);
    }
    let exe_dir = match parent(exe) {
        Some(dir) => dir,
        None => {
            return Err(StartupError::MisplacedExecutable);
        },
    };
    let (mod_dir, pak_dir, cfg_dir) = match (&options.mod_dir, &options.pak_dir, &options.cfg_dir) {
        (Some(m), Some(p), Some(c)) => (clean_path(m.as_str()), clean_path(p.as_str()), clean_path(
            c.as_str(),
        )),
        _ => {
            return Err(StartupError::MissingDirectory);
        },
    };
    Ok(StartupPlan::Virtualize(virtualization(
        exe,
        exe_dir.as_str(),
        game_root.as_str(),
        mod_dir,
        pak_dir,
        cfg_dir,
    )))
}

/// The splice of `origin`, as it was written, by the first of the three
/// virtual roots of an executable in `exe_dir` under which it lies: the
/// mods directory onto `mod_dir`, then the directory of the paks, cleaned,
/// onto `pak_dir`, then that of the configuration, cleaned, onto `cfg_dir`.
pub open spec fn rerooted(
    origin: Seq<char>,
    exe_dir: Seq<char>,
    mod_dir: Seq<char>,
    pak_dir: Seq<char>,
    cfg_dir: Seq<char>,
) -> Option<Seq<char>> {
    match logically_spliced(origin, mods_source(exe_dir), mod_dir) {
        Some(found) => Some(found),
        None => match logically_spliced(origin, cleaned(paks_source(exe_dir)), pak_dir) {
            Some(found) => Some(found),
            None => logically_spliced(origin, cleaned(config_source(exe_dir)), cfg_dir),
        },
    }
}

/// Re-roots `origin` onto the directory of the user that stands in for
/// the virtual root it lies under; `None` where it lies under none of the
/// three. The paths are taken as they were written.
pub fn reroot_path(origin: &str, exe_dir: &str, mod_dir: &str, pak_dir: &str, cfg_dir: &str) -> (r:
    Option<String>)
    ensures
        text_of(r) == rerooted(origin@, exe_dir@, mod_dir@, pak_dir@, cfg_dir@),
{
    let mods = join_paths(exe_dir, "Mods");
    match logical_splice(origin, mods.as_str(), mod_dir) {
        Some(found) => {
            return Some(found);
        },
        None => {},
    }
    let top = two_levels_above(exe_dir);
    let paks = clean_path(logic_mods_in(top.as_str()).as_str());
    match logical_splice(origin, paks.as_str(), pak_dir) {
        Some(found) => {
            return Some(found);
        },
        None => {},
    }
    let config = clean_path(join_paths(top.as_str(), "Config").as_str());
    logical_splice(origin, config.as_str(), cfg_dir)
}

} // verus!
