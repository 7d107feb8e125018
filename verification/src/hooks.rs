//! The order in which the entry points are hooked, and the rule that the
//! shim is armed only when every one of them is.

use vstd::prelude::*;

verus! {

/// An entry point of the operating system that the shim stands in front
/// of.
#[derive(Clone, Copy, Debug, PartialEq, Eq, Structural)]
pub enum Api {
    CreateFileW,
    NtCreateFile,
    GetFileAttributesW,
    GetFileAttributesExW,
    FindFirstFileW,
    FindFirstFileExW,
    FindNextFileW,
    FindClose,
    LoadLibraryW,
    AddDllDirectory,
}

/// How many entry points are hooked.
pub const API_COUNT: usize = 10;

/// The entry point that is hooked in place `i`.
pub open spec fn api_at(i: int) -> Api {
    if i == 0 {
        Api::CreateFileW
    } else if i == 1 {
        Api::NtCreateFile
    } else if i == 2 {
        Api::GetFileAttributesW
    } else if i == 3 {
        Api::GetFileAttributesExW
    } else if i == 4 {
        Api::FindFirstFileW
    } else if i == 5 {
        Api::FindFirstFileExW
    } else if i == 6 {
        Api::FindNextFileW
    } else if i == 7 {
        Api::FindClose
    } else if i == 8 {
        Api::LoadLibraryW
    } else {
        Api::AddDllDirectory
    }
}

/// What the installer does next.
#[derive(Clone, Copy, Debug, PartialEq, Eq, Structural)]
pub enum InstallStep {
    /// Hook this entry point and report how it went.
    Install(Api),
    /// Every entry point is hooked.
    Armed,
    /// Hooking this entry point failed: give up, the shim is not armed.
    Aborted(Api),
}

/// How far the installation has come.
pub struct InstallerView {
    /// How many entry points are hooked.
    pub installed: int,
    /// Whether hooking the one after them failed.
    pub failed: bool,
}

impl InstallerView {
    /// The step that is due in this state.
    pub open spec fn step(self) -> InstallStep {
        if self.failed {
            InstallStep::Aborted(api_at(self.installed))
        } else if self.installed < API_COUNT {
            InstallStep::Install(api_at(self.installed))
        } else {
            InstallStep::Armed
        }
    }

    /// The state after the due hook has been reported as `succeeded`. A
    /// state that is armed or aborted stays as it is.
    pub open spec fn record(self, succeeded: bool) -> InstallerView {
        if self.failed || self.installed >= API_COUNT {
            self
        } else if succeeded {
            InstallerView { installed: self.installed + 1, failed: false }
        } else {
            InstallerView { installed: self.installed, failed: true }
        }
    }
}

/// The state in which nothing is hooked yet.
pub open spec fn initial() -> InstallerView {
    InstallerView { installed: 0, failed: false }
}

/// The state after the reports `outcomes`, taken in order from the start.
pub open spec fn after(outcomes: Seq<bool>) -> InstallerView
    decreases outcomes.len(),
{
    if outcomes.len() == 0 {
        initial()
    } else {
        after(outcomes.drop_last()).record(outcomes.last())
    }
}

/// Walks through the entry points one hook at a time.
pub struct Installer {
    installed: usize,
    failed: bool,
}

impl View for Installer {
    type V = InstallerView;

    closed spec fn view(&self) -> InstallerView {
        InstallerView { installed: self.installed as int, failed: self.failed }
    }
}

impl Installer {
    /// No more hooks are counted than there are entry points.
    #[verifier::type_invariant]
    spec fn counts_within(&self) -> bool {
        self.installed <= API_COUNT
    }

    /// An installer that has hooked nothing yet.
    pub fn new() -> (r: Self)
        ensures
            r@ == initial(),
    {
        Installer { installed: 0, failed: false }
    }

    /// The step that is due.
    pub fn next_step(&self) -> (r: InstallStep)
        ensures
            r == self@.step(),
    {
        if self.failed {
            InstallStep::Aborted(hooked_api(self.installed))
        } else if self.installed < API_COUNT {
            InstallStep::Install(hooked_api(self.installed))
        } else {
            InstallStep::Armed
        }
    }

    /// Takes the report on the hook that was due.
    pub fn record(&mut self, succeeded: bool)
        ensures
            final(self)@ == old(self)@.record(succeeded),
    {
        proof {
            use_type_invariant(&*self);
        }
        if !self.failed && self.installed < API_COUNT {
            if succeeded {
                self.installed = self.installed + 1;
            } else {
                self.failed = true;
            }
        }
    }

    /// Whether every entry point is hooked.
    pub fn is_armed(&self) -> (r: bool)
        ensures
            r == (self@.step() is Armed),
    {
        !self.failed && self.installed >= API_COUNT
    }
}

/// The entry point that is hooked in place `i`.
pub fn hooked_api(i: usize) -> (r: Api)
    ensures
        r == api_at(i as int),
{
    if i == 0 {
        Api::CreateFileW
    } else if i == 1 {
        Api::NtCreateFile
    } else if i == 2 {
        Api::GetFileAttributesW
    } else if i == 3 {
        Api::GetFileAttributesExW
    } else if i == 4 {
        Api::FindFirstFileW
    } else if i == 5 {
        Api::FindFirstFileExW
    } else if i == 6 {
        Api::FindNextFileW
    } else if i == 7 {
        Api::FindClose
    } else if i == 8 {
        Api::LoadLibraryW
    } else {
        Api::AddDllDirectory
    }
}

/// The reports `outcomes` leave the hooks of the first `n` entry points in
/// place: there are at least `n` of them and the first `n` are successes.
pub open spec fn all_succeeded(outcomes: Seq<bool>, n: int) -> bool {
    outcomes.len() >= n && forall|i: int| 0 <= i < n ==> #[trigger] outcomes[i]
}

/// Where the installation stands after `outcomes`: the hooks counted are
/// those that succeeded one after another from the start, and it failed
/// exactly where a failure came before every hook was in.
proof fn lemma_after(outcomes: Seq<bool>)
    ensures
        0 <= after(outcomes).installed <= API_COUNT,
        after(outcomes).installed <= outcomes.len(),
        all_succeeded(outcomes, after(outcomes).installed),
        after(outcomes).failed ==> after(outcomes).installed < API_COUNT && outcomes.len()
            > after(outcomes).installed && !outcomes[after(outcomes).installed],
        !after(outcomes).failed && after(outcomes).installed < API_COUNT ==> outcomes.len()
            == after(outcomes).installed,
    decreases outcomes.len(),
{
    if outcomes.len() > 0 {
        let before = outcomes.drop_last();
        lemma_after(before);
        let s = after(before);
        assert forall|i: int| 0 <= i < before.len() implies before[i] == outcomes[i] by {}
        assert forall|i: int| 0 <= i < s.installed implies #[trigger] outcomes[i] by {
            assert(before[i]);
        }
        if !s.failed && s.installed < API_COUNT {
            assert(outcomes[s.installed] == outcomes.last());
        }
    }
}

/// The shim is armed exactly when every entry point was hooked: whatever
/// reports come in, the installer ends armed if and only if the first
/// `API_COUNT` of them are successes.
pub proof fn lemma_armed_iff_all_hooked(outcomes: Seq<bool>)
    ensures
        after(outcomes).step() is Armed <==> all_succeeded(outcomes, API_COUNT as int),
{
    lemma_after(outcomes);
    let s = after(outcomes);
    if s.failed {
        assert(!outcomes[s.installed]);
    }
}

/// A failed hook is final: once the installer has aborted, no report
/// changes what it says.
pub proof fn lemma_abort_is_final(outcomes: Seq<bool>, more: Seq<bool>)
    requires
        after(outcomes).failed,
    ensures
        after(outcomes + more) == after(outcomes),
    decreases more.len(),
{
    if more.len() == 0 {
        assert(outcomes + more == outcomes);
    } else {
        assert((outcomes + more).drop_last() == outcomes + more.drop_last());
        lemma_abort_is_final(outcomes, more.drop_last());
    }
}

} // verus!
