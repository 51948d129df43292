//! The pre-flight safety check: is the path that is about to be deleted a protected
//! system directory, or does it hold the current working directory?
//!
//! The check decides on plain facts. The caller gathers them: the path as
//! given, its canonical form, and the canonical forms of the directories that
//! the process environment names.

use crate::text::{
    has_suffix, same_ignoring_ascii_case, text_ends_with, text_eq_ignore_ascii_case,
};
use vstd::prelude::*;
use vstd::string::StringExecFns;
use vstd::utf8::encode_utf8;

verus! {

/// The family of operating system whose rules apply.
#[derive(Clone, Copy, Debug, PartialEq, Eq, Structural)]
pub enum Platform {
    Unix,
    Windows,
}

/// A path that the file system has resolved: its text, and its components
/// from the root down.
#[derive(Debug)]
pub struct ResolvedPath {
    pub text: String,
    pub components: Vec<String>,
}

/// What is known about the target path and about the process.
#[derive(Debug)]
pub struct PathFacts {
    pub platform: Platform,
    /// The target path as the user gave it.
    pub path: String,
    /// The target path in canonical form, where it could be resolved.
    pub canonical: Option<ResolvedPath>,
    /// The user's home directory (`HOME`) in canonical form.
    pub home: Option<ResolvedPath>,
    /// The user's profile directory (`USERPROFILE`) in canonical form.
    pub user_profile: Option<ResolvedPath>,
    /// The current working directory as the system reports it.
    pub current_dir: Option<ResolvedPath>,
    /// The current working directory in canonical form.
    pub current_dir_canonical: Option<ResolvedPath>,
}

/// Safety check result.
#[derive(Debug)]
pub enum SafetyCheck {
    Safe,
    Dangerous { reason: String, can_override: bool },
}

/// A resolved path as text and components.
pub struct ResolvedModel {
    pub text: Seq<char>,
    pub components: Seq<Seq<char>>,
}

/// The facts as texts and components.
pub struct FactsModel {
    pub platform: Platform,
    pub path: Seq<char>,
    pub canonical: Option<ResolvedModel>,
    pub home: Option<ResolvedModel>,
    pub user_profile: Option<ResolvedModel>,
    pub current_dir: Option<ResolvedModel>,
    pub current_dir_canonical: Option<ResolvedModel>,
}

/// The outcome of the safety check, with the reason as text.
pub enum Verdict {
    Safe,
    Dangerous { reason: Seq<char>, can_override: bool },
}

impl View for ResolvedPath {
    type V = ResolvedModel;

    open spec fn view(&self) -> ResolvedModel {
        ResolvedModel { text: self.text@, components: self.components@.map_values(|c: String| c@) }
    }
}

/// The model of a path that may be missing.
pub open spec fn resolved_view(path: Option<ResolvedPath>) -> Option<ResolvedModel> {
    match path {
        Some(p) => Some(p@),
        None => None,
    }
}

impl View for PathFacts {
    type V = FactsModel;

    open spec fn view(&self) -> FactsModel {
        FactsModel {
            platform: self.platform,
            path: self.path@,
            canonical: resolved_view(self.canonical),
            home: resolved_view(self.home),
            user_profile: resolved_view(self.user_profile),
            current_dir: resolved_view(self.current_dir),
            current_dir_canonical: resolved_view(self.current_dir_canonical),
        }
    }
}

impl View for SafetyCheck {
    type V = Verdict;

    open spec fn view(&self) -> Verdict {
        match self {
            SafetyCheck::Safe => Verdict::Safe,
            SafetyCheck::Dangerous { reason, can_override } => Verdict::Dangerous {
                reason: reason@,
                can_override: *can_override,
            },
        }
    }
}

/// The protected directories of a Unix system.
pub open spec fn protected_on_unix(path: Seq<char>) -> bool {
    ||| path == "/"@
    ||| path == "/bin"@
    ||| path == "/boot"@
    ||| path == "/dev"@
    ||| path == "/etc"@
    ||| path == "/lib"@
    ||| path == "/lib64"@
    ||| path == "/proc"@
    ||| path == "/root"@
    ||| path == "/sbin"@
    ||| path == "/sys"@
    ||| path == "/usr"@
    ||| path == "/var"@
}

/// The protected directories of a Windows system, in any case of letters.
pub open spec fn protected_on_windows(path: Seq<char>) -> bool {
    ||| same_ignoring_ascii_case(path, "C:\\Windows"@)
    ||| same_ignoring_ascii_case(path, "C:\\Windows\\System32"@)
    ||| same_ignoring_ascii_case(path, "C:\\Program Files"@)
    ||| same_ignoring_ascii_case(path, "C:\\Program Files (x86)"@)
    ||| same_ignoring_ascii_case(path, "C:\\ProgramData"@)
    ||| same_ignoring_ascii_case(path, "C:\\"@)
    ||| same_ignoring_ascii_case(path, "C:\\Users"@)
}

/// A drive root such as `D:\`: at most three bytes long and ending in `:\`.
pub open spec fn is_drive_root(path: Seq<char>) -> bool {
    encode_utf8(path).len() <= 3 && has_suffix(path, ":\\"@)
}

/// `path` names a protected directory of `platform`.
pub open spec fn protected_on(platform: Platform, path: Seq<char>) -> bool {
    match platform {
        Platform::Unix => protected_on_unix(path),
        Platform::Windows => protected_on_windows(path),
    }
}

/// Both paths are known and have the same components.
pub open spec fn same_place(a: Option<ResolvedModel>, b: Option<ResolvedModel>) -> bool {
    a is Some && b is Some && a->0.components == b->0.components
}

/// The sentence that explains why a system directory is refused.
pub open spec fn system_directory_reason(path: Seq<char>) -> Seq<char> {
    "'"@ + path + "' is a system directory - deleting it could break your system"@
}

/// The sentence that explains why the working directory is refused.
pub open spec fn current_directory_reason(path: Seq<char>) -> Seq<char> {
    "'"@ + path + "' contains or is your current working directory"@
}

impl FactsModel {
    /// The target is a protected system directory: its path as given or in
    /// canonical form is on the platform's list, or it is a Windows drive
    /// root, or it is the user's home or profile directory.
    pub open spec fn is_system_directory(self) -> bool {
        ||| protected_on(self.platform, self.path)
        ||| self.canonical is Some && protected_on(self.platform, self.canonical->0.text)
        ||| self.platform == Platform::Windows && is_drive_root(self.path)
        ||| same_place(self.canonical, self.home)
        ||| self.platform == Platform::Windows && same_place(self.canonical, self.user_profile)
    }

    /// The target is the current working directory or one of its ancestors.
    /// Nothing is found where the working directory or one of the canonical
    /// forms is not known.
    pub open spec fn is_in_current_directory(self) -> bool {
        &&& self.current_dir is Some
        &&& self.canonical is Some
        &&& self.current_dir_canonical is Some
        &&& (self.canonical->0.components == self.current_dir_canonical->0.components
            || self.canonical->0.components.is_prefix_of(self.current_dir->0.components))
    }

    /// Why deleting the target would be dangerous, if it would.
    pub open spec fn danger_reason(self) -> Option<Seq<char>> {
        if self.is_system_directory() {
            Some(system_directory_reason(self.path))
        } else if self.is_in_current_directory() {
            Some(current_directory_reason(self.path))
        } else {
            None
        }
    }

    /// The verdict of the safety check. A system directory cannot be overridden.
    pub open spec fn verdict(self) -> Verdict {
        match self.danger_reason() {
            Some(reason) => Verdict::Dangerous {
                reason,
                can_override: !self.is_system_directory(),
            },
            None => Verdict::Safe,
        }
    }
}

impl PathFacts {
    /// The facts about `path` on `platform` when nothing else is known.
    pub fn new(platform: Platform, path: String) -> (facts: PathFacts)
        ensures
            facts@ == (FactsModel {
                platform,
                path: path@,
                canonical: None,
                home: None,
                user_profile: None,
                current_dir: None,
                current_dir_canonical: None,
            }),
    {
        PathFacts {
            platform,
            path,
            canonical: None,
            home: None,
            user_profile: None,
            current_dir: None,
            current_dir_canonical: None,
        }
    }
}

/// Whether `text` reads `literal`.
fn reads(text: &String, literal: &str) -> (same: bool)
    ensures
        same == (text@ == literal@),
{
    let other = String::from_str(literal);
    *text == other
}

fn is_protected_unix(path: &String) -> (protected: bool)
    ensures
        protected == protected_on_unix(path@),
{
    reads(path, "/") || reads(path, "/bin") || reads(path, "/boot") || reads(path, "/dev")
        || reads(path, "/etc") || reads(path, "/lib") || reads(path, "/lib64") || reads(
        path,
        "/proc",
    ) || reads(path, "/root") || reads(path, "/sbin") || reads(path, "/sys") || reads(
        path,
        "/usr",
    ) || reads(path, "/var")
}

fn is_protected_windows(path: &str) -> (protected: bool)
    ensures
        protected == protected_on_windows(path@),
{
    text_eq_ignore_ascii_case(path, "C:\\Windows") || text_eq_ignore_ascii_case(
        path,
        "C:\\Windows\\System32",
    ) || text_eq_ignore_ascii_case(path, "C:\\Program Files") || text_eq_ignore_ascii_case(
        path,
        "C:\\Program Files (x86)",
    ) || text_eq_ignore_ascii_case(path, "C:\\ProgramData") || text_eq_ignore_ascii_case(
        path,
        "C:\\",
    ) || text_eq_ignore_ascii_case(path, "C:\\Users")
}

fn is_protected(platform: Platform, path: &String) -> (protected: bool)
    ensures
        protected == protected_on(platform, path@),
{
    match platform {
        Platform::Unix => is_protected_unix(path),
        Platform::Windows => is_protected_windows(path.as_str()),
    }
}

/// Whether `prefix` is the beginning of `whole`, component by component.
fn components_start_with(whole: &Vec<String>, prefix: &Vec<String>) -> (starts: bool)
    ensures
        starts == prefix@.map_values(|c: String| c@).is_prefix_of(
            whole@.map_values(|c: String| c@),
        ),
{
    let ghost w = whole@.map_values(|c: String| c@);
    let ghost p = prefix@.map_values(|c: String| c@);
    if prefix.len() > whole.len() {
        return false;
    }
    let mut i: usize = 0;
    while i < prefix.len()
        invariant
            i <= prefix.len() <= whole.len(),
            w == whole@.map_values(|c: String| c@),
            p == prefix@.map_values(|c: String| c@),
            forall|k: int| 0 <= k < i ==> p[k] == w[k],
        decreases prefix.len() - i,
    {
        if prefix[i] != whole[i] {
            assert(p[i as int] != w[i as int]);
            return false;
        }
        i += 1;
    }
    true
}

/// Whether both paths are known and are the same, component by component.
fn same_resolved(a: &Option<ResolvedPath>, b: &Option<ResolvedPath>) -> (same: bool)
    ensures
        same == same_place(resolved_view(*a), resolved_view(*b)),
{
    match (a, b) {
        (Some(left), Some(right)) => {
            let ghost l = left@.components;
            let ghost r = right@.components;
            if left.components.len() != right.components.len() {
                assert(l.len() != r.len());
                return false;
            }
            let forward = components_start_with(&left.components, &right.components);
            proof {
                if forward {
                    assert(l =~= r.subrange(0, r.len() as int).subrange(0, l.len() as int));
                    assert(r.subrange(0, r.len() as int) =~= r);
                }
            }
            forward
        },
        _ => false,
    }
}

/// Check if a path is a protected system directory.
pub fn is_system_directory(facts: &PathFacts) -> (protected: bool)
    ensures
        protected == facts@.is_system_directory(),
{
    let path = facts.path.as_str();
    if is_protected(facts.platform, &facts.path) {
        return true;
    }
    if let Some(canonical) = &facts.canonical {
        if is_protected(facts.platform, &canonical.text) {
            return true;
        }
    }
    if facts.platform == Platform::Windows {
        // A drive root (C:\, D:\, etc.)
        if path.as_bytes().len() <= 3 && text_ends_with(path, ":\\") {
            return true;
        }
    }
    if same_resolved(&facts.canonical, &facts.home) {
        return true;
    }
    if facts.platform == Platform::Windows {
        if same_resolved(&facts.canonical, &facts.user_profile) {
            return true;
        }
    }
    false
}

/// Check if path is the current working directory or holds it.
pub fn is_in_current_directory(facts: &PathFacts) -> (inside: bool)
    ensures
        inside == facts@.is_in_current_directory(),
{
    if let Some(cwd) = &facts.current_dir {
        if let Some(target) = &facts.canonical {
            if facts.current_dir_canonical.is_some() {
                return same_resolved(&facts.canonical, &facts.current_dir_canonical)
                    || components_start_with(&cwd.components, &target.components);
            }
        }
    }
    false
}

/// Get a human-readable description of why a path might be dangerous.
pub fn get_danger_reason(facts: &PathFacts) -> (reason: Option<String>)
    ensures
        match reason {
            Some(text) => facts@.danger_reason() == Some(text@),
            None => facts@.danger_reason() is None,
        },
{
    if is_system_directory(facts) {
        let mut text = String::from_str("'");
        text.append(facts.path.as_str());
        text.append("' is a system directory - deleting it could break your system");
        return Some(text);
    }
    if is_in_current_directory(facts) {
        let mut text = String::from_str("'");
        text.append(facts.path.as_str());
        text.append("' contains or is your current working directory");
        return Some(text);
    }
    None
}

/// Perform comprehensive safety checks on a path.
pub fn check_path_safety(facts: &PathFacts) -> (check: SafetyCheck)
    ensures
        check@ == facts@.verdict(),
{
    if let Some(reason) = get_danger_reason(facts) {
        SafetyCheck::Dangerous {
            reason,
            can_override: !is_system_directory(facts),  // System dirs cannot be overridden
        }
    } else {
        SafetyCheck::Safe
    }
}

} // verus!
