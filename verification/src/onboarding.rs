//! Lightweight first-run markers under the XDG state directory.
//!
//! These flags never launch tools and never write into the workspace. They only
//! remember whether the operator has already seen the built-in first-hour help.
use vstd::prelude::*;
use vstd::utf8::*;

use crate::paths::{bytes_option, is_absolute, join, nonempty, path_join, starts_at_root};
use crate::text::copy_text;

verus! {

/// What is remembered between runs.
#[derive(Clone, Copy, Debug, PartialEq, Eq, Structural)]
pub struct OnboardingFile {
    /// Operator has closed (or skipped) the first-run help overlay.
    pub first_run_help_seen: bool,
}

impl Default for OnboardingFile {
    fn default() -> (state: Self)
        ensures
            !state.first_run_help_seen,
    {
        OnboardingFile { first_run_help_seen: false }
    }
}

/// Whether the help is due: it was not asked to be skipped, and the state is
/// either unreadable or says that the help was not seen yet.
pub open spec fn help_due(skip_requested: bool, loaded: Option<OnboardingFile>) -> bool {
    !skip_requested && match loaded {
        Some(state) => !state.first_run_help_seen,
        None => true,
    }
}

/// The state to persist once the help was seen, or nothing where the loaded
/// state already says so.
pub open spec fn seen(loaded: Option<OnboardingFile>) -> Option<OnboardingFile> {
    match loaded {
        Some(state) if state.first_run_help_seen => None,
        _ => Some(OnboardingFile { first_run_help_seen: true }),
    }
}

/// True when the first-run help should open automatically. An unreadable state
/// is `None`.
pub fn should_show_first_run_help(skip_requested: bool, loaded: Option<OnboardingFile>) -> (show:
    bool)
    ensures
        show == help_due(skip_requested, loaded),
{
    if skip_requested {
        return false;
    }
    match loaded {
        Some(state) => !state.first_run_help_seen,
        None => true,
    }
}

/// The state to persist once first-run help was shown or dismissed. An
/// unreadable state is `None`.
pub fn mark_first_run_help_seen(loaded: Option<OnboardingFile>) -> (save: Option<OnboardingFile>)
    ensures
        save == seen(loaded),
{
    let mut state = match loaded {
        Some(state) => state,
        None => OnboardingFile::default(),
    };
    if state.first_run_help_seen {
        return None;
    }
    state.first_run_help_seen = true;
    Some(state)
}

/// Once the help was marked as seen it is due no more, whatever was loaded.
pub proof fn law_marked_help_stays_closed(loaded: Option<OnboardingFile>, skip_requested: bool)
    ensures
        match seen(loaded) {
            Some(saved) => !help_due(skip_requested, Some(saved)),
            None => !help_due(skip_requested, loaded),
        },
{
}

/// Where the state file is: under an absolute `XDG_STATE_HOME`, or else under
/// the home directory.
pub open spec fn onboarding_location(xdg: Option<Seq<u8>>, home: Option<Seq<u8>>) -> Option<
    Seq<u8>,
> {
    match nonempty(xdg) {
        Some(root) if is_absolute(root) => Some(state_file(root)),
        _ => match nonempty(home) {
            Some(base) => Some(state_file(path_join(base, encode_utf8(".local/state"@)))),
            None => None,
        },
    }
}

/// The state file below a state directory.
pub open spec fn state_file(root: Seq<u8>) -> Seq<u8> {
    path_join(path_join(root, encode_utf8("wscrpt"@)), encode_utf8("onboarding.toml"@))
}

/// Resolves where the state file is from the two environment values.
pub fn onboarding_path(xdg_state_home: Option<Vec<u8>>, home: Option<Vec<u8>>) -> (path: Result<
    Vec<u8>,
    String,
>)
    ensures
        match (path, onboarding_location(bytes_option(xdg_state_home), bytes_option(home))) {
            (Ok(bytes), Some(expected)) => bytes@ == expected,
            (Err(reason), None) => reason@ == "HOME and XDG_STATE_HOME are unset"@,
            _ => false,
        },
{
    if let Some(root) = xdg_state_home {
        if starts_at_root(root.as_slice()) {
            return Ok(join(join(root.as_slice(), "wscrpt").as_slice(), "onboarding.toml"));
        }
    }
    match home {
        Some(base) => {
            if base.len() == 0 {
                return Err(copy_text("HOME and XDG_STATE_HOME are unset"));
            }
            let state = join(base.as_slice(), ".local/state");
            Ok(join(join(state.as_slice(), "wscrpt").as_slice(), "onboarding.toml"))
        },
        None => Err(copy_text("HOME and XDG_STATE_HOME are unset")),
    }
}

} // verus!
