//! The decisions the top-level operations make between their
//! filesystem and network steps. The steps themselves (prompting,
//! downloading, deleting) run outside; given their outcomes, what
//! happens next is decided here, so that declining a prompt provably
//! changes nothing.

use vstd::prelude::*;

verus! {

/// What an install request does.
#[derive(Clone, Copy, PartialEq, Eq, Structural, Debug)]
pub enum InstallDecision {
    /// The version stays as it is and the caller reports that nothing
    /// changed.
    NoOp,
    /// The version is (re)installed and becomes active.
    Install,
}

/// Decides an install request: an already-installed version is only
/// reinstalled with the user's confirmation.
pub fn decide_install(already_installed: bool, confirmed_reinstall: bool) -> (r: InstallDecision)
    ensures
        r == (if already_installed && !confirmed_reinstall {
            InstallDecision::NoOp
        } else {
            InstallDecision::Install
        }),
{
    if already_installed && !confirmed_reinstall {
        InstallDecision::NoOp
    } else {
        InstallDecision::Install
    }
}

/// What an uninstall request does.
#[derive(Clone, Copy, PartialEq, Eq, Structural, Debug)]
pub enum UninstallDecision {
    /// Nothing is removed and the caller reports a no-op.
    NoOp,
    /// The version's directory is deleted and the inventory updated.
    Uninstall,
}

/// Decides an uninstall request: removal happens only with the user's
/// confirmation; declining leaves the state unchanged.
pub fn decide_uninstall(confirmed: bool) -> (r: UninstallDecision)
    ensures
        r == (if confirmed {
            UninstallDecision::Uninstall
        } else {
            UninstallDecision::NoOp
        }),
{
    if confirmed {
        UninstallDecision::Uninstall
    } else {
        UninstallDecision::NoOp
    }
}

/// What a set-default request does.
#[derive(Clone, Copy, PartialEq, Eq, Structural, Debug)]
pub enum DefaultDecision {
    /// The version is installed first, then recorded as the default
    /// and mapped.
    InstallAndUse,
    /// The version is recorded as the default and mapped.
    Use,
    /// Nothing changes.
    NoOp,
}

/// Decides a set-default request: an installed version is used
/// outright; a missing one is installed first, but only with the
/// user's confirmation.
pub fn decide_set_default(installed: bool, confirmed_install: bool) -> (r: DefaultDecision)
    ensures
        r == (if installed {
            DefaultDecision::Use
        } else if confirmed_install {
            DefaultDecision::InstallAndUse
        } else {
            DefaultDecision::NoOp
        }),
{
    if installed {
        DefaultDecision::Use
    } else if confirmed_install {
        DefaultDecision::InstallAndUse
    } else {
        DefaultDecision::NoOp
    }
}

/// What must happen before a command can run.
#[derive(Clone, Copy, PartialEq, Eq, Structural, Debug)]
pub enum ExecPreparation {
    /// The active version is missing and is installed first.
    InstallFirst,
    /// The active version is present; the command runs at once.
    Ready,
}

/// Decides whether running a command must first install the active
/// version.
pub fn decide_exec_preparation(installed: bool) -> (r: ExecPreparation)
    ensures
        r == (if installed {
            ExecPreparation::Ready
        } else {
            ExecPreparation::InstallFirst
        }),
{
    if installed {
        ExecPreparation::Ready
    } else {
        ExecPreparation::InstallFirst
    }
}

} // verus!
