use vstd::prelude::*;

use crate::fileset::FileSet;
use crate::pkgutil::PkgUtil;
use crate::text::copy_str;

verus! {

/// Why a package may not be installed.
#[derive(Debug)]
pub enum InstallError {
    /// The package is installed and no upgrade was asked for.
    AlreadyInstalled { name: String },
    /// An upgrade was asked for a package that is not installed.
    NotInstalled { name: String },
    /// Files of the package conflict with other packages or the disk, and
    /// overwriting was not forced.
    Conflicts { name: String },
}

/// The outcome of the install checks: `None` when the package may be
/// installed, otherwise which check refuses it (0: already installed,
/// 1: not installed, 2: conflicts).
pub open spec fn install_refusal(installed: bool, upgrade: bool, force: bool, conflicts: nat) -> Option<u8> {
    if installed && !upgrade {
        Some(0u8)
    } else if !installed && upgrade {
        Some(1u8)
    } else if conflicts > 0 && !force {
        Some(2u8)
    } else {
        None
    }
}

/// Installs and upgrades packages.
pub struct PkgAdd {
    pub util: PkgUtil,
}

impl PkgAdd {
    /// An installer for `root`, with an empty database.
    pub fn new(root: String) -> (r: PkgAdd)
        ensures
            r.util.wf(),
            r.util.db() == Map::<Seq<char>, crate::metadata::InstalledPkg>::empty(),
            r.util.root_spec() == root@,
    {
        PkgAdd { util: PkgUtil::new(root) }
    }

    /// Whether package `name` may be installed: an installed package only
    /// with `upgrade`, an upgrade only of an installed package, and a
    /// package with conflicting files only with `force`.
    pub fn check_install(util: &PkgUtil, name: &str, upgrade: bool, force: bool, conflicts: &FileSet) -> (r: Result<(), InstallError>)
        requires
            util.wf(),
        ensures
            match install_refusal(util.db().contains_key(name@), upgrade, force, conflicts@.len()) {
                None => r is Ok,
                Some(0u8) => r matches Err(InstallError::AlreadyInstalled { name: n }) && n@ == name@,
                Some(1u8) => r matches Err(InstallError::NotInstalled { name: n }) && n@ == name@,
                Some(_) => r matches Err(InstallError::Conflicts { name: n }) && n@ == name@,
            },
    {
        let installed = util.db_find_package(name);
        if installed && !upgrade {
            Err(InstallError::AlreadyInstalled { name: copy_str(name) })
        } else if !installed && upgrade {
            Err(InstallError::NotInstalled { name: copy_str(name) })
        } else if conflicts.len() > 0 && !force {
            Err(InstallError::Conflicts { name: copy_str(name) })
        } else {
            Ok(())
        }
    }
}


/// An install goes ahead exactly when an upgrade is asked for if and only if
/// the package is installed, and no file conflicts unless overwriting is
/// forced; in particular a conflicting file without `force` refuses an
/// upgrade as much as a first install.
pub proof fn law_install_allowed(installed: bool, upgrade: bool, force: bool, conflicts: nat)
    ensures
        install_refusal(installed, upgrade, force, conflicts) is None <==> (installed == upgrade && (conflicts == 0
            || force)),
        conflicts > 0 && !force ==> install_refusal(installed, upgrade, force, conflicts) is Some,
        installed && !upgrade ==> install_refusal(installed, upgrade, force, conflicts) == Some(0u8),
        !installed && upgrade ==> install_refusal(installed, upgrade, force, conflicts) == Some(1u8),
        installed == upgrade && conflicts > 0 && !force ==> install_refusal(installed, upgrade, force, conflicts)
            == Some(2u8),
{
}

} // verus!
