use vstd::prelude::*;

use crate::fileset::views_of;
use crate::order::strictly_sorted;
use crate::pkgutil::{PkgUtil, files_of, files_of_others};
use crate::text::copy_str;

verus! {

/// Why a package could not be removed.
#[derive(Debug)]
pub enum RemoveError {
    /// No package of this name is installed.
    NotInstalled { name: String },
}

/// Removes packages.
pub struct PkgRm {
    pub util: PkgUtil,
}

impl PkgRm {
    /// A remover for `root`, with an empty database.
    pub fn new(root: String) -> (r: PkgRm)
        ensures
            r.util.wf(),
            r.util.db() == Map::<Seq<char>, crate::metadata::InstalledPkg>::empty(),
            r.util.root_spec() == root@,
    {
        PkgRm { util: PkgUtil::new(root) }
    }

    /// Forgets the installed package `package` and returns the files to
    /// delete (those no other package owns, last path first); fails when it
    /// is not installed, leaving the database as it was.
    pub fn remove_package(&mut self, package: &str) -> (r: Result<Vec<String>, RemoveError>)
        requires
            old(self).util.wf(),
        ensures
            final(self).util.wf(),
            final(self).util.root_spec() == old(self).util.root_spec(),
            match r {
                Ok(removed) => {
                    &&& old(self).util.db().contains_key(package@)
                    &&& final(self).util.db() == old(self).util.db().remove(package@)
                    &&& views_of(removed@).to_set() == files_of(old(self).util.db(), package@).difference(
                        files_of_others(old(self).util.db(), package@),
                    )
                    &&& strictly_sorted(views_of(removed@).reverse())
                },
                Err(RemoveError::NotInstalled { name }) => {
                    &&& !old(self).util.db().contains_key(package@)
                    &&& name@ == package@
                    &&& final(self).util.db() == old(self).util.db()
                },
            },
    {
        if !self.util.db_find_package(package) {
            return Err(RemoveError::NotInstalled { name: copy_str(package) });
        }
        Ok(self.util.db_remove_package(package))
    }
}

} // verus!
