//! Where local data lives: the per-user data, configuration, and cache
//! directories, and the files kept under the data directory.

use vstd::prelude::*;
use vstd::string::StringExecFns;

verus! {

/// A relative name under a directory, with one `/` between them unless the
/// directory is empty or already ends with one.
pub open spec fn path_join(base: Seq<char>, name: Seq<char>) -> Seq<char> {
    if base.len() == 0 || base.last() == '/' {
        base + name
    } else {
        base + "/"@ + name
    }
}

fn join(base: &str, name: &str) -> (r: String)
    ensures
        r@ == path_join(base@, name@),
{
    broadcast use vstd::string::group_string_axioms;

    let mut path = base.to_owned();
    let n = base.unicode_len();
    if n > 0 && base.get_char(n - 1) != '/' {
        path.append("/");
    }
    path.append(name);
    path
}

/// The local directories of the application.
#[derive(Clone, Debug, PartialEq, Eq)]
pub struct AppPaths {
    data: String,
    config: String,
    cache: String,
}

impl AppPaths {
    /// The data, configuration, and cache directories.
    pub closed spec fn view(&self) -> (Seq<char>, Seq<char>, Seq<char>) {
        (self.data@, self.config@, self.cache@)
    }

    /// Paths rooted in caller-owned directories.
    pub fn injected(data: String, config: String, cache: String) -> (r: Self)
        ensures
            r.view() == (data@, config@, cache@),
    {
        AppPaths { data, config, cache }
    }

    pub fn data(&self) -> (r: &str)
        ensures
            r@ == self.view().0,
    {
        self.data.as_str()
    }

    pub fn config(&self) -> (r: &str)
        ensures
            r@ == self.view().1,
    {
        self.config.as_str()
    }

    pub fn cache(&self) -> (r: &str)
        ensures
            r@ == self.view().2,
    {
        self.cache.as_str()
    }

    /// The database file.
    pub fn database(&self) -> (r: String)
        ensures
            r@ == path_join(self.view().0, "orifude.sqlite3"@),
    {
        join(self.data.as_str(), "orifude.sqlite3")
    }

    /// The file that marks which process owns the data directory.
    pub fn lock(&self) -> (r: String)
        ensures
            r@ == path_join(self.view().0, "orifude.lock"@),
    {
        join(self.data.as_str(), "orifude.lock")
    }

    /// The directory of installed pack files.
    pub fn managed_packs(&self) -> (r: String)
        ensures
            r@ == path_join(self.view().0, "packs"@),
    {
        join(self.data.as_str(), "packs")
    }

    /// The directory where a pack is staged before it is installed.
    pub fn pack_staging(&self) -> (r: String)
        ensures
            r@ == path_join(self.view().0, "pack-staging"@),
    {
        join(self.data.as_str(), "pack-staging")
    }
}

/// The operating system could not name the user's directories.
#[derive(Clone, Copy, Debug, PartialEq, Eq)]
pub struct PathError;

impl PathError {
    pub fn message(self) -> (r: &'static str)
        ensures
            r@ == "the operating system user directories are unavailable"@,
    {
        "the operating system user directories are unavailable"
    }
}

} // verus!
