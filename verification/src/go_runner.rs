use vstd::prelude::*;

verus! {

/// The settings for running the external go toolchain in one
/// directory: the directory and the test timeout in seconds. The
/// toolchain itself runs outside the library.
pub struct GoRunner {
    dir: String,
    timeout_secs: u64,
}

impl GoRunner {
    /// The directory the toolchain runs in.
    pub closed spec fn spec_dir(self) -> Seq<char> {
        self.dir@
    }

    /// The timeout in seconds.
    pub closed spec fn spec_timeout_secs(self) -> u64 {
        self.timeout_secs
    }

    /// Bundles the settings for one toolchain run.
    pub fn new(dir: &str, timeout_secs: u64) -> (r: GoRunner)
        ensures
            r.spec_dir() == dir@,
            r.spec_timeout_secs() == timeout_secs,
    {
        GoRunner { dir: dir.to_owned(), timeout_secs }
    }

    /// Returns the directory the toolchain runs in.
    pub fn dir(&self) -> (r: &String)
        ensures
            r@ == self.spec_dir(),
    {
        &self.dir
    }

    /// Returns the timeout in seconds.
    pub fn timeout_secs(&self) -> (r: u64)
        ensures
            r == self.spec_timeout_secs(),
    {
        self.timeout_secs
    }
}

} // verus!
