use vstd::prelude::*;

verus! {

/// Where the drop-in `File` creates and opens its files.
#[derive(Clone, Copy, Debug, PartialEq, Eq, Structural)]
pub enum OpenPolicy {
    /// On the file system of the host.
    OnDisk,
    /// In memory: a file is bound to its name but kept nowhere, so that
    /// opening a name gives an empty file whatever was written under it.
    InMemory,
    /// In the backpack that belongs to the calling thread.
    ThreadLocalBackpack,
}

/// The configuration of the drop-in `File` for one thread.
#[derive(Clone, Copy, Debug, PartialEq, Eq, Structural)]
pub struct Config {
    pub open_policy: OpenPolicy,
}

impl Config {
    /// The configuration that routes files through the thread's backpack.
    pub fn thread_local() -> (c: Config)
        ensures
            c.open_policy == OpenPolicy::ThreadLocalBackpack,
    {
        Config { open_policy: OpenPolicy::ThreadLocalBackpack }
    }

    /// Routes files through the thread's backpack from now on.
    pub fn create_thread_local(&mut self) -> (r: &mut Config)
        ensures
            final(self).open_policy == final(r).open_policy,
            r.open_policy == OpenPolicy::ThreadLocalBackpack,
    {
        self.open_policy = OpenPolicy::ThreadLocalBackpack;
        self
    }

    /// Keeps files in memory from now on.
    pub fn create_in_memory(&mut self) -> (r: &mut Config)
        ensures
            final(self).open_policy == final(r).open_policy,
            r.open_policy == OpenPolicy::InMemory,
    {
        self.open_policy = OpenPolicy::InMemory;
        self
    }

    /// Puts files on the file system of the host from now on.
    pub fn create_on_disk(&mut self) -> (r: &mut Config)
        ensures
            final(self).open_policy == final(r).open_policy,
            r.open_policy == OpenPolicy::OnDisk,
    {
        self.open_policy = OpenPolicy::OnDisk;
        self
    }
}

impl Default for Config {
    /// The configuration of a thread that has set none: files are on disk.
    fn default() -> (c: Config)
        ensures
            c.open_policy == OpenPolicy::OnDisk,
    {
        Config { open_policy: OpenPolicy::OnDisk }
    }
}

} // verus!
