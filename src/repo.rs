use crate::lockfile::{LockError, Lockfile};
use crate::oid::{hex_text, Oid};
use vstd::prelude::*;

verus! {

/// The identity that commits are made under.
#[derive(Debug)]
pub struct ConfigUser {
    pub name: String,
    pub email: String,
}

/// Settings that the caller supplies to the core.
#[derive(Debug)]
pub struct Config {
    pub user: ConfigUser,
}

impl Config {
    /// Settings for the author `name <email>`.
    pub fn new(name: String, email: String) -> (r: Config)
        ensures
            r.user.name@ == name@,
            r.user.email@ == email@,
    {
        Config { user: ConfigUser { name, email } }
    }
}

/// The working tree whose files are snapshotted.
#[derive(Debug)]
pub struct Workspace {
    pub root: String,
}

impl Workspace {
    /// The working tree rooted at `path`.
    pub fn new(path: String) -> (r: Workspace)
        ensures
            r.root@ == path@,
    {
        Workspace { root: path }
    }
}

/// The single-pointer reference to the latest commit, under a root control
/// directory.
#[derive(Debug)]
pub struct Refs {
    root: String,
}

/// What the head file holds for `oid`: its hex digits and a newline.
pub open spec fn head_text(oid: Seq<u8>) -> Seq<u8> {
    hex_text(oid) + seq![10u8]
}

impl Refs {
    pub closed spec fn root_path(&self) -> Seq<char> {
        self.root@
    }

    /// The references under `root`.
    pub fn new(root: String) -> (r: Refs)
        ensures
            r.root_path() == root@,
    {
        Refs { root }
    }

    /// The root control directory.
    pub fn root(&self) -> (r: &String)
        ensures
            r@ == self.root_path(),
    {
        &self.root
    }

    /// Points the head at `oid` through `lockfile`, the transaction on the
    /// head file: writes the identifier's line and commits. The bytes that
    /// come back go onto the head file by an atomic rename.
    pub fn set_head(&self, oid: &Oid, lockfile: &mut Lockfile) -> (r: Result<Vec<u8>, LockError>)
        ensures
            r is Ok <==> old(lockfile).holding(),
            r is Err ==> r == Err::<Vec<u8>, LockError>(LockError::NotHolding),
            r matches Ok(b) ==> b@ == old(lockfile).pending() + head_text(oid@),
            !final(lockfile).holding(),
    {
        let mut line = oid.hex_bytes();
        line.push(10u8);
        lockfile.write(line.as_slice())?;
        lockfile.commit()
    }
}

} // verus!
