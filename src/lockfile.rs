use vstd::prelude::*;

verus! {

/// The path with its extension replaced by `lock`, as
/// `std::path::Path::with_extension` gives it.
pub uninterp spec fn lock_path_of(path: Seq<char>) -> Seq<char>;

/// Relies on std::path::Path::with_extension: the sibling path that names the
/// claim on `path`.
#[verifier::external_body]
fn with_lock_extension(path: &str) -> (r: String)
    ensures
        r@ == lock_path_of(path@),
{
    std::path::Path::new(path).with_extension("lock").to_string_lossy().into_owned()
}

/// A transaction method was called without a held claim.
#[derive(Debug, Clone, Copy, PartialEq, Eq, Structural)]
pub enum LockError {
    NotHolding,
}

/// The state of an atomic file transaction on one target file.
///
/// The claim is the exclusive creation of a sibling lock file, which the
/// caller attempts and reports through `hold_for_update`. Writes are
/// buffered; `commit` hands back the bytes that the caller renames onto the
/// target, and `rollback` leaves the target untouched.
pub struct Lockfile {
    file_path: String,
    lock_path: String,
    held: bool,
    buffer: Vec<u8>,
}

impl Lockfile {
    /// Whether the claim is held.
    pub closed spec fn holding(&self) -> bool {
        self.held
    }

    /// What was written since the claim was taken.
    pub closed spec fn pending(&self) -> Seq<u8> {
        self.buffer@
    }

    /// The path of the target file.
    pub closed spec fn target(&self) -> Seq<char> {
        self.file_path@
    }

    /// The path of the sibling lock file.
    pub closed spec fn lock_target(&self) -> Seq<char> {
        self.lock_path@
    }

    /// A transaction on `file_path`, not yet holding its claim.
    pub fn new(file_path: String) -> (r: Lockfile)
        ensures
            !r.holding(),
            r.pending() == Seq::<u8>::empty(),
            r.target() == file_path@,
            r.lock_target() == lock_path_of(file_path@),
    {
        let lock_path = with_lock_extension(file_path.as_str());
        Lockfile { file_path, lock_path, held: false, buffer: Vec::new() }
    }

    /// The path of the target file.
    pub fn file_path(&self) -> (r: &String)
        ensures
            r@ == self.target(),
    {
        &self.file_path
    }

    /// The path of the sibling lock file.
    pub fn lock_path(&self) -> (r: &String)
        ensures
            r@ == self.lock_target(),
    {
        &self.lock_path
    }

    /// Whether the claim is held.
    pub fn is_held(&self) -> (r: bool)
        ensures
            r == self.holding(),
    {
        self.held
    }

    /// Takes the claim where the exclusive creation of the lock file
    /// succeeded (`created`); a claim already held stays held. Returns
    /// whether the claim is held: `false` means another process holds it.
    pub fn hold_for_update(&mut self, created: bool) -> (r: bool)
        ensures
            r == (old(self).holding() || created),
            final(self).holding() == r,
            old(self).holding() ==> final(self).pending() == old(self).pending(),
            !old(self).holding() ==> final(self).pending() == Seq::<u8>::empty(),
            final(self).target() == old(self).target(),
            final(self).lock_target() == old(self).lock_target(),
    {
        if !self.held {
            self.held = created;
            self.buffer = Vec::new();
        }
        self.held
    }

    /// Appends `content` to what the transaction will install.
    pub fn write(&mut self, content: &[u8]) -> (r: Result<(), LockError>)
        ensures
            r is Ok <==> old(self).holding(),
            r is Err ==> r == Err::<(), LockError>(LockError::NotHolding),
            final(self).holding() == old(self).holding(),
            r is Ok ==> final(self).pending() == old(self).pending() + content@,
            r is Err ==> final(self).pending() == old(self).pending(),
            final(self).target() == old(self).target(),
            final(self).lock_target() == old(self).lock_target(),
    {
        if !self.held {
            return Err(LockError::NotHolding);
        }
        crate::bytes::append(&mut self.buffer, content);
        Ok(())
    }

    /// Ends the transaction by installing what was written: returns those
    /// bytes, which go onto the target by an atomic rename, and releases
    /// the claim.
    pub fn commit(&mut self) -> (r: Result<Vec<u8>, LockError>)
        ensures
            r is Ok <==> old(self).holding(),
            r is Err ==> r == Err::<Vec<u8>, LockError>(LockError::NotHolding) && *final(self)
                == *old(self),
            r matches Ok(v) ==> v@ == old(self).pending(),
            !final(self).holding(),
            final(self).pending() == Seq::<u8>::empty() || r is Err,
            final(self).target() == old(self).target(),
            final(self).lock_target() == old(self).lock_target(),
    {
        if !self.held {
            return Err(LockError::NotHolding);
        }
        self.held = false;
        let content = self.buffer.split_off(0);
        Ok(content)
    }

    /// Ends the transaction without touching the target, and releases the
    /// claim.
    pub fn rollback(&mut self) -> (r: Result<(), LockError>)
        ensures
            r is Ok <==> old(self).holding(),
            r is Err ==> r == Err::<(), LockError>(LockError::NotHolding) && *final(self) == *old(
                self,
            ),
            !final(self).holding(),
            final(self).pending() == Seq::<u8>::empty() || r is Err,
            final(self).target() == old(self).target(),
            final(self).lock_target() == old(self).lock_target(),
    {
        if !self.held {
            return Err(LockError::NotHolding);
        }
        self.held = false;
        self.buffer = Vec::new();
        Ok(())
    }
}

} // verus!
