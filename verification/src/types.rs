//! The entries of the store and the summary that describes it.

use vstd::prelude::*;
use crate::keymap::KeyMap;

verus! {

/// Whether a lifetime that ends at `expires_at` is over at `now`: an entry
/// is still alive during the second in which it expires.
pub open spec fn expired_at(expires_at: Option<u64>, now: u64) -> bool {
    match expires_at {
        Some(t) => now > t,
        None => false,
    }
}

/// The end of a lifetime of `ttl` seconds that starts at `now`; one that
/// would end past the last representable second ends there.
pub open spec fn expiry(now: u64, ttl: Option<u64>) -> Option<u64> {
    match ttl {
        Some(t) => Some(
            if now + t <= u64::MAX {
                (now + t) as u64
            } else {
                u64::MAX
            },
        ),
        None => None,
    }
}

/// An entry as a mathematical value.
pub struct EntryView {
    pub value: Seq<u8>,
    pub created_at: u64,
    pub expires_at: Option<u64>,
}

/// One stored value with its creation time and, optionally, the second at
/// which it expires.
#[derive(Debug, Clone)]
pub struct Entry {
    /// The encoded value.
    pub value: Vec<u8>,
    /// When the entry was written, in seconds.
    pub created_at: u64,
    /// The last second in which the entry is alive; `None` for never.
    pub expires_at: Option<u64>,
}

impl View for Entry {
    type V = EntryView;

    open spec fn view(&self) -> EntryView {
        EntryView { value: self.value@, created_at: self.created_at, expires_at: self.expires_at }
    }
}

impl Entry {
    /// An entry holding `value`.
    pub fn new(value: Vec<u8>, created_at: u64, expires_at: Option<u64>) -> (e: Self)
        ensures
            e@ == (EntryView { value: value@, created_at, expires_at }),
    {
        Entry { value, created_at, expires_at }
    }

    /// Whether the entry's lifetime is over at `now`.
    pub fn is_expired(&self, now: u64) -> (b: bool)
        ensures
            b == expired_at(self.expires_at, now),
    {
        match self.expires_at {
            Some(expire_time) => now > expire_time,
            None => false,
        }
    }
}

/// Computes `expiry(now, ttl)`.
pub fn expiry_of(now: u64, ttl: Option<u64>) -> (r: Option<u64>)
    ensures
        r == expiry(now, ttl),
{
    match ttl {
        Some(t) => Some(now.saturating_add(t)),
        None => None,
    }
}

/// All entries of the store, by key.
pub type Store = KeyMap<Entry>;

/// A summary of the store.
#[derive(Debug, Clone)]
pub struct StoreInfo {
    /// Keys whose entries are alive.
    pub key_count: usize,
    /// All entries, expired ones not yet cleaned up included.
    pub total_entries: usize,
    /// The capacity bound, if any.
    pub capacity: Option<usize>,
    /// The file the store is saved to.
    pub file_path: String,
}

} // verus!
