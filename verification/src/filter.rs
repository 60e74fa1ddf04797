//! The predicate that decides what a parse materialises.

use vstd::prelude::*;

verus! {

/// Three pure queries consulted by the record loop: which databases, value
/// types and keys are materialised. Records the filter turns away are skipped
/// byte-exact instead of decoded.
pub trait Filter: Sized {
    /// Which databases the filter admits. The default admits every one; an
    /// implementation that answers otherwise overrides it.
    open spec fn db_spec(&self, db: u32) -> bool {
        true
    }

    /// Which value-type tags the filter admits.
    open spec fn type_spec(&self, tag: u8) -> bool {
        true
    }

    /// Which keys the filter admits.
    open spec fn key_spec(&self, key: Seq<u8>) -> bool {
        true
    }

    /// Decide a database.
    fn matches_db(&self, db: u32) -> (r: bool)
        ensures
            r == self.db_spec(db),
    ;

    /// Decide a value-type tag.
    fn matches_type(&self, tag: u8) -> (r: bool)
        ensures
            r == self.type_spec(tag),
    ;

    /// Decide a key.
    fn matches_key(&self, key: &Vec<u8>) -> (r: bool)
        ensures
            r == self.key_spec(key@),
    ;
}

/// The filter that admits everything: every record is materialised.
#[derive(Clone, Copy, Debug, PartialEq, Eq, Structural)]
pub struct AllowAllFilter;

impl Filter for AllowAllFilter {
    open spec fn db_spec(&self, db: u32) -> bool {
        true
    }

    open spec fn type_spec(&self, tag: u8) -> bool {
        true
    }

    open spec fn key_spec(&self, key: Seq<u8>) -> bool {
        true
    }

    fn matches_db(&self, db: u32) -> (r: bool) {
        true
    }

    fn matches_type(&self, tag: u8) -> (r: bool) {
        true
    }

    fn matches_key(&self, key: &Vec<u8>) -> (r: bool) {
        true
    }
}

/// The filter that admits nothing: every record is skipped byte-exact.
#[derive(Clone, Copy, Debug, PartialEq, Eq, Structural)]
pub struct DenyAllFilter;

impl Filter for DenyAllFilter {
    open spec fn db_spec(&self, db: u32) -> bool {
        false
    }

    open spec fn type_spec(&self, tag: u8) -> bool {
        false
    }

    open spec fn key_spec(&self, key: Seq<u8>) -> bool {
        false
    }

    fn matches_db(&self, db: u32) -> (r: bool) {
        false
    }

    fn matches_type(&self, tag: u8) -> (r: bool) {
        false
    }

    fn matches_key(&self, key: &Vec<u8>) -> (r: bool) {
        false
    }
}

} // verus!
