//! Process-wide layout constants: the record encoding, the page geometry, and
//! the page-store capacity.  All are fixed at build time; a database file is
//! only compatible between runs that agree on them.

use vstd::prelude::*;

verus! {

/// Width of the record key (`id`) in its encoded form, in bytes.
pub const ID_SIZE: usize = 4;

/// Width of the fixed, zero-padded `username` field, in bytes.
pub const USERNAME_SIZE: usize = 32;

/// Width of the fixed, zero-padded `email` field, in bytes.
pub const EMAIL_SIZE: usize = 255;

/// Offset of the encoded `id` within an encoded record.
pub const ID_OFFSET: usize = 0;

/// Offset of the `username` field within an encoded record.
pub const USERNAME_OFFSET: usize = ID_OFFSET + ID_SIZE;

/// Offset of the `email` field within an encoded record.
pub const EMAIL_OFFSET: usize = USERNAME_OFFSET + USERNAME_SIZE;

/// Total size of an encoded record, in bytes.
pub const ROW_SIZE: usize = ID_SIZE + USERNAME_SIZE + EMAIL_SIZE;

/// Size of one page: the unit of file I/O and of caching.
pub const PAGE_SIZE: usize = 4096;

/// Hard bound on the number of pages a store will ever hold; exceeding it is
/// a bounds error, not a resize.
pub const TABLE_MAX_PAGES: usize = 100;

/// `b` cut or zero-padded to length `n`: the result of reading `n` bytes
/// from a span that may end early, with the remainder zero-filled.
pub open spec fn spec_zero_extend(b: Seq<u8>, n: int) -> Seq<u8>
    recommends
        n >= 0,
{
    Seq::new(n as nat, |i: int| if i < b.len() { b[i] } else { 0u8 })
}

} // verus!
