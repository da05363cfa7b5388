//! Random numbers, random identifiers and the clock.

use std::time::UNIX_EPOCH;
use vstd::prelude::*;

use crate::crypto::hex_text;
use crate::shared::Uuid;

verus! {

/// The bytes of a random (version 4) UUID: the version and the variant are fixed.
pub open spec fn is_v4(id: Seq<u8>) -> bool {
    id.len() == 16 && id[6] / 16 == 4 && id[8] / 64 == 2
}

/// [`uuid::Uuid::new_v4`]: sixteen random bytes with the version and the variant set.
/// It panics only where the operating system has no randomness to give.
#[verifier::external_body]
pub(crate) fn random_uuid() -> (res: Uuid)
    ensures
        is_v4(res@),
{
    *uuid::Uuid::new_v4().as_bytes()
}

/// [`uuid::Uuid::as_simple`] written out: the sixteen bytes in lower-case hexadecimal,
/// without hyphens.
#[verifier::external_body]
pub(crate) fn uuid_simple(id: &Uuid) -> (res: String)
    ensures
        res@ == hex_text(id@),
{
    uuid::Uuid::from_bytes(*id).as_simple().to_string()
}

/// [`fastrand::usize`] over `..bound`: some number below the bound. The range must not
/// be empty.
#[verifier::external_body]
pub(crate) fn random_below(bound: usize) -> (res: usize)
    requires
        0 < bound,
    ensures
        res < bound,
{
    fastrand::usize(..bound)
}

/// [`std::time::SystemTime::elapsed`] of the Unix epoch, in whole seconds; `None` for a
/// clock set before it. Nothing is stated of the time.
#[verifier::external_body]
pub(crate) fn unix_seconds() -> (res: Option<u64>) {
    UNIX_EPOCH.elapsed().ok().map(|elapsed| elapsed.as_secs())
}

/// Whether two identifiers have the same bytes.
fn same_uuid(a: &Uuid, b: &Uuid) -> (res: bool)
    ensures
        res == (a@ == b@),
{
    let mut i: usize = 0;
    while i < 16
        invariant
            i <= 16,
            forall|j: int| 0 <= j < i ==> #[trigger] a@[j] == b@[j],
        decreases 16 - i,
    {
        if a[i] != b[i] {
            assert(a@[i as int] != b@[i as int]);
            return false;
        }
        i = i + 1;
    }
    assert(a@ =~= b@);
    true
}

/// The number that an identifier was made of.
pub open spec fn number_in(id: Seq<u8>) -> int {
    id[0] + 0x100 * (id[1] + 0x100 * (id[2] + 0x100 * (id[3] + 0x100 * (id[4] + 0x100 * (id[5]
        + 0x100 * (id[9] + 0x100 * id[10]))))))
}

/// An identifier made of a number, with the version and the variant set.
pub(crate) fn numbered_uuid(n: u64) -> (res: Uuid)
    ensures
        is_v4(res@),
        number_in(res@) == n,
{
    let n1: u64 = n / 256;
    let n2: u64 = n1 / 256;
    let n3: u64 = n2 / 256;
    let n4: u64 = n3 / 256;
    let n5: u64 = n4 / 256;
    let n6: u64 = n5 / 256;
    let n7: u64 = n6 / 256;
    let id: Uuid = [
        (n % 256) as u8,
        (n1 % 256) as u8,
        (n2 % 256) as u8,
        (n3 % 256) as u8,
        (n4 % 256) as u8,
        (n5 % 256) as u8,
        0x40,
        0,
        0x80,
        (n6 % 256) as u8,
        (n7 % 256) as u8,
        0,
        0,
        0,
        0,
        0,
    ];
    id
}

/// A random identifier other than a given one.
pub(crate) fn other_uuid(than: &Uuid) -> (res: Uuid)
    ensures
        is_v4(res@),
        res@ != than@,
{
    let mut left: u64 = u64::MAX;
    while left > 0
        decreases left,
    {
        let id: Uuid = random_uuid();
        if !same_uuid(&id, than) {
            return id;
        }
        left = left - 1;
    }
    let first: Uuid = numbered_uuid(0);
    if same_uuid(&first, than) {
        numbered_uuid(1)
    } else {
        first
    }
}

} // verus!
