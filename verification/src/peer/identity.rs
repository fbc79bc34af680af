//! The id under which this client appears to others.

use vstd::prelude::*;

use crate::random::random_tail;

verus! {

/// The name and version of this client: "-TE0001-".
pub const CLIENT_PREFIX: [u8; 8] = [45, 84, 69, 48, 48, 48, 49, 45];

/// The id of a client: its name and version, and what tells it from others.
pub fn peer_id_from(tail: [u8; 12]) -> (id: [u8; 20])
    ensures
        id@ == CLIENT_PREFIX@ + tail@,
{
    let prefix: [u8; 8] = CLIENT_PREFIX;
    let mut id: [u8; 20] = [0u8; 20];
    let mut i: usize = 0;
    while i < 20
        invariant
            i <= 20,
            prefix == CLIENT_PREFIX,
            forall|k: int| 0 <= k < i ==> id@[k] == (CLIENT_PREFIX@ + tail@)[k],
        decreases 20 - i,
    {
        id[i] = if i < 8 {
            prefix[i]
        } else {
            tail[i - 8]
        };
        i += 1;
    }
    assert(id@ =~= CLIENT_PREFIX@ + tail@);
    id
}

/// A new id for this client, random but for its name and version.
pub fn generate_peer_id() -> (id: [u8; 20])
    ensures
        id@.take(8) == CLIENT_PREFIX@,
{
    let id: [u8; 20] = peer_id_from(random_tail());
    assert(id@.take(8) =~= CLIENT_PREFIX@);
    id
}

} // verus!
