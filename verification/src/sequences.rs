//! Facts about sequences.

use vstd::prelude::*;

verus! {

/// What a sequence contains once an item is appended.
pub proof fn push_contains<A>(s: Seq<A>, x: A)
    ensures
        forall|y: A| #[trigger] s.push(x).contains(y) <==> y == x || s.contains(y),
{
    assert forall|y: A| #[trigger] s.push(x).contains(y) <==> y == x || s.contains(y) by {
        if y == x {
            assert(s.push(x)[s.len() as int] == y);
        }
        if s.contains(y) {
            let k = choose|k: int| 0 <= k < s.len() && s[k] == y;
            assert(s.push(x)[k] == y);
        }
        if s.push(x).contains(y) {
            let k = choose|k: int| 0 <= k < s.push(x).len() && s.push(x)[k] == y;
            if k < s.len() {
                assert(s[k] == y);
            }
        }
    }
}

} // verus!
