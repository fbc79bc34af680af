//! Sets of blocks that are under way: piece and begin, none twice.

use vstd::prelude::*;

use crate::piece::BlockRequest;
use crate::pieces::min;
use crate::sequences::push_contains;
use crate::swarm::{blocks_to_ask, name_of, names_of};

verus! {

/// Whether a name is among names.
pub fn contains_name(names: &Vec<(u32, u32)>, index: u32, begin: u32) -> (res: bool)
    ensures
        res == names@.to_set().contains((index, begin)),
{
    let mut i: usize = 0;
    while i < names.len()
        invariant
            i <= names@.len(),
            forall|k: int| 0 <= k < i ==> #[trigger] names@[k] != (index, begin),
        decreases names.len() - i,
    {
        if names[i].0 == index && names[i].1 == begin {
            assert(names@[i as int] == (index, begin));
            return true;
        }
        i += 1;
    }
    false
}

/// Whether a block of a piece is among names.
pub fn contains_piece(names: &Vec<(u32, u32)>, index: u32) -> (res: bool)
    ensures
        res == exists|begin: u32| names@.to_set().contains((index, begin)),
{
    let mut i: usize = 0;
    while i < names.len()
        invariant
            i <= names@.len(),
            forall|k: int| 0 <= k < i ==> (#[trigger] names@[k]).0 != index,
        decreases names.len() - i,
    {
        if names[i].0 == index {
            proof {
                let n = names@[i as int];
                assert(names@.to_set().contains((n.0, n.1)));
            }
            return true;
        }
        i += 1;
    }
    proof {
        assert forall|begin: u32| !names@.to_set().contains((index, begin)) by {
            if names@.to_set().contains((index, begin)) {
                let k = choose|k: int| 0 <= k < names@.len() && names@[k] == (index, begin);
                assert(names@[k].0 == index);
            }
        }
    }
    false
}

/// Those of the needed blocks to ask for: not under way yet, and only as many as there is room
/// for.
pub fn select_blocks(needed: &Vec<BlockRequest>, inflight: &Vec<(u32, u32)>, room: usize) -> (res: Vec<
    BlockRequest,
>)
    ensures
        res@ == blocks_to_ask(needed@, inflight@.to_set(), room as int),
{
    let ghost pred = |b: BlockRequest| !inflight@.to_set().contains(name_of(b));
    let ghost open = needed@.filter(pred);
    let mut res: Vec<BlockRequest> = Vec::new();
    let mut i: usize = 0;
    proof {
        reveal(Seq::filter);
        assert(needed@.take(0) =~= Seq::empty());
    }
    while i < needed.len() && res.len() < room
        invariant
            i <= needed@.len(),
            res.len() <= room,
            pred == (|b: BlockRequest| !inflight@.to_set().contains(name_of(b))),
            res@ == needed@.take(i as int).filter(pred),
        decreases needed.len() - i,
    {
        let b: BlockRequest = needed[i];
        proof {
            reveal(Seq::filter);
            assert(needed@.take(i + 1).drop_last() =~= needed@.take(i as int));
            assert(needed@.take(i + 1).last() == b);
            assert(pred(b) == !inflight@.to_set().contains(name_of(b)));
        }
        if !contains_name(inflight, b.index, b.begin) {
            res.push(b);
        }
        i += 1;
    }
    proof {
        filter_prefix(needed@, pred, i as int);
        if i == needed@.len() {
            assert(needed@.take(i as int) =~= needed@);
        }
        assert(res@ =~= open.take(min(room as int, open.len() as int)));
    }
    res
}

/// What is kept of the first items is the beginning of what is kept of all of them.
proof fn filter_prefix(s: Seq<BlockRequest>, pred: spec_fn(BlockRequest) -> bool, k: int)
    requires
        0 <= k <= s.len(),
    ensures
        s.take(k).filter(pred).len() <= s.filter(pred).len(),
        s.take(k).filter(pred) == s.filter(pred).take(s.take(k).filter(pred).len() as int),
    decreases s.len(),
{
    reveal(Seq::filter);
    if k == s.len() {
        assert(s.take(k) =~= s);
        assert(s.filter(pred).take(s.filter(pred).len() as int) =~= s.filter(pred));
    } else {
        filter_prefix(s.drop_last(), pred, k);
        assert(s.drop_last().take(k) =~= s.take(k));
        let n = s.take(k).filter(pred).len() as int;
        assert(s.filter(pred).take(n) =~= s.drop_last().filter(pred).take(n));
    }
}

/// Adds the names of blocks to names, none twice.
pub fn add_names(names: &mut Vec<(u32, u32)>, blocks: &Vec<BlockRequest>)
    requires
        old(names)@.no_duplicates(),
    ensures
        final(names)@.no_duplicates(),
        final(names)@.to_set() == old(names)@.to_set().union(names_of(blocks@)),
{
    let ghost before = names@.to_set();
    let ghost all = blocks@.map_values(|b: BlockRequest| name_of(b));
    let mut i: usize = 0;
    proof {
        assert(all.take(0) =~= Seq::empty());
        assert(before.union(all.take(0).to_set()) =~= before);
    }
    while i < blocks.len()
        invariant
            i <= blocks@.len(),
            all == blocks@.map_values(|b: BlockRequest| name_of(b)),
            names@.no_duplicates(),
            names@.to_set() == before.union(all.take(i as int).to_set()),
        decreases blocks.len() - i,
    {
        let ghost known = names@;
        let index: u32 = blocks[i].index;
        let begin: u32 = blocks[i].begin;
        let ghost name = (index, begin);
        proof {
            assert(all[i as int] == name);
            assert(all.take(i + 1) =~= all.take(i as int).push(name));
            push_to_set(all.take(i as int), name);
        }
        if !contains_name(names, index, begin) {
            names.push((index, begin));
            proof {
                push_to_set(known, name);
                assert(names@ =~= known.push(name));
                assert(names@.no_duplicates()) by {
                    assert(!known.contains(name)) by {
                        if known.contains(name) {
                            assert(known.to_set().contains(name));
                        }
                    }
                }
            }
        }
        assert(names@.to_set() =~= before.union(all.take(i + 1).to_set()));
        i += 1;
    }
    assert(all.take(i as int) =~= all);
}

proof fn push_to_set(s: Seq<(u32, u32)>, x: (u32, u32))
    ensures
        s.push(x).to_set() == s.to_set().insert(x),
{
    push_contains(s, x);
    assert forall|y: (u32, u32)| s.push(x).to_set().contains(y) == s.to_set().insert(x).contains(y) by {
        assert(s.push(x).to_set().contains(y) == s.push(x).contains(y));
    }
    assert(s.push(x).to_set() =~= s.to_set().insert(x));
}

/// Removes a name from names.
pub fn remove_name(names: &mut Vec<(u32, u32)>, index: u32, begin: u32)
    requires
        old(names)@.no_duplicates(),
    ensures
        final(names)@.no_duplicates(),
        final(names)@.to_set() == old(names)@.to_set().remove((index, begin)),
{
    let ghost before = names@;
    let ghost name = (index, begin);
    let mut i: usize = 0;
    while i < names.len()
        invariant
            i <= names@.len(),
            names@ == before,
            before.no_duplicates(),
            before == old(names)@,
            name == (index, begin),
            forall|k: int| 0 <= k < i ==> #[trigger] before[k] != name,
        decreases names.len() - i,
    {
        if names[i].0 == index && names[i].1 == begin {
            let _ = names.remove(i);
            proof {
                assert(before[i as int] == name);
                assert(names@ =~= before.remove(i as int));
                assert forall|x: (u32, u32)| names@.to_set().contains(x) == before.to_set().remove(
                    name,
                ).contains(x) by {
                    if names@.contains(x) {
                        let k = choose|k: int| 0 <= k < names@.len() && names@[k] == x;
                        if k < i {
                            assert(before[k] == x);
                        } else {
                            assert(before[k + 1] == x);
                        }
                    }
                    if before.contains(x) && x != name {
                        let k = choose|k: int| 0 <= k < before.len() && before[k] == x;
                        if k < i {
                            assert(names@[k] == x);
                        } else {
                            assert(names@[k - 1] == x);
                        }
                    }
                }
                assert(names@.to_set() =~= before.to_set().remove(name));
            }
            return ;
        }
        i += 1;
    }
    proof {
        assert(!before.to_set().contains(name)) by {
            if before.contains(name) {
                let k = choose|k: int| 0 <= k < before.len() && before[k] == name;
                assert(before[k] == name);
            }
        }
        assert(before.to_set().remove(name) =~= before.to_set());
    }
}

/// The names without those of a piece.
pub fn drop_piece(names: Vec<(u32, u32)>, index: u32) -> (res: Vec<(u32, u32)>)
    ensures
        names@.no_duplicates() ==> res@.no_duplicates(),
        res@.to_set() == names@.to_set().filter(|n: (u32, u32)| n.0 != index),
{
    let mut res: Vec<(u32, u32)> = Vec::new();
    let mut i: usize = 0;
    let ghost distinct = names@.no_duplicates();
    while i < names.len()
        invariant
            i <= names@.len(),
            distinct == names@.no_duplicates(),
            distinct ==> res@.no_duplicates(),
            forall|x: (u32, u32)| #[trigger]
                res@.contains(x) <==> x.0 != index && names@.take(i as int).contains(x),
        decreases names.len() - i,
    {
        let ghost known = res@;
        let ghost sofar = names@.take(i as int);
        let name: (u32, u32) = names[i];
        proof {
            assert(names@.take(i + 1) =~= sofar.push(name));
            push_contains(sofar, name);
            push_contains(known, name);
            if distinct && sofar.contains(name) {
                let k = choose|k: int| 0 <= k < sofar.len() && sofar[k] == name;
                assert(names@[k] == names@[i as int]);
            }
        }
        if name.0 != index {
            assert(distinct ==> !known.contains(name));
            res.push(name);
            assert(res@ =~= known.push(name));
        }
        assert forall|x: (u32, u32)| #[trigger]
            res@.contains(x) <==> x.0 != index && names@.take(i + 1).contains(x) by {
            assert(sofar.push(name).contains(x) <==> x == name || sofar.contains(x));
            assert(known.contains(x) <==> x.0 != index && sofar.contains(x));
            assert(known.push(name).contains(x) <==> x == name || known.contains(x));
        }
        i += 1;
    }
    proof {
        assert(names@.take(i as int) =~= names@);
        let kept = names@.to_set().filter(|n: (u32, u32)| n.0 != index);
        assert forall|x: (u32, u32)| res@.to_set().contains(x) == kept.contains(x) by {
            assert(res@.contains(x) <==> x.0 != index && names@.contains(x));
        }
        assert(res@.to_set() =~= kept);
    }
    res
}

} // verus!
