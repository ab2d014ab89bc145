//! The one depth-first walk both cycle checks share: the graph's edges
//! between node instances and the references between group definitions.
//! Keys are indices into the caller's own table; the walk starts from each
//! root in the order given and follows each key's neighbours in the order
//! stored, so the same graph always names the same cycle.

use vstd::prelude::*;

verus! {

/// Whether `walk` follows the adjacency: each key's successor in the walk
/// is one of its neighbours.
pub open spec fn follows(adjacency: Seq<Vec<usize>>, walk: Seq<usize>) -> bool {
    forall|i: int| 0 <= i < walk.len() - 1 ==> {
        &&& 0 <= #[trigger] walk[i] < adjacency.len()
        &&& adjacency[walk[i] as int]@.contains(walk[i + 1])
    }
}

/// A closed walk: at least one step, back where it started.
pub open spec fn is_cycle(adjacency: Seq<Vec<usize>>, walk: Seq<usize>) -> bool {
    &&& walk.len() >= 2
    &&& walk[0] == walk[walk.len() - 1]
    &&& follows(adjacency, walk)
}

/// A walk along the adjacency from one of the roots to `key`.
pub open spec fn reached_by(adjacency: Seq<Vec<usize>>, roots: Seq<usize>, path: Seq<usize>, key: usize) -> bool {
    &&& path.len() >= 1
    &&& roots.contains(path[0])
    &&& path[path.len() - 1] == key
    &&& follows(adjacency, path)
}

/// No key repeats in the walk but its closing one.
pub open spec fn simple_cycle(walk: Seq<usize>) -> bool {
    forall|i: int, j: int| 0 <= i < j < walk.len() - 1 ==> #[trigger] walk[i] != #[trigger] walk[j]
}

/// Every neighbour names a key of the table.
pub open spec fn well_keyed(adjacency: Seq<Vec<usize>>) -> bool {
    forall|k: int, j: int| 0 <= k < adjacency.len() && 0 <= j < adjacency[k]@.len()
        ==> #[trigger] adjacency[k]@[j] < adjacency.len()
}

/// A key the walk has not reached.
pub const FRESH: u8 = 0;
/// A key on the walk's current path.
pub const ACTIVE: u8 = 1;
/// A key whose every neighbour the walk has finished.
pub const DONE: u8 = 2;

spec fn fresh_count(states: Seq<u8>) -> nat
    decreases states.len(),
{
    if states.len() == 0 {
        0
    } else {
        fresh_count(states.drop_last()) + if states.last() == FRESH { 1nat } else { 0nat }
    }
}

proof fn lemma_fresh_update(states: Seq<u8>, k: int, state: u8)
    requires
        0 <= k < states.len(),
    ensures
        fresh_count(states.update(k, state)) == fresh_count(states)
            - (if states[k] == FRESH { 1int } else { 0int })
            + (if state == FRESH { 1int } else { 0int }),
    decreases states.len(),
{
    if k < states.len() - 1 {
        lemma_fresh_update(states.drop_last(), k, state);
        assert(states.update(k, state).drop_last() =~= states.drop_last().update(k, state));
    } else {
        assert(states.update(k, state).drop_last() =~= states.drop_last());
    }
}

/// What is left to visit on the stack: each entry's neighbours not yet
/// followed.
spec fn remaining(adjacency: Seq<Vec<usize>>, stack: Seq<(usize, usize)>) -> nat
    decreases stack.len(),
{
    if stack.len() == 0 {
        0
    } else {
        let (key, visited) = stack.last();
        remaining(adjacency, stack.drop_last()) + (adjacency[key as int]@.len() - visited) as nat
    }
}

/// The keys of the stack entries.
pub open spec fn keys(stack: Seq<(usize, usize)>) -> Seq<usize> {
    stack.map_values(|entry: (usize, usize)| entry.0)
}

/// Whether some entry of the stack holds `key`.
spec fn on_stack(stack: Seq<(usize, usize)>, key: usize) -> bool {
    exists|i: int| 0 <= i < stack.len() && (#[trigger] stack[i]).0 == key
}

/// Every finished key's neighbours are finished, and finished before it.
spec fn done_closed(adjacency: Seq<Vec<usize>>, states: Seq<u8>, rank: Seq<int>) -> bool {
    forall|k: int, m: int| 0 <= k < states.len() && states[k] == DONE && 0 <= m < adjacency[k]@.len() ==> {
        &&& states[#[trigger] adjacency[k]@[m] as int] == DONE
        &&& rank[adjacency[k]@[m] as int] < rank[k]
    }
}

/// Every neighbour an entry of the stack has followed is finished, but for
/// the one its successor on the stack stands for.
spec fn followed_done(adjacency: Seq<Vec<usize>>, states: Seq<u8>, stack: Seq<(usize, usize)>) -> bool {
    forall|i: int, m: int| 0 <= i < stack.len() && 0 <= m < stack[i].1 ==> {
        ||| states[#[trigger] adjacency[stack[i].0 as int]@[m] as int] == DONE
        ||| (i < stack.len() - 1 && m == stack[i].1 - 1 && adjacency[stack[i].0 as int]@[m] == stack[i + 1].0)
    }
}

/// No walk along the adjacency from a finished key returns to it: ranks
/// fall along every step.
proof fn lemma_ranked_walk(adjacency: Seq<Vec<usize>>, states: Seq<u8>, rank: Seq<int>, walk: Seq<usize>, i: int)
    requires
        well_keyed(adjacency),
        states.len() == adjacency.len(),
        rank.len() == adjacency.len(),
        done_closed(adjacency, states, rank),
        follows(adjacency, walk),
        walk.len() >= 1,
        walk[0] < states.len(),
        states[walk[0] as int] == DONE,
        0 <= i < walk.len(),
    ensures
        walk[i] < states.len(),
        states[walk[i] as int] == DONE,
        rank[walk[i] as int] <= rank[walk[0] as int] - i,
    decreases i,
{
    if i > 0 {
        lemma_ranked_walk(adjacency, states, rank, walk, i - 1);
        let k = walk[i - 1] as int;
        assert(0 <= walk[i - 1] < adjacency.len());
        assert(adjacency[k]@.contains(walk[i]));
        let m = choose|m: int| 0 <= m < adjacency[k]@.len() && adjacency[k]@[m] == walk[i];
        assert(adjacency[k]@[m] < adjacency.len());
        assert(states[adjacency[k]@[m] as int] == DONE);
    }
}

/// The walk the stack closes from `position` is simple, and the stack
/// below it reaches its start from the root.
proof fn lemma_stack_walk(adjacency: Seq<Vec<usize>>, roots: Seq<usize>, root: usize, stack: Seq<(usize, usize)>, position: int, walk: Seq<usize>)
    requires
        0 <= position < stack.len(),
        roots.contains(root),
        stack[0].0 == root,
        forall|i: int| 0 <= i < stack.len() ==> (#[trigger] stack[i]).0 < adjacency.len(),
        forall|i: int| 0 <= i < stack.len() - 1 ==> adjacency[(#[trigger] stack[i]).0 as int]@.contains(stack[i + 1].0),
        forall|i: int, j: int| 0 <= i < j < stack.len() ==> (#[trigger] stack[i]).0 != (#[trigger] stack[j]).0,
        walk.len() == stack.len() - position + 1,
        forall|j: int| 0 <= j < walk.len() - 1 ==> #[trigger] walk[j] == stack[position + j].0,
    ensures
        simple_cycle(walk),
        reached_by(adjacency, roots, keys(stack).subrange(0, position + 1), walk[0]),
{
    assert forall|a: int, b: int| 0 <= a < b < walk.len() - 1 implies #[trigger] walk[a] != #[trigger] walk[b] by {
        assert(walk[a] == stack[position + a].0);
        assert(walk[b] == stack[position + b].0);
    }
    let path = keys(stack).subrange(0, position + 1);
    assert(path[0] == root);
    assert(path[path.len() - 1] == stack[position].0);
    assert(walk[0] == stack[position].0);
    assert forall|j: int| 0 <= j < path.len() - 1 implies {
        &&& 0 <= #[trigger] path[j] < adjacency.len()
        &&& adjacency[path[j] as int]@.contains(path[j + 1])
    } by {
        assert(path[j] == stack[j].0);
        assert(path[j + 1] == stack[j + 1].0);
    }
}

/// Where the walk stands: the root it has reached, its path as keys with
/// the count of neighbours each has followed, and each key's state.
pub struct Walk {
    pub root: nat,
    pub stack: Seq<(usize, usize)>,
    pub states: Seq<u8>,
}

/// One step of the walk, or where it ends: the cycle it closed, or none.
pub enum Stride {
    On(Walk),
    Ended(Option<Seq<usize>>),
}

/// The first position on the path holding `key`.
pub open spec fn path_position(stack: Seq<(usize, usize)>, key: usize) -> int {
    choose|p: int| 0 <= p < stack.len() && stack[p].0 == key && forall|q: int| 0 <= q < p ==> #[trigger] stack[q].0 != key
}

/// One step of the depth-first walk. With an empty path it takes up the
/// next root not yet finished; else the key on top follows its next
/// neighbour — closing a cycle on a key active on the path, descending to
/// a fresh one, passing a finished one — or, with none left, is finished.
pub open spec fn stride(adjacency: Seq<Seq<usize>>, roots: Seq<usize>, walk: Walk) -> Stride {
    let stack = walk.stack;
    let states = walk.states;
    if stack.len() == 0 {
        if walk.root >= roots.len() {
            Stride::Ended(None)
        } else {
            let root = roots[walk.root as int];
            if states[root as int] == DONE {
                Stride::On(Walk { root: walk.root + 1, stack, states })
            } else {
                Stride::On(Walk { root: walk.root, stack: seq![(root, 0usize)], states: states.update(root as int, ACTIVE) })
            }
        }
    } else {
        let (current, visited) = stack.last();
        if visited < adjacency[current as int].len() {
            let next = adjacency[current as int][visited as int];
            let moved = stack.update(stack.len() - 1, (current, (visited + 1) as usize));
            if states[next as int] == ACTIVE {
                Stride::Ended(Some(keys(moved).subrange(path_position(moved, next), moved.len() as int).push(next)))
            } else if states[next as int] == FRESH {
                Stride::On(Walk { root: walk.root, stack: moved.push((next, 0usize)), states: states.update(next as int, ACTIVE) })
            } else {
                Stride::On(Walk { root: walk.root, stack: moved, states })
            }
        } else {
            Stride::On(Walk { root: walk.root, stack: stack.drop_last(), states: states.update(current as int, DONE) })
        }
    }
}

/// Where the walk ends within `fuel` steps, if it does.
pub open spec fn walk_end(adjacency: Seq<Seq<usize>>, roots: Seq<usize>, walk: Walk, fuel: nat) -> Option<Option<Seq<usize>>>
    decreases fuel,
{
    if fuel == 0 {
        None
    } else {
        match stride(adjacency, roots, walk) {
            Stride::Ended(found) => Some(found),
            Stride::On(next) => walk_end(adjacency, roots, next, (fuel - 1) as nat),
        }
    }
}

/// The walk's start: no root taken, every key fresh.
pub open spec fn walk_start(adjacency: Seq<Seq<usize>>) -> Walk {
    Walk { root: 0, stack: Seq::empty(), states: Seq::new(adjacency.len(), |k: int| FRESH) }
}

/// The first cycle the depth-first walk from the roots, in order, meets,
/// following each key's neighbours in order: a function of the roots and
/// the adjacency alone.
pub open spec fn first_cycle_of(adjacency: Seq<Seq<usize>>, roots: Seq<usize>) -> Option<Seq<usize>> {
    let start = walk_start(adjacency);
    if exists|fuel: nat| #[trigger] walk_end(adjacency, roots, start, fuel) is Some {
        walk_end(adjacency, roots, start, choose|fuel: nat| #[trigger] walk_end(adjacency, roots, start, fuel) is Some)->0
    } else {
        None
    }
}

/// A walk that ends within some fuel ends the same with more.
proof fn lemma_walk_end_more(adjacency: Seq<Seq<usize>>, roots: Seq<usize>, walk: Walk, fuel: nat, more: nat)
    requires
        walk_end(adjacency, roots, walk, fuel) is Some,
        fuel <= more,
    ensures
        walk_end(adjacency, roots, walk, more) == walk_end(adjacency, roots, walk, fuel),
    decreases fuel,
{
    match stride(adjacency, roots, walk) {
        Stride::Ended(found) => {},
        Stride::On(next) => {
            lemma_walk_end_more(adjacency, roots, next, (fuel - 1) as nat, (more - 1) as nat);
        },
    }
}

/// Once the walk is known to end with `found`, that is its first cycle.
proof fn lemma_first_cycle_of(adjacency: Seq<Seq<usize>>, roots: Seq<usize>, fuel: nat, found: Option<Seq<usize>>)
    requires
        walk_end(adjacency, roots, walk_start(adjacency), fuel) == Some(found),
    ensures
        first_cycle_of(adjacency, roots) == found,
{
    let start = walk_start(adjacency);
    assert(walk_end(adjacency, roots, start, fuel) is Some);
    let f = choose|f: nat| #[trigger] walk_end(adjacency, roots, start, f) is Some;
    if f <= fuel {
        lemma_walk_end_more(adjacency, roots, start, f, fuel);
    } else {
        lemma_walk_end_more(adjacency, roots, start, fuel, f);
    }
}

/// The walk from the start has come, in `fuel` steps, to `now`.
spec fn walked(adjacency: Seq<Seq<usize>>, roots: Seq<usize>, fuel: nat, now: Walk) -> bool {
    forall|f: nat| walk_end(adjacency, roots, walk_start(adjacency), fuel + f) == #[trigger] walk_end(adjacency, roots, now, f)
}

proof fn lemma_walked_step(adjacency: Seq<Seq<usize>>, roots: Seq<usize>, fuel: nat, now: Walk, next: Walk)
    requires
        walked(adjacency, roots, fuel, now),
        stride(adjacency, roots, now) == Stride::On(next),
    ensures
        walked(adjacency, roots, fuel + 1, next),
{
    assert forall|f: nat| walk_end(adjacency, roots, walk_start(adjacency), fuel + 1 + f) == #[trigger] walk_end(adjacency, roots, next, f) by {
        assert(walk_end(adjacency, roots, walk_start(adjacency), fuel + (f + 1)) == walk_end(adjacency, roots, now, f + 1));
        assert(fuel + 1 + f == fuel + (f + 1));
    }
}

proof fn lemma_walked_end(adjacency: Seq<Seq<usize>>, roots: Seq<usize>, fuel: nat, now: Walk, found: Option<Seq<usize>>)
    requires
        walked(adjacency, roots, fuel, now),
        stride(adjacency, roots, now) == Stride::Ended(found),
    ensures
        first_cycle_of(adjacency, roots) == found,
{
    assert(walk_end(adjacency, roots, now, 1) == Some(found));
    assert(walk_end(adjacency, roots, walk_start(adjacency), fuel + 1) == walk_end(adjacency, roots, now, 1));
    lemma_first_cycle_of(adjacency, roots, fuel + 1, found);
}

/// The adjacency as sequences.
pub open spec fn neighbours(adjacency: Seq<Vec<usize>>) -> Seq<Seq<usize>> {
    adjacency.map_values(|v: Vec<usize>| v@)
}

/// The cycle the stack closes when its top reaches `next` again, at
/// `position`: the keys from there up, then `next`.
fn closed_cycle(adjacency: &Vec<Vec<usize>>, Ghost(roots): Ghost<Seq<usize>>, Ghost(root): Ghost<usize>,
    stack: &Vec<(usize, usize)>, position: usize, next: usize) -> (cycle: Vec<usize>)
    requires
        position < stack.len(),
        stack@[position as int].0 == next,
        roots.contains(root),
        stack@[0].0 == root,
        forall|i: int| 0 <= i < stack.len() ==> (#[trigger] stack@[i]).0 < adjacency.len(),
        forall|i: int| 0 <= i < stack.len() - 1 ==> adjacency@[(#[trigger] stack@[i]).0 as int]@.contains(stack@[i + 1].0),
        forall|i: int, j: int| 0 <= i < j < stack.len() ==> (#[trigger] stack@[i]).0 != (#[trigger] stack@[j]).0,
        adjacency@[stack@[stack@.len() - 1].0 as int]@.contains(next),
    ensures
        is_cycle(adjacency@, cycle@),
        simple_cycle(cycle@),
        exists|path: Seq<usize>| #[trigger] reached_by(adjacency@, roots, path, cycle@[0]),
        cycle@ == keys(stack@).subrange(position as int, stack@.len() as int).push(next),
{
    let mut cycle: Vec<usize> = Vec::new();
    let mut i = position;
    while i < stack.len()
        invariant
            position <= i <= stack.len(),
            position < stack.len(),
            stack@[position as int].0 == next,
            cycle@ =~= keys(stack@).subrange(position as int, i as int),
        decreases stack.len() - i,
    {
        cycle.push(stack[i].0);
        i = i + 1;
    }
    cycle.push(next);
    proof {
        let walk = cycle@;
        assert forall|j: int| 0 <= j < walk.len() - 1 implies #[trigger] walk[j] == stack@[position + j].0 by {
            assert(walk[j] == keys(stack@).subrange(position as int, stack@.len() as int)[j]);
        }
        lemma_stack_walk(adjacency@, roots, root, stack@, position as int, walk);
        assert(reached_by(adjacency@, roots, keys(stack@).subrange(0, position + 1), walk[0]));
        assert forall|j: int| 0 <= j < walk.len() - 1 implies {
            &&& 0 <= #[trigger] walk[j] < adjacency@.len()
            &&& adjacency@[walk[j] as int]@.contains(walk[j + 1])
        } by {
            let s = position + j;
            assert(walk[j] == stack@[s].0);
            if j < walk.len() - 2 {
                assert(walk[j + 1] == stack@[s + 1].0);
            } else {
                assert(s == stack.len() - 1);
            }
        }
    }
    cycle
}

/// The first cycle a depth-first walk meets, as the keys around it: the
/// walk closes on the key it starts from. None when the walk from every
/// root meets no key twice on its path — and then no cycle passes through
/// any root.
#[verifier::rlimit(100)]
#[verifier::spinoff_prover]
pub fn first_cycle(roots: &Vec<usize>, adjacency: &Vec<Vec<usize>>) -> (cycle: Option<Vec<usize>>)
    requires
        well_keyed(adjacency@),
        forall|i: int| 0 <= i < roots.len() ==> #[trigger] roots@[i] < adjacency.len(),
    ensures
        match cycle {
            Some(walk) => is_cycle(adjacency@, walk@),
            None => forall|walk: Seq<usize>| #[trigger] is_cycle(adjacency@, walk) ==> !roots@.contains(walk[0]),
        },
        match cycle {
            Some(walk) => simple_cycle(walk@) && exists|path: Seq<usize>| #[trigger] reached_by(adjacency@, roots@, path, walk@[0]),
            None => forall|walk: Seq<usize>, path: Seq<usize>| #[trigger] is_cycle(adjacency@, walk) && #[trigger] reached_by(adjacency@, roots@, path, walk[0])
                ==> false,
        },
        first_cycle_of(neighbours(adjacency@), roots@) == match cycle {
            Some(walk) => Some(walk@),
            None => None,
        },
{
    let ghost adj = neighbours(adjacency@);
    let n = adjacency.len();
    let mut states: Vec<u8> = Vec::new();
    while states.len() < n
        invariant
            states.len() <= n,
            n == adjacency.len(),
            forall|k: int| 0 <= k < states.len() ==> #[trigger] states@[k] == FRESH,
        decreases n - states.len(),
    {
        states.push(FRESH);
    }
    let ghost mut rank: Seq<int> = Seq::new(n as nat, |k: int| 0int);
    let ghost mut clock: int = 0;
    let ghost mut fuel: nat = 0;
    proof {
        assert(states@ =~= walk_start(adj).states);
        assert(Walk { root: 0, stack: Seq::empty(), states: states@ } == walk_start(adj));
    }
    let mut r: usize = 0;
    while r < roots.len()
        invariant
            adj == neighbours(adjacency@),
            walked(adj, roots@, fuel, Walk { root: r as nat, stack: Seq::empty(), states: states@ }),
            n == adjacency.len(),
            well_keyed(adjacency@),
            forall|i: int| 0 <= i < roots.len() ==> #[trigger] roots@[i] < adjacency.len(),
            states.len() == n,
            rank.len() == n,
            r <= roots.len(),
            forall|k: int| 0 <= k < states.len() ==> #[trigger] states@[k] == FRESH || states@[k] == DONE,
            done_closed(adjacency@, states@, rank),
            forall|k: int| 0 <= k < states.len() && #[trigger] states@[k] == DONE ==> rank[k] < clock,
            forall|i: int| 0 <= i < r ==> states@[#[trigger] roots@[i] as int] == DONE,
        decreases roots.len() - r,
    {
        let root = roots[r];
        if states[root] == DONE {
            proof {
                lemma_walked_step(adj, roots@, fuel, Walk { root: r as nat, stack: Seq::empty(), states: states@ },
                    Walk { root: (r + 1) as nat, stack: Seq::empty(), states: states@ });
                fuel = fuel + 1;
            }
            r = r + 1;
            continue;
        }
        let mut stack: Vec<(usize, usize)> = Vec::new();
        proof {
            lemma_fresh_update(states@, root as int, ACTIVE);
        }
        let ghost start_states = states@;
        states.set(root, ACTIVE);
        stack.push((root, 0));
        proof {
            assert(stack@ =~= seq![(root, 0usize)]);
            lemma_walked_step(adj, roots@, fuel, Walk { root: r as nat, stack: Seq::empty(), states: start_states },
                Walk { root: r as nat, stack: stack@, states: states@ });
            fuel = fuel + 1;
        }
        proof {
            assert forall|k: int| 0 <= k < states.len() implies (#[trigger] states@[k] == ACTIVE <==> on_stack(stack@, k as usize)) by {
                if on_stack(stack@, k as usize) {
                    let i = choose|i: int| 0 <= i < stack@.len() && (#[trigger] stack@[i]).0 == k as usize;
                    assert(i == 0);
                }
                if k == root as int {
                    assert(stack@[0].0 == root);
                }
            }
        }
        while stack.len() > 0
            invariant
                adj == neighbours(adjacency@),
                walked(adj, roots@, fuel, Walk { root: r as nat, stack: stack@, states: states@ }),
                n == adjacency.len(),
                well_keyed(adjacency@),
                forall|i: int| 0 <= i < roots.len() ==> #[trigger] roots@[i] < adjacency.len(),
                states.len() == adjacency.len(),
                rank.len() == n,
                r < roots.len(),
                root == roots@[r as int],
                forall|i: int| 0 <= i < stack.len() ==> {
                    &&& (#[trigger] stack@[i]).0 < adjacency.len()
                    &&& stack@[i].1 <= adjacency@[stack@[i].0 as int]@.len()
                },
                forall|i: int| 0 <= i < stack.len() - 1 ==> adjacency@[(#[trigger] stack@[i]).0 as int]@.contains(stack@[i + 1].0),
                forall|k: int| 0 <= k < states.len() ==> #[trigger] states@[k] <= DONE,
                forall|k: int| 0 <= k < states.len() ==> (#[trigger] states@[k] == ACTIVE <==> on_stack(stack@, k as usize)),
                forall|i: int, j: int| 0 <= i < j < stack.len() ==> (#[trigger] stack@[i]).0 != (#[trigger] stack@[j]).0,
                done_closed(adjacency@, states@, rank),
                followed_done(adjacency@, states@, stack@),
                forall|k: int| 0 <= k < states.len() && #[trigger] states@[k] == DONE ==> rank[k] < clock,
                forall|i: int| 0 <= i < r ==> states@[#[trigger] roots@[i] as int] == DONE,
                stack.len() > 0 ==> stack@[0].0 == root,
                stack.len() == 0 ==> states@[root as int] == DONE,
            decreases fresh_count(states@), stack.len() + remaining(adjacency@, stack@),
        {
            let last = stack.len() - 1;
            let (current, visited) = stack[last];
            let ghost now = Walk { root: r as nat, stack: stack@, states: states@ };
            proof {
                assert(adj[current as int] == adjacency@[current as int]@);
            }
            if visited < adjacency[current].len() {
                let next = adjacency[current][visited];
                let ghost before = stack@;
                stack.set(last, (current, visited + 1));
                let ghost moved = stack@;
                proof {
                    assert(stack@.drop_last() =~= before.drop_last());
                    assert(adjacency@[current as int]@.contains(next)) by {
                        assert(adjacency@[current as int]@[visited as int] == next);
                    }
                    assert forall|k: int| 0 <= k < states.len() implies (#[trigger] states@[k] == ACTIVE <==> on_stack(stack@, k as usize)) by {
                        if on_stack(before, k as usize) {
                            let i = choose|i: int| 0 <= i < before.len() && (#[trigger] before[i]).0 == k as usize;
                            assert(stack@[i].0 == k as usize);
                        }
                        if on_stack(stack@, k as usize) {
                            let i = choose|i: int| 0 <= i < stack@.len() && (#[trigger] stack@[i]).0 == k as usize;
                            assert(before[i].0 == k as usize);
                        }
                    }
                }
                if states[next] == ACTIVE {
                    let mut position: usize = 0;
                    while position < stack.len() && stack[position].0 != next
                        invariant
                            position <= stack.len(),
                            forall|p: int| 0 <= p < position ==> (#[trigger] stack@[p]).0 != next,
                        decreases stack.len() - position,
                    {
                        position = position + 1;
                    }
                    proof {
                        assert(on_stack(stack@, next));
                        let i = choose|i: int| 0 <= i < stack@.len() && (#[trigger] stack@[i]).0 == next;
                        if position >= stack.len() {
                            assert(stack@[i].0 != next);
                        }
                    }
                    if position < stack.len() {
                        proof {
                            assert(roots@[r as int] == root);
                            assert(adjacency@[stack@[stack@.len() - 1].0 as int]@.contains(next));
                        }
                        let cycle = closed_cycle(adjacency, Ghost(roots@), Ghost(root), &stack, position, next);
                        proof {
                            assert(path_position(moved, next) == position as int) by {
                                let p = path_position(moved, next);
                                assert(stack@[position as int].0 == next);
                                assert(exists|p: int| 0 <= p < moved.len() && moved[p].0 == next
                                    && forall|q: int| 0 <= q < p ==> #[trigger] moved[q].0 != next);
                                if p < position {
                                    assert(moved[p].0 != next);
                                } else if p > position {
                                    assert(moved[position as int].0 != next);
                                }
                            }
                            assert(stride(adj, roots@, now) == Stride::Ended(Some(cycle@)));
                            lemma_walked_end(adj, roots@, fuel, now, Some(cycle@));
                        }
                        return Some(cycle);
                    }
                }
                if states[next] == FRESH {
                    let ghost mid = stack@;
                    let ghost old_states = states@;
                    proof {
                        lemma_fresh_update(states@, next as int, ACTIVE);
                        assert(!on_stack(mid, next));
                    }
                    states.set(next, ACTIVE);
                    stack.push((next, 0));
                    proof {
                        assert(states@[next as int] != ACTIVE ==> false);
                        assert(old_states[next as int] == FRESH);
                        assert(stride(adj, roots@, now) == Stride::On(Walk { root: r as nat, stack: stack@, states: states@ }));
                        lemma_walked_step(adj, roots@, fuel, now, Walk { root: r as nat, stack: stack@, states: states@ });
                        fuel = fuel + 1;
                    }
                    proof {
                        assert(stack@.drop_last() =~= mid);
                        assert forall|k: int| 0 <= k < states.len() implies (#[trigger] states@[k] == ACTIVE <==> on_stack(stack@, k as usize)) by {
                            if k != next as int {
                                if on_stack(mid, k as usize) {
                                    let i = choose|i: int| 0 <= i < mid.len() && (#[trigger] mid[i]).0 == k as usize;
                                    assert(stack@[i].0 == k as usize);
                                }
                                if on_stack(stack@, k as usize) {
                                    let i = choose|i: int| 0 <= i < stack@.len() && (#[trigger] stack@[i]).0 == k as usize;
                                    assert(i < mid.len());
                                    assert(mid[i].0 == k as usize);
                                }
                            } else {
                                assert(stack@[stack@.len() - 1].0 == next);
                            }
                        }
                        assert forall|i: int, j: int| 0 <= i < j < stack@.len() implies (#[trigger] stack@[i]).0 != (#[trigger] stack@[j]).0 by {
                            if j == stack@.len() - 1 {
                                assert(stack@[i] == mid[i]);
                                if mid[i].0 == next {
                                    assert(on_stack(mid, next));
                                }
                            } else {
                                assert(stack@[i] == mid[i] && stack@[j] == mid[j]);
                            }
                        }
                        assert forall|k: int, m: int| 0 <= k < states@.len() && states@[k] == DONE && 0 <= m < adjacency@[k]@.len() implies {
                            &&& states@[#[trigger] adjacency@[k]@[m] as int] == DONE
                            &&& rank[adjacency@[k]@[m] as int] < rank[k]
                        } by {
                            assert(old_states[k] == DONE);
                            assert(old_states[adjacency@[k]@[m] as int] == DONE);
                        }
                        assert forall|i: int, m: int| 0 <= i < stack@.len() && 0 <= m < stack@[i].1 implies {
                            ||| states@[#[trigger] adjacency@[stack@[i].0 as int]@[m] as int] == DONE
                            ||| (i < stack@.len() - 1 && m == stack@[i].1 - 1 && adjacency@[stack@[i].0 as int]@[m] == stack@[i + 1].0)
                        } by {
                            if i < mid.len() {
                                assert(stack@[i] == mid[i]);
                                if i == mid.len() - 1 {
                                    if m < stack@[i].1 - 1 {
                                        assert(before[i].1 == visited);
                                    }
                                } else {
                                    assert(stack@[i + 1] == mid[i + 1]);
                                }
                            }
                        }
                    }
                } else {
                    proof {
                        assert(states@[next as int] == DONE);
                        assert(stride(adj, roots@, now) == Stride::On(Walk { root: r as nat, stack: stack@, states: states@ }));
                        lemma_walked_step(adj, roots@, fuel, now, Walk { root: r as nat, stack: stack@, states: states@ });
                        fuel = fuel + 1;
                        assert forall|i: int, m: int| 0 <= i < stack@.len() && 0 <= m < stack@[i].1 implies {
                            ||| states@[#[trigger] adjacency@[stack@[i].0 as int]@[m] as int] == DONE
                            ||| (i < stack@.len() - 1 && m == stack@[i].1 - 1 && adjacency@[stack@[i].0 as int]@[m] == stack@[i + 1].0)
                        } by {
                            if i < stack@.len() - 1 {
                                assert(stack@[i] == before[i]);
                                assert(stack@[i + 1].0 == before[i + 1].0);
                            } else if m < visited {
                                assert(before[i].1 == visited);
                            } else {
                                assert(adjacency@[stack@[i].0 as int]@[m] == next);
                            }
                        }
                    }
                }
            } else {
                let ghost before = stack@;
                let ghost old_states = states@;
                let ghost old_rank = rank;
                stack.pop();
                proof {
                    assert(stack@ =~= before.drop_last());
                    lemma_fresh_update(states@, current as int, DONE);
                }
                states.set(current, DONE);
                proof {
                    assert(stride(adj, roots@, now) == Stride::On(Walk { root: r as nat, stack: stack@, states: states@ }));
                    lemma_walked_step(adj, roots@, fuel, now, Walk { root: r as nat, stack: stack@, states: states@ });
                    fuel = fuel + 1;
                }
                proof {
                    rank = rank.update(current as int, clock);
                    clock = clock + 1;
                    assert forall|m: int| 0 <= m < adjacency@[current as int]@.len() implies
                        old_states[#[trigger] adjacency@[current as int]@[m] as int] == DONE by {
                        assert(before[last as int].0 == current && before[last as int].1 == visited);
                    }
                    assert forall|k: int| 0 <= k < states.len() implies (#[trigger] states@[k] == ACTIVE <==> on_stack(stack@, k as usize)) by {
                        if k != current as int {
                            if on_stack(before, k as usize) {
                                let i = choose|i: int| 0 <= i < before.len() && (#[trigger] before[i]).0 == k as usize;
                                assert(i < stack@.len());
                                assert(stack@[i].0 == k as usize);
                            }
                            if on_stack(stack@, k as usize) {
                                let i = choose|i: int| 0 <= i < stack@.len() && (#[trigger] stack@[i]).0 == k as usize;
                                assert(before[i].0 == k as usize);
                            }
                        } else if on_stack(stack@, k as usize) {
                            let i = choose|i: int| 0 <= i < stack@.len() && (#[trigger] stack@[i]).0 == k as usize;
                            assert(before[i].0 != before[last as int].0);
                        }
                    }
                    assert forall|k: int, m: int| 0 <= k < states@.len() && states@[k] == DONE && 0 <= m < adjacency@[k]@.len() implies {
                        &&& states@[#[trigger] adjacency@[k]@[m] as int] == DONE
                        &&& rank[adjacency@[k]@[m] as int] < rank[k]
                    } by {
                        let j = adjacency@[k]@[m] as int;
                        assert(old_states[j] == DONE);
                        assert(j != current as int);
                        if k != current as int {
                            assert(old_states[k] == DONE);
                        }
                    }
                    assert forall|i: int, m: int| 0 <= i < stack@.len() && 0 <= m < stack@[i].1 implies {
                        ||| states@[#[trigger] adjacency@[stack@[i].0 as int]@[m] as int] == DONE
                        ||| (i < stack@.len() - 1 && m == stack@[i].1 - 1 && adjacency@[stack@[i].0 as int]@[m] == stack@[i + 1].0)
                    } by {
                        assert(stack@[i] == before[i]);
                        if i < stack@.len() - 1 {
                            assert(stack@[i + 1] == before[i + 1]);
                        } else {
                            assert(before[i + 1].0 == current);
                        }
                    }
                    if stack@.len() == 0 {
                        assert(before[0].0 == root);
                    }
                }
            }
        }
        proof {
            assert(stack@ =~= Seq::<(usize, usize)>::empty());
            lemma_walked_step(adj, roots@, fuel, Walk { root: r as nat, stack: Seq::empty(), states: states@ },
                Walk { root: (r + 1) as nat, stack: Seq::empty(), states: states@ });
            fuel = fuel + 1;
        }
        r = r + 1;
    }
    proof {
        lemma_walked_end(adj, roots@, fuel, Walk { root: r as nat, stack: Seq::empty(), states: states@ }, None);
        assert forall|walk: Seq<usize>, path: Seq<usize>| #[trigger] is_cycle(adjacency@, walk) && #[trigger] reached_by(adjacency@, roots@, path, walk[0])
            implies false by {
            let i = choose|i: int| 0 <= i < roots@.len() && roots@[i] == path[0];
            assert(states@[roots@[i] as int] == DONE);
            lemma_ranked_walk(adjacency@, states@, rank, path, path.len() - 1);
            lemma_ranked_walk(adjacency@, states@, rank, walk, walk.len() - 1);
        }
        assert forall|walk: Seq<usize>| #[trigger] is_cycle(adjacency@, walk) implies !roots@.contains(walk[0]) by {
            if roots@.contains(walk[0]) {
                let i = choose|i: int| 0 <= i < roots@.len() && roots@[i] == walk[0];
                assert(states@[roots@[i] as int] == DONE);
                lemma_ranked_walk(adjacency@, states@, rank, walk, walk.len() - 1);
            }
        }
    }
    None
}

} // verus!
