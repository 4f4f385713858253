//! # A map from lists of numbers
//!
//! [`Index`] remembers one number for each list of numbers it was given, and finds it
//! again in as many steps as the list is long, however many lists it remembers.
//!
//! The lists are kept as the branches of a tree: a step from one node to the next is one
//! number of a list, and a hash map takes a node and a number to the node they lead to.

use std::collections::HashMap;
use vstd::prelude::*;

verus! {

/// One list, as the list it extends and the number it extends it by.
#[derive(Debug, Clone, Copy)]
struct Node {
    parent: usize,
    step: u64,
    /// What is remembered of the list.
    held: Option<usize>,
}

/// A map from lists of numbers.
#[derive(Debug)]
pub struct Index {
    nodes: Vec<Node>,
    steps: HashMap<u128, usize>,
}

/// The list a node stands for.
spec fn path(nodes: Seq<Node>, n: int) -> Seq<u64>
    decreases n,
{
    if 0 < n < nodes.len() && nodes[n].parent < n {
        path(nodes, nodes[n].parent as int).push(nodes[n].step)
    } else {
        Seq::empty()
    }
}

/// A node and a number, as one number.
spec fn key_of(parent: int, step: int) -> int {
    parent * 0x1_0000_0000_0000_0000 + step
}

/// Whether every node but the first extends one before it, and every step leads to the
/// node it makes.
spec fn is_tree(nodes: Seq<Node>, steps: Map<u128, usize>) -> bool {
    &&& nodes.len() > 0
    &&& forall|n: int| 0 < n < nodes.len() ==> (#[trigger] nodes[n]).parent < n
    &&& forall|n: int|
        0 < n < nodes.len() ==> leads_to(
            steps,
            key_of((#[trigger] nodes[n]).parent as int, nodes[n].step as int) as u128,
            n,
        )
    &&& forall|key: u128| #[trigger]
        steps.dom().contains(key) ==> 0 < steps[key] < nodes.len() && key == key_of(
            nodes[steps[key] as int].parent as int,
            nodes[steps[key] as int].step as int,
        )
}

/// Whether a step leads to a node.
spec fn leads_to(steps: Map<u128, usize>, key: u128, n: int) -> bool {
    steps.dom().contains(key) && steps[key] == n
}

/// Whether a node stands for a list of which something is remembered.
spec fn remembers(nodes: Seq<Node>, n: int, list: Seq<u64>) -> bool {
    0 <= n < nodes.len() && path(nodes, n) == list && nodes[n].held is Some
}

/// What is remembered of each list.
spec fn remembered(nodes: Seq<Node>) -> Map<Seq<u64>, usize> {
    Map::new(
        |list: Seq<u64>| exists|n: int| remembers(nodes, n, list),
        |list: Seq<u64>| nodes[choose|n: int| remembers(nodes, n, list)].held->0,
    )
}

impl View for Index {
    type V = Map<Seq<u64>, usize>;

    closed spec fn view(&self) -> Map<Seq<u64>, usize> {
        remembered(self.nodes@)
    }
}

/// Two nodes stand for two lists.
proof fn lemma_paths_are_apart(nodes: Seq<Node>, steps: Map<u128, usize>, a: int, b: int)
    requires
        is_tree(nodes, steps),
        0 <= a < nodes.len(),
        0 <= b < nodes.len(),
        path(nodes, a) == path(nodes, b),
    ensures
        a == b,
    decreases a,
{
    if a > 0 && b > 0 {
        let (pa, pb) = (nodes[a].parent as int, nodes[b].parent as int);
        assert(path(nodes, a).drop_last() =~= path(nodes, pa));
        assert(path(nodes, b).drop_last() =~= path(nodes, pb));
        assert(path(nodes, a).last() == nodes[a].step);
        assert(path(nodes, b).last() == nodes[b].step);
        lemma_paths_are_apart(nodes, steps, pa, pb);
        assert(leads_to(steps, key_of(pa, nodes[a].step as int) as u128, a));
        assert(leads_to(steps, key_of(pb, nodes[b].step as int) as u128, b));
    } else if a > 0 {
        assert(path(nodes, a).len() > 0);
    } else if b > 0 {
        assert(path(nodes, b).len() > 0);
    }
}

/// Every list that starts one on record is on record.
proof fn lemma_starts_are_kept(nodes: Seq<Node>, steps: Map<u128, usize>, n: int, k: int) -> (at: int)
    requires
        is_tree(nodes, steps),
        0 <= n < nodes.len(),
        0 <= k <= path(nodes, n).len(),
    ensures
        0 <= at < nodes.len(),
        path(nodes, at) == path(nodes, n).take(k),
    decreases n,
{
    if k == path(nodes, n).len() {
        assert(path(nodes, n).take(k) =~= path(nodes, n));
        n
    } else {
        assert(n > 0);
        let parent = nodes[n].parent as int;
        let at = lemma_starts_are_kept(nodes, steps, parent, k);
        assert(path(nodes, n).take(k) =~= path(nodes, parent).take(k));
        at
    }
}

/// Where a list on record goes on from one that starts it, there is a step.
proof fn lemma_there_is_a_step(
    nodes: Seq<Node>,
    steps: Map<u128, usize>,
    at: int,
    n: int,
    k: int,
)
    requires
        is_tree(nodes, steps),
        0 <= at < nodes.len(),
        0 <= n < nodes.len(),
        0 <= k < path(nodes, n).len(),
        path(nodes, at) == path(nodes, n).take(k),
    ensures
        steps.dom().contains(key_of(at, path(nodes, n)[k] as int) as u128),
{
    let list = path(nodes, n);
    let next = lemma_starts_are_kept(nodes, steps, n, k + 1);
    assert(path(nodes, next).len() == k + 1);
    assert(path(nodes, 0).len() == 0);
    let parent = nodes[next].parent as int;
    assert(path(nodes, next).drop_last() =~= path(nodes, parent));
    assert(list.take(k + 1).drop_last() =~= list.take(k));
    assert(path(nodes, next).last() == nodes[next].step);
    assert(list.take(k + 1).last() == list[k]);
    lemma_paths_are_apart(nodes, steps, parent, at);
    assert(leads_to(steps, key_of(parent, nodes[next].step as int) as u128, next));
}

/// Nodes that extend the same ones stand for the same lists.
proof fn lemma_paths_stay(before: Seq<Node>, after: Seq<Node>, n: int)
    requires
        before.len() <= after.len(),
        0 <= n < before.len(),
        forall|i: int|
            0 <= i < before.len() ==> (#[trigger] after[i]).parent == before[i].parent
                && after[i].step == before[i].step,
    ensures
        path(after, n) == path(before, n),
    decreases n,
{
    if 0 < n {
        assert(after[n].parent == before[n].parent);
        if before[n].parent < n {
            lemma_paths_stay(before, after, before[n].parent as int);
        }
    }
}

/// What is remembered of a list is what its node holds.
proof fn lemma_remembered(nodes: Seq<Node>, steps: Map<u128, usize>, n: int)
    requires
        is_tree(nodes, steps),
        0 <= n < nodes.len(),
    ensures
        remembered(nodes).dom().contains(path(nodes, n)) == (nodes[n].held is Some),
        nodes[n].held is Some ==> remembered(nodes)[path(nodes, n)] == nodes[n].held->0,
{
    let list = path(nodes, n);
    if nodes[n].held is Some {
        assert(remembers(nodes, n, list));
    }
    if exists|m: int| remembers(nodes, m, list) {
        let m = choose|m: int| remembers(nodes, m, list);
        lemma_paths_are_apart(nodes, steps, m, n);
    }
}

/// The key of a step.
fn key(parent: usize, step: u64) -> (key: u128)
    ensures
        key == key_of(parent as int, step as int),
{
    (parent as u128) * 0x1_0000_0000_0000_0000 + step as u128
}

impl Index {
    #[verifier::type_invariant]
    spec fn is_sound(self) -> bool {
        is_tree(self.nodes@, self.steps@)
    }

    /// A map that remembers nothing.
    pub fn new() -> (index: Self)
        ensures
            index@ == Map::<Seq<u64>, usize>::empty(),
    {
        let mut nodes: Vec<Node> = Vec::new();
        nodes.push(Node { parent: 0, step: 0, held: None });
        let steps: HashMap<u128, usize> = HashMap::new();
        let index = Index { nodes, steps };
        assert(index@ =~= Map::empty());
        index
    }

    /// What is remembered of a list, if anything is.
    pub fn get(&self, list: &[u64]) -> (held: Option<usize>)
        ensures
            held == if self@.dom().contains(list@) {
                Some(self@[list@])
            } else {
                None
            },
    {
        proof {
            use_type_invariant(self);
        }
        let ghost (nodes, steps) = (self.nodes@, self.steps@);
        let mut at: usize = 0;
        let mut i: usize = 0;
        assert(list@.take(0) =~= Seq::empty());
        while i < list.len()
            invariant
                nodes == self.nodes@,
                steps == self.steps@,
                is_tree(nodes, steps),
                i <= list@.len(),
                at < nodes.len(),
                path(nodes, at as int) == list@.take(i as int),
            decreases list@.len() - i,
        {
            let step = key(at, list[i]);
            match self.steps.get(&step) {
                Some(next) => {
                    proof {
                        let n = *next as int;
                        assert(steps.dom().contains(step) && steps[step] == n);
                        assert(nodes[n].parent == at && nodes[n].step == list@[i as int]);
                        assert(path(nodes, n) =~= list@.take(i + 1));
                    }
                    at = *next;
                },
                None => {
                    proof {
                        if self@.dom().contains(list@) {
                            let n = choose|n: int| remembers(nodes, n, list@);
                            lemma_there_is_a_step(nodes, steps, at as int, n, i as int);
                        }
                    }
                    return None;
                },
            }
            i = i + 1;
        }
        proof {
            assert(list@.take(i as int) =~= list@);
            lemma_remembered(nodes, steps, at as int);
        }
        self.nodes[at].held
    }

    /// Remembers a number of a list, in place of what was remembered of it.
    pub fn insert(&mut self, list: &[u64], held: usize)
        ensures
            final(self)@ == old(self)@.insert(list@, held),
    {
        let mut whole = Index::new();
        std::mem::swap(self, &mut whole);
        proof {
            use_type_invariant(&whole);
        }
        let Index { nodes, steps } = whole;
        let mut nodes: Vec<Node> = nodes;
        let mut steps: HashMap<u128, usize> = steps;
        let ghost before = remembered(nodes@);
        let mut at: usize = 0;
        let mut i: usize = 0;
        assert(list@.take(0) =~= Seq::empty());
        while i < list.len()
            invariant
                is_tree(nodes@, steps@),
                remembered(nodes@) == before,
                i <= list@.len(),
                at < nodes@.len(),
                path(nodes@, at as int) == list@.take(i as int),
            decreases list@.len() - i,
        {
            let step = key(at, list[i]);
            let known: Option<usize> = match steps.get(&step) {
                Some(next) => Some(*next),
                None => None,
            };
            match known {
                Some(next) => {
                    proof {
                        let n = next as int;
                        assert(nodes@[n].parent == at && nodes@[n].step == list@[i as int]);
                        assert(path(nodes@, n) =~= list@.take(i + 1));
                    }
                    at = next;
                },
                None => {
                    let next: usize = nodes.len();
                    let ghost (was, led) = (nodes@, steps@);
                    nodes.push(Node { parent: at, step: list[i], held: None });
                    steps.insert(step, next);
                    proof {
                        assert(nodes@.drop_last() =~= was);
                        lemma_a_node_more(was, led, nodes@, steps@, step);
                        lemma_paths_stay(was, nodes@, at as int);
                        assert(path(nodes@, next as int) =~= list@.take(i + 1));
                    }
                    at = next;
                },
            }
            i = i + 1;
        }
        let ghost was = nodes@;
        let node = nodes[at];
        nodes.set(at, Node { parent: node.parent, step: node.step, held: Some(held) });
        proof {
            assert(list@.take(i as int) =~= list@);
            lemma_a_node_remembers(was, steps@, nodes@, at as int, held);
        }
        *self = Index { nodes, steps };
    }
}

/// A node that remembers nothing yet leaves what is remembered as it was.
proof fn lemma_a_node_more(
    was: Seq<Node>,
    led: Map<u128, usize>,
    now: Seq<Node>,
    leads: Map<u128, usize>,
    key: u128,
)
    requires
        is_tree(was, led),
        now.len() == was.len() + 1,
        now.drop_last() == was,
        now.last().parent < was.len(),
        now.last().held is None,
        key == key_of(now.last().parent as int, now.last().step as int),
        !led.dom().contains(key),
        was.len() <= usize::MAX,
        leads == led.insert(key, was.len() as usize),
    ensures
        is_tree(now, leads),
        remembered(now) == remembered(was),
{
    assert forall|n: int| 0 <= n < was.len() implies #[trigger] now[n] == was[n] by {
        assert(now.drop_last()[n] == now[n]);
    }
    assert forall|n: int| 0 < n < now.len() implies leads_to(
        leads,
        key_of((#[trigger] now[n]).parent as int, now[n].step as int) as u128,
        n,
    ) by {
        if n < was.len() {
            assert(leads_to(led, key_of(was[n].parent as int, was[n].step as int) as u128, n));
        }
    }
    assert forall|k: u128| #[trigger] leads.dom().contains(k) implies 0 < leads[k] < now.len() && k
        == key_of(now[leads[k] as int].parent as int, now[leads[k] as int].step as int) by {
        if k != key {
            assert(led.dom().contains(k));
        }
    }
    assert forall|list: Seq<u64>| #[trigger] remembered(now).dom().contains(list) == remembered(
        was,
    ).dom().contains(list) && (remembered(was).dom().contains(list) ==> remembered(now)[list]
        == remembered(was)[list]) by {
        if exists|n: int| remembers(was, n, list) {
            let n = choose|n: int| remembers(was, n, list);
            lemma_paths_stay(was, now, n);
            lemma_remembered(was, led, n);
            lemma_remembered(now, leads, n);
        }
        if exists|n: int| remembers(now, n, list) {
            let n = choose|n: int| remembers(now, n, list);
            lemma_paths_stay(was, now, n);
            assert(remembers(was, n, list));
        }
    }
    assert(remembered(now) =~= remembered(was));
}

/// A node that comes to hold a number remembers it of its list and of no other.
proof fn lemma_a_node_remembers(
    was: Seq<Node>,
    steps: Map<u128, usize>,
    now: Seq<Node>,
    at: int,
    held: usize,
)
    requires
        is_tree(was, steps),
        0 <= at < was.len(),
        now == was.update(at, Node { held: Some(held), ..was[at] }),
    ensures
        is_tree(now, steps),
        remembered(now) == remembered(was).insert(path(was, at), held),
{
    assert forall|n: int| 0 <= n < was.len() implies (#[trigger] now[n]).parent == was[n].parent
        && now[n].step == was[n].step by {}
    assert forall|n: int| 0 < n < now.len() implies leads_to(
        steps,
        key_of((#[trigger] now[n]).parent as int, now[n].step as int) as u128,
        n,
    ) by {
        assert(leads_to(steps, key_of(was[n].parent as int, was[n].step as int) as u128, n));
    }
    let told = remembered(was).insert(path(was, at), held);
    assert forall|list: Seq<u64>| #[trigger] remembered(now).dom().contains(list)
        == told.dom().contains(list) && (told.dom().contains(list) ==> remembered(now)[list]
        == told[list]) by {
        lemma_paths_stay(was, now, at);
        lemma_remembered(now, steps, at);
        if exists|n: int| remembers(was, n, list) {
            let n = choose|n: int| remembers(was, n, list);
            lemma_paths_stay(was, now, n);
            lemma_remembered(was, steps, n);
            lemma_remembered(now, steps, n);
            if n != at {
                if path(was, n) == path(was, at) {
                    lemma_paths_are_apart(was, steps, n, at);
                }
            }
        }
        if exists|n: int| remembers(now, n, list) {
            let n = choose|n: int| remembers(now, n, list);
            lemma_paths_stay(was, now, n);
            if n != at {
                assert(remembers(was, n, list));
            }
        }
    }
    assert(remembered(now) =~= told);
}

} // verus!
