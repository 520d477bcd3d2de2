use vstd::prelude::*;

use crate::automaton::Position;

verus! {

/// A search node: a cell at a generation. The same cell at two generations is two
/// states.
#[derive(Clone, Copy, Debug)]
pub struct State {
    pub position: Position,
    pub automaton_generation: u32,
}

impl PartialEq for State {
    fn eq(&self, o: &State) -> (r: bool) {
        self.position.0 == o.position.0 && self.position.1 == o.position.1
            && self.automaton_generation == o.automaton_generation
    }
}

impl vstd::std_specs::cmp::PartialEqSpecImpl for State {
    open spec fn obeys_eq_spec() -> bool {
        true
    }

    open spec fn eq_spec(&self, o: &State) -> bool {
        self.position == o.position && self.automaton_generation == o.automaton_generation
    }
}

/// A state in the queue, with the cost it is ordered by.
#[derive(Clone, Copy, Debug)]
pub struct Node {
    pub state: State,
    pub cost: u32,
}

/// A min-cost pool of nodes; ties leave in any order.
pub struct PriorityQueue {
    items: Vec<Node>,
}

/// The nodes of `s` whose state differs from `state`, in order.
pub open spec fn without_state(s: Seq<Node>, state: State) -> Seq<Node> {
    s.filter(|n: Node| n.state != state)
}

/// Index k of `s` holds `state` at the least cost, and `rest` is `s` without it.
pub open spec fn least_at(s: Seq<Node>, k: int, state: State, rest: Seq<Node>) -> bool {
    &&& 0 <= k < s.len()
    &&& s[k].state == state
    &&& forall|j: int| 0 <= j < s.len() ==> s[k].cost <= #[trigger] s[j].cost
    &&& rest == s.remove(k)
}

impl PriorityQueue {
    pub closed spec fn view(&self) -> Seq<Node> {
        self.items@
    }

    pub fn new() -> (r: PriorityQueue)
        ensures
            r@ == Seq::<Node>::empty(),
    {
        PriorityQueue { items: Vec::new() }
    }

    pub fn enqueue(&mut self, node: Node)
        ensures
            final(self)@ == old(self)@.push(node),
    {
        self.items.push(node);
    }

    /// Removes a node of least cost and returns its state; `None` when empty.
    pub fn dequeue(&mut self) -> (r: Option<State>)
        ensures
            r is None <==> old(self)@.len() == 0,
            r is None ==> final(self)@ == old(self)@,
            r is Some ==> exists|k: int| #[trigger] least_at(old(self)@, k, r->0, final(self)@),
    {
        if self.items.len() == 0 {
            return None;
        }
        let mut best: usize = 0;
        let mut i: usize = 1;
        while i < self.items.len()
            invariant
                1 <= i <= self.items@.len(),
                best < i,
                forall|j: int| 0 <= j < i ==> self.items@[best as int].cost <= #[trigger] self.items@[j].cost,
            decreases self.items@.len() - i,
        {
            if self.items[i].cost < self.items[best].cost {
                best = i;
            }
            i += 1;
        }
        let ghost before = self.items@;
        let node = self.items.remove(best);
        assert(before[best as int].state == node.state);
        assert(least_at(before, best as int, node.state, self.items@));
        let r = Some(node.state);
        assert(least_at(old(self)@, best as int, r->0, self@));
        r
    }

    /// Decrease-key: drops every node with the same state, then enqueues `node`.
    pub fn update(&mut self, node: Node)
        ensures
            final(self)@ == without_state(old(self)@, node.state).push(node),
    {
        let ghost items = self.items@;
        let mut kept: Vec<Node> = Vec::new();
        let mut i: usize = 0;
        while i < self.items.len()
            invariant
                0 <= i <= items.len(),
                items == self.items@,
                kept@ == without_state(items.take(i as int), node.state),
            decreases items.len() - i,
        {
            let item = self.items[i];
            proof {
                assert(items.take(i + 1).drop_last() =~= items.take(i as int));
                reveal(Seq::filter);
            }
            if item.state != node.state {
                kept.push(item);
            }
            i += 1;
        }
        assert(items.take(items.len() as int) =~= items);
        kept.push(node);
        self.items = kept;
    }

    pub fn get_length(&self) -> (r: usize)
        ensures
            r == self@.len(),
    {
        self.items.len()
    }
}

} // verus!
