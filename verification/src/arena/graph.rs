//! The turn-based game graph of a finite region.
use vstd::prelude::*;

use std::collections::HashMap;

use crate::arena::enumerate;
use crate::game::{same_game, Game};
use crate::pieces::Turn;
use crate::rules::movegen::{self, state_ok, successors_spec, Scratch, Succ};
use crate::search::buchi::{sorted_insert, strictly_increasing};
use crate::state::PackedState;

verus! {

broadcast use vstd::std_specs::hash::group_hash_axioms;

/// A node number of an arena.
pub type NodeId = usize;

/// A node: the side to move and the state, or no state for a sink.
#[derive(Clone, Debug)]
pub struct Node {
    pub turn: Turn,
    /// `None` marks a sink node.
    pub state: Option<PackedState>,
    pub succ: Vec<NodeId>,
    pub pred: Vec<NodeId>,
}

/// The game graph: two sinks, then a black-to-move and a white-to-move node per state.
#[derive(Clone, Debug)]
pub struct Arena {
    pub game: Game,
    pub nodes: Vec<Node>,
    pub sink_black: NodeId,
    pub sink_white: NodeId,
}

/// The other side.
pub open spec fn other_turn(t: Turn) -> Turn {
    match t {
        Turn::Black => Turn::White,
        Turn::White => Turn::Black,
    }
}

/// The last position of `st` in `states`.
pub open spec fn last_index(states: Seq<u128>, st: u128) -> int {
    choose|j: int| 0 <= j < states.len() && states[j] == st && forall|k: int| j < k < states.len() ==> #[trigger] states[k] != st
}

/// The node of state `st` with `turn` to move.
pub open spec fn node_of(states: Seq<u128>, st: u128, turn: Turn) -> int {
    2 + 2 * last_index(states, st) + if turn == Turn::White { 1int } else { 0int }
}

/// The node a move of `mover` leads to: the sink of the other side, or the successor state's
/// node with the other side to move.
pub open spec fn edge_target(states: Seq<u128>, mover: Turn, s: Succ) -> int {
    match s {
        Succ::Sink => if mover == Turn::Black { 1int } else { 0int },
        Succ::State(t) => node_of(states, t, other_turn(mover)),
    }
}

/// The side to move at node `id` (two sinks, then black and white nodes alternating).
pub open spec fn turn_of(id: int) -> Turn {
    if id % 2 == 0 {
        Turn::Black
    } else {
        Turn::White
    }
}

/// The state of node `id >= 2`.
pub open spec fn state_of(states: Seq<u128>, id: int) -> u128 {
    states[(id - 2) / 2]
}

/// Some state node has a successor state that is not among `states`.
pub open spec fn missing_successor(game: Game, states: Seq<u128>) -> bool {
    exists|id: int, t: u128|
        #![trigger successors_spec(game, turn_of(id), state_of(states, id)).contains(Succ::State(t))]
        2 <= id < 2 + 2 * states.len() && successors_spec(game, turn_of(id), state_of(states, id)).contains(Succ::State(t))
            && !states.contains(t)
}

impl Arena {
    /// The number of nodes.
    pub fn len(&self) -> (n: usize)
        ensures
            n == self.nodes@.len(),
    {
        self.nodes.len()
    }

    /// Whether `id` is one of the two sinks.
    pub fn is_sink(&self, id: NodeId) -> (b: bool)
        ensures
            b == (id == self.sink_black || id == self.sink_white),
    {
        id == self.sink_black || id == self.sink_white
    }

    /// Every successor and predecessor is a node, and the sinks are nodes.
    pub open spec fn wf(&self) -> bool {
        &&& self.sink_black < self.nodes@.len()
        &&& self.sink_white < self.nodes@.len()
        &&& forall|id: int, k: int|
            0 <= id < self.nodes@.len() && 0 <= k < self.nodes@[id].succ@.len() ==> #[trigger] self.nodes@[id].succ@[k]
                < self.nodes@.len()
        &&& forall|id: int, k: int|
            0 <= id < self.nodes@.len() && 0 <= k < self.nodes@[id].pred@.len() ==> #[trigger] self.nodes@[id].pred@[k]
                < self.nodes@.len()
    }

    /// The arena of `states`: its nodes, sinks, edges (the successors of each state, in
    /// increasing order without repeats) and predecessors (the state nodes with an edge to the
    /// node, in increasing order).
    pub open spec fn built_from(&self, game: Game, states: Seq<u128>) -> bool {
        let nodes = self.nodes@;
        &&& same_game(self.game, game)
        &&& nodes.len() == 2 + 2 * states.len()
        &&& self.sink_black == 0
        &&& self.sink_white == 1
        &&& nodes[0].turn == Turn::Black && nodes[0].state is None && nodes[0].succ@ == seq![0usize]
        &&& nodes[1].turn == Turn::White && nodes[1].state is None && nodes[1].succ@ == seq![1usize]
        &&& forall|id: int| 2 <= id < nodes.len() ==> #[trigger] nodes[id].turn == turn_of(id) && nodes[id].state == Some(
            state_of(states, id),
        )
        &&& forall|id: int| 0 <= id < nodes.len() ==> strictly_increasing(#[trigger] nodes[id].succ@)
        &&& forall|id: int, x: usize|
            2 <= id < nodes.len() ==> (#[trigger] nodes[id].succ@.contains(x) <==> exists|s: Succ|
                successors_spec(game, turn_of(id), state_of(states, id)).contains(s) && x == #[trigger] edge_target(
                    states,
                    turn_of(id),
                    s,
                ))
        &&& forall|v: int, u: usize|
            0 <= v < nodes.len() ==> (#[trigger] nodes[v].pred@.contains(u) <==> (2 <= u < nodes.len()
                && nodes[u as int].succ@.contains(v as usize)))
    }
}

/// Builds arenas for a game.
pub struct ArenaBuilder {
    pub game: Game,
}

impl ArenaBuilder {
    pub fn new(game: Game) -> (b: ArenaBuilder)
        ensures
            b.game == game,
    {
        ArenaBuilder { game }
    }

    /// Enumerates all placements of the region and builds the full turn-based game graph.
    ///
    /// Returns `None` exactly when a successor of an enumerated state is not itself among the
    /// enumerated states, so that the graph cannot be closed.
    #[verifier::rlimit(50)]
    pub fn enumerate_all(&self) -> (r: Option<Arena>)
        requires
            self.game.wf(),
        ensures
            match r {
                Some(a) => a.wf() && exists|states: Seq<u128>|
                    #![trigger enumerate::all_pack_codes(self.game, states)]
                    enumerate::all_pack_codes(self.game, states) && a.built_from(self.game, states) && !missing_successor(
                        self.game,
                        states,
                    ),
                None => exists|states: Seq<u128>|
                    #![trigger enumerate::all_pack_codes(self.game, states)]
                    enumerate::all_pack_codes(self.game, states) && (missing_successor(self.game, states)
                        || states.len() >= usize::MAX / 4),
            },
    {
        let game = &self.game;
        let states = enumerate::all_states(game);
        let ghost st = states@;
        let n_states = states.len();
        let mut state_to_index: HashMap<PackedState, usize> = HashMap::new();
        let mut i: usize = 0;
        while i < n_states
            invariant
                n_states == st.len(),
                st == states@,
                i <= n_states,
                forall|t: u128| #[trigger] state_to_index@.contains_key(t) <==> exists|j: int| 0 <= j < i && st[j] == t,
                forall|t: u128|
                    #[trigger] state_to_index@.contains_key(t) ==> {
                        let j = state_to_index@[t] as int;
                        &&& 0 <= j < i
                        &&& st[j] == t
                        &&& forall|k: int| j < k < i ==> #[trigger] st[k] != t
                    },
            decreases n_states - i,
        {
            state_to_index.insert(states[i], i);
            i += 1;
        }
        proof {
            assert forall|t: u128| #[trigger] state_to_index@.contains_key(t) implies state_to_index@[t] as int == last_index(st, t) by {
                let j = state_to_index@[t] as int;
                let l = last_index(st, t);
                if l < j {
                    assert(st[j] != t);
                } else if l > j {
                    assert(st[l] != t);
                }
            }
        }
        if n_states >= usize::MAX / 4 {
            proof {
                assert(enumerate::all_pack_codes(self.game, st));
            }
            return None;
        }
        let total = 2 + 2 * n_states;
        let mut turns: Vec<Turn> = Vec::new();
        let mut node_states: Vec<Option<PackedState>> = Vec::new();
        let mut succs: Vec<Vec<NodeId>> = Vec::new();
        let mut preds: Vec<Vec<NodeId>> = Vec::new();
        turns.push(Turn::Black);
        turns.push(Turn::White);
        node_states.push(None);
        node_states.push(None);
        succs.push(vec![0]);
        succs.push(vec![1]);
        preds.push(Vec::new());
        preds.push(Vec::new());
        let mut j: usize = 0;
        while j < n_states
            invariant
                n_states == st.len(),
                st == states@,
                total == 2 + 2 * n_states,
                j <= n_states,
                turns@.len() == 2 + 2 * j,
                node_states@.len() == 2 + 2 * j,
                succs@.len() == 2,
                preds@.len() == 2 + 2 * j,
                turns@[0] == Turn::Black && turns@[1] == Turn::White,
                node_states@[0] is None && node_states@[1] is None,
                succs@[0]@ == seq![0usize] && succs@[1]@ == seq![1usize],
                forall|id: int| 2 <= id < turns@.len() ==> #[trigger] turns@[id] == turn_of(id),
                forall|id: int| 2 <= id < node_states@.len() ==> #[trigger] node_states@[id] == Some(state_of(st, id)),
                forall|v: int| 0 <= v < preds@.len() ==> (#[trigger] preds@[v])@.len() == 0,
            decreases n_states - j,
        {
            turns.push(Turn::Black);
            turns.push(Turn::White);
            node_states.push(Some(states[j]));
            node_states.push(Some(states[j]));
            preds.push(Vec::new());
            preds.push(Vec::new());
            proof {
                assert(state_of(st, 2 + 2 * j) == st[j as int]);
                assert(state_of(st, 3 + 2 * j) == st[j as int]);
                assert((2 + 2 * j) % 2 == 0);
                assert((3 + 2 * j) % 2 == 1);
            }
            j += 1;
        }
        let mut scratch = Scratch::new(game.layout.total_white());
        let mut id: usize = 2;
        while id < total
            invariant
                game == &self.game,
                game.wf(),
                enumerate::all_pack_codes(self.game, st),
                n_states == st.len(),
                st == states@,
                total == 2 + 2 * n_states,
                2 <= id <= total,
                scratch@.len() == game.packer.n_white,
                forall|k: int| 0 <= k < st.len() ==> state_ok(*game, #[trigger] st[k]),
                forall|t: u128| #[trigger] state_to_index@.contains_key(t) <==> st.contains(t),
                forall|t: u128| #[trigger] state_to_index@.contains_key(t) ==> state_to_index@[t] as int == last_index(st, t),
                forall|t: u128| #[trigger] state_to_index@.contains_key(t) ==> state_to_index@[t] < n_states,
                turns@.len() == total,
                node_states@.len() == total,
                preds@.len() == total,
                succs@.len() == id,
                turns@[0] == Turn::Black && turns@[1] == Turn::White,
                node_states@[0] is None && node_states@[1] is None,
                succs@[0]@ == seq![0usize] && succs@[1]@ == seq![1usize],
                forall|k: int| 2 <= k < total ==> #[trigger] turns@[k] == turn_of(k),
                forall|k: int| 2 <= k < total ==> #[trigger] node_states@[k] == Some(state_of(st, k)),
                forall|k: int| 0 <= k < id ==> strictly_increasing(#[trigger] succs@[k]@),
                forall|k: int, m: int| 0 <= k < id && 0 <= m < succs@[k]@.len() ==> #[trigger] succs@[k]@[m] < total,
                forall|k: int, x: usize|
                    2 <= k < id ==> (#[trigger] succs@[k]@.contains(x) <==> exists|s: Succ|
                        successors_spec(*game, turn_of(k), state_of(st, k)).contains(s) && x == #[trigger] edge_target(st, turn_of(k), s)),
                forall|k: int, t: u128|
                    #![trigger successors_spec(*game, turn_of(k), state_of(st, k)).contains(Succ::State(t))]
                    2 <= k < id && successors_spec(*game, turn_of(k), state_of(st, k)).contains(Succ::State(t)) ==> st.contains(t),
                forall|v: int, u: usize|
                    0 <= v < total ==> (#[trigger] preds@[v]@.contains(u) <==> (2 <= u < id && succs@[u as int]@.contains(v as usize))),
                forall|v: int, m: int| 0 <= v < total && 0 <= m < preds@[v]@.len() ==> #[trigger] preds@[v]@[m] < id,
            decreases total - id,
        {
            let turn = turns[id];
            let node_state = match node_states[id] {
                Some(x) => x,
                None => {
                    proof {
                        assert(false);
                    }
                    0
                },
            };
            proof {
                assert(node_state == state_of(st, id as int));
                assert(0 <= (id - 2) / 2 < st.len());
            }
            let moves = movegen::successors(game, turn, node_state, &mut scratch);
            let mut succ_ids: Vec<NodeId> = Vec::new();
            let mut m: usize = 0;
            while m < moves.len()
                invariant
                    game == &self.game,
                    game.wf(),
                    enumerate::all_pack_codes(self.game, st),
                    n_states == st.len(),
                    total == 2 + 2 * n_states,
                    2 <= id < total,
                    turn == turn_of(id as int),
                    node_state == state_of(st, id as int),
                    forall|s: Succ| #[trigger] moves@.contains(s) <==> successors_spec(*game, turn, node_state).contains(s),
                    forall|t: u128| #[trigger] state_to_index@.contains_key(t) <==> st.contains(t),
                    forall|t: u128| #[trigger] state_to_index@.contains_key(t) ==> state_to_index@[t] as int == last_index(st, t),
                    forall|t: u128| #[trigger] state_to_index@.contains_key(t) ==> state_to_index@[t] < n_states,
                    m <= moves@.len(),
                    strictly_increasing(succ_ids@),
                    forall|q: int| 0 <= q < succ_ids@.len() ==> #[trigger] succ_ids@[q] < total,
                    forall|x: usize| #[trigger] succ_ids@.contains(x) <==> exists|q: int|
                        0 <= q < m && x == #[trigger] edge_target(st, turn, moves@[q]),
                    forall|q: int| 0 <= q < m ==> match #[trigger] moves@[q] {
                        Succ::State(t) => st.contains(t),
                        Succ::Sink => true,
                    },
                decreases moves@.len() - m,
            {
                let ghost before = succ_ids@;
                let mv = moves[m];
                assert(mv == moves@[m as int]);
                match mv {
                    Succ::Sink => {
                        let sink: NodeId = match turn {
                            Turn::Black => 1,
                            Turn::White => 0,
                        };
                        proof {
                            assert(sink == edge_target(st, turn, mv));
                        }
                        sorted_insert(&mut succ_ids, sink);
                    },
                    Succ::State(next_state) => {
                        let next_turn = turn.other();
                        let idx = match state_to_index.get(&next_state) {
                            Some(v) => *v,
                            None => {
                                proof {
                                    assert(moves@.contains(mv));
                                    assert(enumerate::all_pack_codes(self.game, st));
                                    assert(missing_successor(self.game, st)) by {
                                        assert(2 <= id < 2 + 2 * st.len());
                                        assert(successors_spec(self.game, turn_of(id as int), state_of(st, id as int)).contains(Succ::State(next_state)));
                                        assert(!st.contains(next_state));
                                    }
                                }
                                return None;
                            },
                        };
                        proof {
                            assert(state_to_index@.contains_key(next_state));
                        }
                        let base = 2 + 2 * idx;
                        let next_id = match next_turn {
                            Turn::Black => base,
                            Turn::White => base + 1,
                        };
                        proof {
                            assert(next_turn == other_turn(turn));
                            assert(next_id == edge_target(st, turn, mv));
                        }
                        sorted_insert(&mut succ_ids, next_id);
                    },
                }
                proof {
                    assert forall|x: usize| #[trigger] succ_ids@.contains(x) <==> exists|q: int|
                        0 <= q < m + 1 && x == #[trigger] edge_target(st, turn, moves@[q]) by {
                        if succ_ids@.contains(x) && !before.contains(x) {
                            assert(x == edge_target(st, turn, moves@[m as int]));
                        }
                        if exists|q: int| 0 <= q < m + 1 && x == #[trigger] edge_target(st, turn, moves@[q]) {
                            let q = choose|q: int| 0 <= q < m + 1 && x == #[trigger] edge_target(st, turn, moves@[q]);
                            if q < m {
                                assert(before.contains(x));
                            }
                        }
                    }
                    assert forall|q: int| 0 <= q < succ_ids@.len() implies #[trigger] succ_ids@[q] < total by {
                        assert(succ_ids@.contains(succ_ids@[q]));
                        if before.contains(succ_ids@[q]) {
                            let p = choose|p: int| 0 <= p < before.len() && before[p] == succ_ids@[q];
                        }
                    }
                }
                m += 1;
            }
            proof {
                assert forall|x: usize| #[trigger] succ_ids@.contains(x) <==> exists|s: Succ|
                    successors_spec(*game, turn_of(id as int), state_of(st, id as int)).contains(s) && x == #[trigger] edge_target(
                        st,
                        turn_of(id as int),
                        s,
                    ) by {
                    if succ_ids@.contains(x) {
                        let q = choose|q: int| 0 <= q < moves@.len() && x == #[trigger] edge_target(st, turn, moves@[q]);
                        assert(moves@.contains(moves@[q]));
                    }
                    if exists|s: Succ|
                        successors_spec(*game, turn_of(id as int), state_of(st, id as int)).contains(s) && x == #[trigger] edge_target(
                            st,
                            turn_of(id as int),
                            s,
                        ) {
                        let s = choose|s: Succ|
                            successors_spec(*game, turn_of(id as int), state_of(st, id as int)).contains(s) && x == #[trigger] edge_target(
                                st,
                                turn_of(id as int),
                                s,
                            );
                        assert(moves@.contains(s));
                        let q = choose|q: int| 0 <= q < moves@.len() && moves@[q] == s;
                        assert(x == edge_target(st, turn, moves@[q]));
                    }
                }
                assert forall|t: u128| #[trigger] successors_spec(*game, turn_of(id as int), state_of(st, id as int)).contains(Succ::State(t)) implies st.contains(t) by {
                    assert(moves@.contains(Succ::State(t)));
                    let q = choose|q: int| 0 <= q < moves@.len() && moves@[q] == Succ::State(t);
                }
            }
            let mut k: usize = 0;
            let ghost preds0 = preds@;
            while k < succ_ids.len()
                invariant
                    2 <= id < total,
                    preds@.len() == total,
                    strictly_increasing(succ_ids@),
                    forall|q: int| 0 <= q < succ_ids@.len() ==> #[trigger] succ_ids@[q] < total,
                    k <= succ_ids@.len(),
                    forall|v: int, u: usize|
                        0 <= v < total ==> (#[trigger] preds@[v]@.contains(u) <==> (preds0[v]@.contains(u) || (u == id
                            && exists|q: int| 0 <= q < k && succ_ids@[q] == v))),
                    forall|v: int, mm: int| 0 <= v < total && 0 <= mm < preds@[v]@.len() ==> #[trigger] preds@[v]@[mm] <= id,
                    forall|v: int, mm: int| 0 <= v < total && 0 <= mm < preds0[v]@.len() ==> #[trigger] preds0[v]@[mm] < id,
                decreases succ_ids@.len() - k,
            {
                let s = succ_ids[k];
                let ghost before = preds@;
                let mut pv = preds[s].clone();
                proof {
                    assert(pv@ =~= before[s as int]@);
                }
                pv.push(id);
                preds.set(s, pv);
                proof {
                    assert forall|v: int, u: usize|
                        0 <= v < total implies (#[trigger] preds@[v]@.contains(u) <==> (preds0[v]@.contains(u) || (u == id
                            && exists|q: int| 0 <= q < k + 1 && succ_ids@[q] == v))) by {
                        if v == s {
                            assert(preds@[v]@ == before[v]@.push(id));
                            if before[v]@.contains(u) {
                                let p = choose|p: int| 0 <= p < before[v]@.len() && before[v]@[p] == u;
                                assert(preds@[v]@[p] == u);
                            }
                            if u == id {
                                assert(preds@[v]@[preds@[v]@.len() - 1] == u);
                            }
                            if preds@[v]@.contains(u) && u != id {
                                let p = choose|p: int| 0 <= p < preds@[v]@.len() && preds@[v]@[p] == u;
                                assert(before[v]@[p] == u);
                            }
                        } else {
                            assert(preds@[v] == before[v]);
                            if exists|q: int| 0 <= q < k + 1 && succ_ids@[q] == v {
                                let q = choose|q: int| 0 <= q < k + 1 && succ_ids@[q] == v;
                                assert(q != k);
                            }
                        }
                    }
                    assert forall|v: int, mm: int| 0 <= v < total && 0 <= mm < preds@[v]@.len() implies #[trigger] preds@[v]@[mm] <= id by {
                        if v == s && mm == preds@[v]@.len() - 1 {
                        } else if v == s {
                            assert(preds@[v]@[mm] == before[v]@[mm]);
                        } else {
                            assert(preds@[v] == before[v]);
                        }
                    }
                }
                k += 1;
            }
            proof {
                assert forall|v: int, u: usize|
                    0 <= v < total implies (#[trigger] preds@[v]@.contains(u) <==> (2 <= u < id + 1 && succs@.push(succ_ids)[u as int]@.contains(v as usize))) by {
                    if u == id {
                        if succ_ids@.contains(v as usize) {
                            let q = choose|q: int| 0 <= q < succ_ids@.len() && succ_ids@[q] == v as usize;
                        }
                        if preds0[v]@.contains(u) {
                            let p = choose|p: int| 0 <= p < preds0[v]@.len() && preds0[v]@[p] == u;
                            assert(preds0[v]@[p] < id);
                        }
                    } else if 2 <= u < id {
                        assert(succs@.push(succ_ids)[u as int] == succs@[u as int]);
                    }
                }
            }
            succs.push(succ_ids);
            id += 1;
        }
        let mut nodes: Vec<Node> = Vec::new();
        let mut q: usize = 0;
        while q < total
            invariant
                total == 2 + 2 * n_states,
                turns@.len() == total,
                node_states@.len() == total,
                succs@.len() == total,
                preds@.len() == total,
                q <= total,
                nodes@.len() == q,
                forall|k: int| 0 <= k < q ==> {
                    &&& (#[trigger] nodes@[k]).turn == turns@[k]
                    &&& nodes@[k].state == node_states@[k]
                    &&& nodes@[k].succ@ == succs@[k]@
                    &&& nodes@[k].pred@ == preds@[k]@
                },
            decreases total - q,
        {
            let sv = succs[q].clone();
            let pv = preds[q].clone();
            proof {
                assert(sv@ =~= succs@[q as int]@);
                assert(pv@ =~= preds@[q as int]@);
            }
            nodes.push(Node { turn: turns[q], state: node_states[q], succ: sv, pred: pv });
            q += 1;
        }
        let arena = Arena { game: self.game.duplicate(), nodes, sink_black: 0, sink_white: 1 };
        proof {
            assert(!missing_successor(self.game, st)) by {
                if missing_successor(self.game, st) {
                    let (idd, t) = choose|idd: int, t: u128|
                        #![trigger successors_spec(self.game, turn_of(idd), state_of(st, idd)).contains(Succ::State(t))]
                        2 <= idd < 2 + 2 * st.len() && successors_spec(self.game, turn_of(idd), state_of(st, idd)).contains(Succ::State(t))
                            && !st.contains(t);
                    assert(st.contains(t));
                }
            }
            assert(arena.built_from(self.game, st));
            assert(arena.wf()) by {
                assert forall|idd: int, k: int|
                    0 <= idd < arena.nodes@.len() && 0 <= k < arena.nodes@[idd].pred@.len() implies #[trigger] arena.nodes@[idd].pred@[k]
                        < arena.nodes@.len() by {
                    assert(preds@[idd]@[k] < total);
                }
            }
        }
        Some(arena)
    }
}

} // verus!
