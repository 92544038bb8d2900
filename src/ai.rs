use vstd::prelude::*;
use crate::grid::{
    Grid, dead, dead_grid, grid_line, heuristic, heuristic_value, is_placement, is_slide, lemma_heuristic_range,
    lemma_merge_len, lemma_slide_unique, lemma_tiles_len, line_col, line_row, merge_exponents,
    mergeable, pad4, place, same_grid, slide, tiles,
};
use crate::state::{
    Direction, Move, State, is_value_slide, merge_values, move_fits, next_state_result, placer_move_seq,
    placer_moves, slider_move_seq, slider_moves, value_grid_line,
};
use crate::symmetry::{
    canonical_grid, code, grid_code, is_canonical, is_image, lemma_canonical_of_image, lemma_image_unique,
    lemma_code_injective, symmetries,
};
use std::collections::HashMap;

verus! {

broadcast use vstd::std_specs::hash::group_hash_axioms;

/// The number of turn buckets that partition the search caches.
pub const TURNS_MOD: i32 = 64;

/// The bound of every search value; `-INF` and `INF` stand for an open window.
pub const INF: i32 = 2147483647;

/// The value, before the turn count is added, of a grid on which the Slider is stuck.
pub const DEATH_VALUE: i32 = -1000000000;

/// The search depth that marks a node whose value is final.
pub const EXACT_DEPTH: i32 = 2147483647;

/// A position for the search: the turn count and the grid of exponents. An even turn
/// count means the Placer is to move, an odd one the Slider.
#[derive(Clone, Copy, Debug, PartialEq, Eq, Hash)]
pub struct NodeKey {
    pub turns: i32,
    pub grid: Grid,
}

impl NodeKey {
    pub fn new(turns: i32, grid: Grid) -> (k: NodeKey)
        ensures
            k.turns == turns,
            k.grid == grid,
    {
        NodeKey { turns, grid }
    }
}

/// `c` is the position that move `m` leads to from `key`. A slide must move a tile
/// (and is not tried on a grid that already holds the largest exponent); a placement
/// must put a 2 or a 4 into an empty cell, and costs one turn for a 2 and three for a 4.
pub open spec fn move_result(key: NodeKey, m: Move, c: NodeKey) -> bool {
    match m {
        Move::Slide(d) => mergeable(key.grid) && is_slide(key.grid, d, c.grid) && c.grid != key.grid
            && c.turns == key.turns + 1,
        Move::Place { x, y, val } => (val == 2 || val == 4) && x < 4 && y < 4 && key.grid[x as int][y as int]
            == 0 && is_placement(key.grid, x as int, y as int, (val / 2) as u8, c.grid) && c.turns
            == key.turns + val - 1,
    }
}

/// Move `m` is legal from `key`.
pub open spec fn move_applies(key: NodeKey, m: Move) -> bool {
    exists|c: NodeKey| move_result(key, m, c)
}

/// The moves of the side to move at `key`.
pub open spec fn moves_for(key: NodeKey) -> Seq<Move> {
    if key.turns % 2 == 0 {
        placer_move_seq()
    } else {
        slider_move_seq()
    }
}

/// `ch` lists, in order, the positions that the legal moves among `ms` lead to.
pub open spec fn children_match(key: NodeKey, ms: Seq<Move>, ch: Seq<NodeKey>) -> bool
    decreases ms.len(),
{
    if ms.len() == 0 {
        ch.len() == 0
    } else if move_applies(key, ms.last()) {
        ch.len() > 0 && move_result(key, ms.last(), ch.last()) && children_match(
            key,
            ms.drop_last(),
            ch.drop_last(),
        )
    } else {
        children_match(key, ms.drop_last(), ch)
    }
}

/// The Slider is to move at `key` and has no legal move: the game is over.
pub open spec fn is_terminal(key: NodeKey) -> bool {
    key.turns % 2 == 1 && dead(key.grid)
}

/// The final value of a lost position, to the side to move: later deaths are less bad.
pub open spec fn death_value(turns: int) -> int {
    DEATH_VALUE + turns
}

/// Applies move `m` to the position `key`; `None` when the move is illegal there or the
/// turn count would leave its range.
pub fn apply_move(key: &NodeKey, m: Move) -> (r: Option<NodeKey>)
    ensures
        match r {
            Some(c) => move_result(*key, m, c),
            None => !move_applies(*key, m),
        },
{
    match m {
        Move::Slide(d) => {
            if !is_mergeable(&key.grid) {
                return None;
            }
            if key.turns == 2147483647 {
                return None;
            }
            match slide(&key.grid, d) {
                Some(grid) => Some(NodeKey { turns: key.turns + 1, grid }),
                None => {
                    proof {
                        assert forall|c: NodeKey| !move_result(*key, m, c) by {
                            if is_slide(key.grid, d, c.grid) {
                                lemma_slide_unique(key.grid, d, c.grid, key.grid);
                            }
                        }
                    }
                    None
                },
            }
        },
        Move::Place { x, y, val } => {
            if !(val == 2 || val == 4) || x >= 4 || y >= 4 {
                return None;
            }
            let inc: i32 = val - 1;
            if key.turns > 2147483647 - inc {
                proof {
                    assert forall|c: NodeKey| !move_result(*key, m, c) by {
                        assert(c.turns <= 2147483647);
                    }
                }
                return None;
            }
            match place(&key.grid, x, y, (val / 2) as u8) {
                Some(grid) => Some(NodeKey { turns: key.turns + inc, grid }),
                None => None,
            }
        },
    }
}

/// Whether no cell of `g` holds the largest exponent.
fn is_mergeable(g: &Grid) -> (b: bool)
    ensures
        b == mergeable(*g),
{
    let mut r: usize = 0;
    while r < 4
        invariant
            r <= 4,
            forall|x: int, y: int| 0 <= x < r && 0 <= y < 4 ==> g[x][y] < 255,
        decreases 4 - r,
    {
        let mut c: usize = 0;
        while c < 4
            invariant
                r < 4,
                c <= 4,
                forall|x: int, y: int| 0 <= x < r && 0 <= y < 4 ==> g[x][y] < 255,
                forall|y: int| 0 <= y < c ==> g[r as int][y] < 255,
            decreases 4 - c,
        {
            if g[r][c] == 255 {
                return false;
            }
            c = c + 1;
        }
        r = r + 1;
    }
    true
}

/// What the search has learnt about one position (stored under its representative).
#[derive(Debug)]
pub struct NodeData {
    /// The position, with the representative grid of its symmetry class.
    pub key: NodeKey,
    /// The horizon (an absolute turn count) for which the bounds were computed; -1 when
    /// never searched, `EXACT_DEPTH` when the value is final.
    pub search_depth: i32,
    pub upper_bound: i32,
    pub lower_bound: i32,
    /// The positions one legal move away, in the order of the move set.
    pub children: Vec<NodeKey>,
    /// The child that gave the best value in the last full search of this node.
    pub best_child: Option<NodeKey>,
}

/// The invariant of a stored node.
pub open spec fn node_ok(n: NodeData) -> bool {
    &&& n.key.turns >= 0
    &&& -INF <= n.lower_bound
    &&& -INF <= n.upper_bound
    &&& (n.search_depth == EXACT_DEPTH) == is_terminal(n.key)
    &&& is_terminal(n.key) ==> {
        &&& n.children@.len() == 0
        &&& n.lower_bound == death_value(n.key.turns as int)
        &&& n.upper_bound == death_value(n.key.turns as int)
    }
    &&& !is_terminal(n.key) ==> children_match(n.key, moves_for(n.key), n.children@)
    &&& forall|i: int| 0 <= i < n.children@.len() ==> n.key.turns < #[trigger] n.children@[i].turns
    &&& forall|c: NodeKey| n.best_child == Some(c) ==> n.children@.contains(c)
}

/// A node never searched yet, for position `key`: its children are the positions that
/// the legal moves lead to, and a stuck Slider makes it final at once.
pub fn new_node(key: &NodeKey) -> (n: NodeData)
    requires
        key.turns >= 0,
    ensures
        node_ok(n),
        n.key == *key,
        n.best_child is None,
        !is_terminal(*key) ==> n.search_depth == -1 && n.lower_bound == -INF && n.upper_bound == INF,
{
    let moves = if key.turns % 2 == 0 {
        placer_moves()
    } else {
        if dead_grid(&key.grid) {
            return NodeData {
                key: *key,
                search_depth: EXACT_DEPTH,
                upper_bound: DEATH_VALUE + key.turns,
                lower_bound: DEATH_VALUE + key.turns,
                children: Vec::new(),
                best_child: None,
            };
        }
        slider_moves()
    };
    let ghost ms = moves@;
    assert(ms == moves_for(*key));
    let mut children: Vec<NodeKey> = Vec::new();
    let mut i: usize = 0;
    proof {
        assert(ms.take(0).len() == 0);
    }
    while i < moves.len()
        invariant
            ms == moves@,
            i <= moves.len(),
            children_match(*key, ms.take(i as int), children@),
            forall|j: int| 0 <= j < children@.len() ==> key.turns < #[trigger] children@[j].turns,
        decreases moves.len() - i,
    {
        let m = moves[i];
        let r = apply_move(key, m);
        proof {
            assert(ms.take(i + 1).drop_last() =~= ms.take(i as int));
            assert(ms.take(i + 1).last() == m);
        }
        match r {
            Some(c) => {
                let ghost before = children@;
                children.push(c);
                proof {
                    assert(children@.drop_last() =~= before);
                    assert(move_applies(*key, m));
                }
            },
            None => {},
        }
        i = i + 1;
    }
    proof {
        assert(ms.take(ms.len() as int) =~= ms);
    }
    NodeData {
        key: *key,
        search_depth: -1,
        upper_bound: INF,
        lower_bound: -INF,
        children,
        best_child: None,
    }
}

/// The turn bucket of a turn count.
pub open spec fn bucket(turns: int) -> int {
    turns % (TURNS_MOD as int)
}

/// Every grid whose code a canonical-grid map holds is mapped to its representative.
pub open spec fn sym_map_ok(m: Map<u128, Grid>) -> bool {
    forall|g: Grid| #[trigger] m.contains_key(code(g) as u128) ==> is_canonical(g, m[code(g) as u128])
}

/// Every node of the map for bucket `b` is well formed, stored under the code of its
/// grid, has a turn count in bucket `b`, and a representative grid.
pub open spec fn node_map_ok(m: Map<u128, NodeData>, b: int) -> bool {
    forall|k: u128| #[trigger]
        m.contains_key(k) ==> {
            &&& node_ok(m[k])
            &&& code(m[k].key.grid) == k
            &&& bucket(m[k].key.turns as int) == b
            &&& is_canonical(m[k].key.grid, m[k].key.grid)
        }
}

/// The search engine: a transposition table of nodes keyed by representative grid and
/// split by turn bucket, the current root position, and the search depth in turns.
pub struct Ai {
    sym_map: Vec<HashMap<u128, Grid>>,
    node_map: Vec<HashMap<u128, NodeData>>,
    root_key: NodeKey,
    search_depth: i32,
}

impl Ai {
    /// The engine's invariant.
    pub closed spec fn wf(&self) -> bool {
        &&& self.sym_map@.len() == TURNS_MOD
        &&& self.node_map@.len() == TURNS_MOD
        &&& forall|b: int| 0 <= b < TURNS_MOD ==> #[trigger] sym_map_ok(self.sym_map@[b]@)
        &&& forall|b: int| 0 <= b < TURNS_MOD ==> #[trigger] node_map_ok(self.node_map@[b]@, b)
        &&& self.root_key.turns >= 0
    }

    /// Every stored node agrees with the values at the horizons it was searched to,
    /// none of which is beyond `h`.
    pub closed spec fn consistent(&self, h: int) -> bool {
        forall|b: int, k: u128|
            0 <= b < TURNS_MOD && #[trigger] self.node_map@[b]@.contains_key(k) ==> node_consistent(
                self.node_map@[b]@[k],
                h,
            )
    }

    /// The table holds nothing searched beyond the engine's own horizon (the root's turn
    /// count plus the depth), so the searches that `pick_move` runs meet the premise of
    /// the alpha-beta guarantee of `negamax`.
    pub closed spec fn searches_sound(&self) -> bool {
        self.search_depth >= 0 ==> self.consistent(self.root_key.turns + self.search_depth)
    }

    proof fn lemma_consistent_later(&self, h: int, h2: int)
        requires
            self.consistent(h),
            h <= h2,
        ensures
            self.consistent(h2),
    {
        assert forall|b: int, k: u128|
            0 <= b < TURNS_MOD && #[trigger] self.node_map@[b]@.contains_key(k) implies node_consistent(
            self.node_map@[b]@[k],
            h2,
        ) by {
            assert(node_consistent(self.node_map@[b]@[k], h));
        }
    }

    /// Two engines whose node tables hold the same entries store the same nodes.
    proof fn lemma_same_nodes(&self, other: &Ai)
        requires
            self.node_map@.len() == TURNS_MOD,
            other.node_map@.len() == TURNS_MOD,
            forall|c: int| 0 <= c < TURNS_MOD ==> #[trigger] self.node_map@[c]@ == other.node_map@[c]@,
        ensures
            forall|k: NodeKey| #[trigger] self.stored(k) == other.stored(k),
    {
        assert forall|k: NodeKey| #[trigger] self.stored(k) == other.stored(k) by {
            if k.turns >= 0 {
                assert(self.node_map@[bucket(k.turns as int)]@ == other.node_map@[bucket(k.turns as int)]@);
            }
        }
    }

    /// Putting back the node that was just taken out, unchanged, restores the table.
    proof fn lemma_put_back(&self, taken: Ai, before: &Ai, key: NodeKey, ck: NodeKey, node: NodeData)
        requires
            before.node_map@.len() == TURNS_MOD,
            taken.node_map@.len() == TURNS_MOD,
            self.node_map@.len() == TURNS_MOD,
            ck.turns == key.turns,
            key.turns >= 0,
            node.key == ck,
            before.stored(ck) == Some(node),
            taken.node_map@[bucket(key.turns as int)]@ == before.node_map@[bucket(key.turns as int)]@.remove(
                code(ck.grid) as u128,
            ),
            forall|c: int|
                0 <= c < TURNS_MOD && c != bucket(key.turns as int) ==> #[trigger] taken.node_map@[c]
                    == before.node_map@[c],
            self.node_map@[bucket(key.turns as int)]@ == taken.node_map@[bucket(key.turns as int)]@.insert(
                code(ck.grid) as u128,
                node,
            ),
            forall|c: int|
                0 <= c < TURNS_MOD && c != bucket(key.turns as int) ==> #[trigger] self.node_map@[c]
                    == taken.node_map@[c],
        ensures
            forall|k: NodeKey| #[trigger] self.stored(k) == before.stored(k),
    {
        let b = bucket(key.turns as int);
        let kc = code(ck.grid) as u128;
        assert(self.node_map@[b]@ =~= before.node_map@[b]@);
        assert forall|c: int| 0 <= c < TURNS_MOD implies #[trigger] self.node_map@[c]@ == before.node_map@[c]@ by {
            if c != b {
                assert(self.node_map@[c] == taken.node_map@[c]);
            }
        }
        self.lemma_same_nodes(before);
    }

    /// A stored node is well formed and is stored under its own position.
    proof fn lemma_stored_ok(&self, k: NodeKey)
        requires
            self.wf(),
            self.stored(k) is Some,
        ensures
            node_ok(self.stored(k)->0),
            self.stored(k)->0.key == k,
    {
        assert(node_map_ok(self.node_map@[bucket(k.turns as int)]@, bucket(k.turns as int)));
    }

    /// An engine whose searches are sound holds nothing searched beyond its horizon.
    pub proof fn lemma_sound_is_consistent(&self)
        requires
            self.searches_sound(),
            self.depth() >= 0,
        ensures
            self.consistent(self.root().turns + self.depth()),
    {
    }

    /// Consistency up to a horizon holds up to every later horizon.
    pub proof fn lemma_consistent_later_horizon(&self, h: int, h2: int)
        requires
            self.consistent(h),
            h <= h2,
        ensures
            self.consistent(h2),
    {
        self.lemma_consistent_later(h, h2);
    }

    /// The position from which the engine searches.
    pub closed spec fn root(&self) -> NodeKey {
        self.root_key
    }

    /// How many turns ahead of the root the engine searches.
    pub closed spec fn depth(&self) -> int {
        self.search_depth as int
    }

    /// The node stored for position `key` (whose grid is a representative), if any.
    pub closed spec fn stored(&self, key: NodeKey) -> Option<NodeData> {
        let m = self.node_map@[bucket(key.turns as int)]@;
        let k = code(key.grid) as u128;
        if key.turns >= 0 && m.contains_key(k) && m[k].key == key {
            Some(m[k])
        } else {
            None
        }
    }

    /// Both caches of turn bucket `b` are empty.
    pub closed spec fn bucket_empty(&self, b: int) -> bool {
        self.sym_map@[b]@ == Map::<u128, Grid>::empty() && self.node_map@[b]@ == Map::<u128, NodeData>::empty()
    }

    /// An engine at the start of a game (empty grid, Placer to move) that searches
    /// `search_depth` turns ahead.
    pub fn new(search_depth: i32) -> (ai: Ai)
        ensures
            ai.wf(),
            ai.root().turns == 0,
            forall|r: int, c: int| 0 <= r < 4 && 0 <= c < 4 ==> ai.root().grid[r][c] == 0,
            ai.depth() == search_depth,
            forall|b: int| 0 <= b < TURNS_MOD ==> ai.bucket_empty(b),
            ai.searches_sound(),
    {
        let mut sym_map: Vec<HashMap<u128, Grid>> = Vec::new();
        let mut node_map: Vec<HashMap<u128, NodeData>> = Vec::new();
        let mut i: usize = 0;
        while i < 64
            invariant
                i <= 64,
                sym_map@.len() == i,
                node_map@.len() == i,
                forall|b: int| 0 <= b < i ==> (#[trigger] sym_map@[b])@ == Map::<u128, Grid>::empty(),
                forall|b: int| 0 <= b < i ==> (#[trigger] node_map@[b])@ == Map::<u128, NodeData>::empty(),
            decreases 64 - i,
        {
            sym_map.push(HashMap::new());
            node_map.push(HashMap::new());
            i = i + 1;
        }
        let ai = Ai { sym_map, node_map, root_key: NodeKey { turns: 0, grid: [[0u8; 4]; 4] }, search_depth };
        proof {
            assert forall|b: int| 0 <= b < TURNS_MOD implies #[trigger] sym_map_ok(ai.sym_map@[b]@) by {}
            assert forall|b: int| 0 <= b < TURNS_MOD implies #[trigger] node_map_ok(ai.node_map@[b]@, b) by {}
        }
        ai
    }

    /// `key` with its grid replaced by the representative of its symmetry class; the
    /// answer is remembered for all eight images at once.
    fn canonical_key(&mut self, key: NodeKey) -> (ck: NodeKey)
        requires
            old(self).wf(),
            key.turns >= 0,
        ensures
            final(self).wf(),
            ck.turns == key.turns,
            is_canonical(key.grid, ck.grid),
            final(self).node_map == old(self).node_map,
            final(self).root_key == old(self).root_key,
            final(self).search_depth == old(self).search_depth,
            forall|h: int| #[trigger] old(self).consistent(h) ==> final(self).consistent(h),
            forall|c: int|
                0 <= c < TURNS_MOD && c != bucket(key.turns as int) ==> #[trigger] final(self).sym_map@[c]
                    == old(self).sym_map@[c],
            final(self).sym_map@[bucket(key.turns as int)]@.contains_key(code(key.grid) as u128),
            final(self).sym_map@[bucket(key.turns as int)]@[code(key.grid) as u128] == ck.grid,
            !old(self).sym_map@[bucket(key.turns as int)]@.contains_key(code(key.grid) as u128) ==> forall|
                t: int,
                g: Grid,
            |
                #[trigger] is_image(key.grid, t, g) ==> final(self).sym_map@[bucket(key.turns as int)]@.contains_key(
                    code(g) as u128,
                ) && final(self).sym_map@[bucket(key.turns as int)]@[code(g) as u128] == ck.grid,
    {
        let b = (key.turns % 64) as usize;
        let k = grid_code(&key.grid);
        match self.sym_map[b].get(&k) {
            Some(g) => {
                proof {
                    assert(self.sym_map@[b as int]@.contains_key(code(key.grid) as u128));
                    assert(sym_map_ok(self.sym_map@[b as int]@));
                }
                return NodeKey { turns: key.turns, grid: *g };
            },
            None => {},
        }
        let images = symmetries(&key.grid);
        let best = canonical_grid(&key.grid);
        let mut t: usize = 0;
        while t < 8
            invariant
                old(self).wf(),
                self.sym_map@.len() == TURNS_MOD,
                self.node_map == old(self).node_map,
                self.root_key == old(self).root_key,
                self.search_depth == old(self).search_depth,
                b < 64,
                t <= 8,
                is_canonical(key.grid, best),
                forall|u: int| 0 <= u < 8 ==> is_image(key.grid, u, #[trigger] images[u]),
                forall|c: int| 0 <= c < TURNS_MOD && c != b ==> self.sym_map@[c] == old(self).sym_map@[c],
                sym_map_ok(self.sym_map@[b as int]@),
                forall|u: int|
                    0 <= u < t ==> self.sym_map@[b as int]@.contains_key(code(#[trigger] images[u]) as u128)
                        && self.sym_map@[b as int]@[code(images[u]) as u128] == best,
            decreases 8 - t,
        {
            let kt = grid_code(&images[t]);
            proof {
                lemma_canonical_of_image(key.grid, t as int, images[t as int], best);
            }
            let ghost before = self.sym_map@[b as int]@;
            self.sym_map[b].insert(kt, best);
            proof {
                let m = self.sym_map@[b as int]@;
                assert(m == before.insert(kt, best));
                assert forall|g: Grid| #[trigger] m.contains_key(code(g) as u128) implies is_canonical(
                    g,
                    m[code(g) as u128],
                ) by {
                    if code(g) as u128 == kt {
                        lemma_code_injective(g, images[t as int]);
                    } else {
                        assert(before.contains_key(code(g) as u128));
                    }
                }
            }
            proof {
                assert forall|u: int|
                    0 <= u < t + 1 implies self.sym_map@[b as int]@.contains_key(code(#[trigger] images[u]) as u128)
                    && self.sym_map@[b as int]@[code(images[u]) as u128] == best by {
                    if u == t {
                        assert(code(images[u]) as u128 == kt);
                    }
                }
            }
            t = t + 1;
        }
        proof {
            assert forall|t2: int, g: Grid| #[trigger] is_image(key.grid, t2, g) implies self.sym_map@[b as int]@.contains_key(
                code(g) as u128,
            ) && self.sym_map@[b as int]@[code(g) as u128] == best by {
                lemma_image_unique(key.grid, t2, g, images[t2]);
            }
            assert(is_image(key.grid, 0, key.grid));
            assert forall|c: int| 0 <= c < TURNS_MOD implies #[trigger] sym_map_ok(self.sym_map@[c]@) by {
                if c != b {
                    assert(self.sym_map@[c] == old(self).sym_map@[c]);
                }
            }
        }
        NodeKey { turns: key.turns, grid: best }
    }

    /// Takes the node of position `key` out of the table, under the representative of
    /// its grid; a node whose position has a different turn count than `key` (left
    /// over from a turn that shares the bucket) is never used, and an absent one is
    /// created.
    fn key_to_node(&mut self, key: NodeKey) -> (res: (NodeKey, NodeData))
        requires
            old(self).wf(),
            key.turns >= 0,
        ensures
            final(self).wf(),
            res.0.turns == key.turns,
            is_canonical(key.grid, res.0.grid),
            is_canonical(res.0.grid, res.0.grid),
            res.1.key == res.0,
            node_ok(res.1),
            old(self).stored(res.0) is Some ==> res.1 == old(self).stored(res.0)->0,
            old(self).stored(res.0) is None ==> {
                &&& res.1.best_child is None
                &&& !is_terminal(res.0) ==> res.1.search_depth == -1 && res.1.lower_bound == -INF
                    && res.1.upper_bound == INF
            },
            final(self).stored(res.0) is None,
            final(self).root_key == old(self).root_key,
            final(self).search_depth == old(self).search_depth,
            final(self).node_map@[bucket(key.turns as int)]@ == old(self).node_map@[bucket(key.turns as int)]@.remove(
                code(res.0.grid) as u128,
            ),
            forall|c: int|
                0 <= c < TURNS_MOD && c != bucket(key.turns as int) ==> #[trigger] final(self).node_map@[c]
                    == old(self).node_map@[c],
            forall|c: int|
                0 <= c < TURNS_MOD && c != bucket(key.turns as int) ==> #[trigger] final(self).sym_map@[c]
                    == old(self).sym_map@[c],
            forall|h: int|
                h >= 0 && #[trigger] old(self).consistent(h) ==> final(self).consistent(h) && node_consistent(
                    res.1,
                    h,
                ),
            final(self).sym_map@[bucket(key.turns as int)]@.contains_key(code(key.grid) as u128),
            final(self).sym_map@[bucket(key.turns as int)]@[code(key.grid) as u128] == res.0.grid,
            !old(self).sym_map@[bucket(key.turns as int)]@.contains_key(code(key.grid) as u128) ==> forall|
                t: int,
                g: Grid,
            |
                #[trigger] is_image(key.grid, t, g) ==> final(self).sym_map@[bucket(key.turns as int)]@.contains_key(
                    code(g) as u128,
                ) && final(self).sym_map@[bucket(key.turns as int)]@[code(g) as u128] == res.0.grid,
            forall|k: NodeKey|
                k.turns != key.turns && (#[trigger] final(self).stored(k)) is Some ==> final(self).stored(k)
                    == old(self).stored(k),
    {
        let ck = self.canonical_key(key);
        proof {
            let ta = choose|u: int| is_image(key.grid, u, ck.grid);
            lemma_canonical_of_image(key.grid, ta, ck.grid, ck.grid);
        }
        let b = (ck.turns % 64) as usize;
        let k = grid_code(&ck.grid);
        let ghost before = self.node_map@[b as int]@;
        let removed = self.node_map[b].remove(&k);
        proof {
            let m = self.node_map@[b as int]@;
            assert(m == before.remove(k));
            assert(node_map_ok(before, b as int));
            assert forall|k2: u128| #[trigger] m.contains_key(k2) implies {
                &&& node_ok(m[k2])
                &&& code(m[k2].key.grid) == k2
                &&& bucket(m[k2].key.turns as int) == b as int
                &&& is_canonical(m[k2].key.grid, m[k2].key.grid)
            } by {
                assert(before.contains_key(k2));
            }
            assert(node_map_ok(m, b as int));
            assert forall|c: int| 0 <= c < TURNS_MOD implies #[trigger] node_map_ok(self.node_map@[c]@, c) by {
                if c != b {
                    assert(self.node_map@[c] == old(self).node_map@[c]);
                }
            }
            assert forall|h: int| h >= 0 && #[trigger] old(self).consistent(h) implies self.consistent(h) && (
            removed matches Some(n) ==> node_consistent(n, h)) by {
                assert forall|c: int, k2: u128|
                    0 <= c < TURNS_MOD && #[trigger] self.node_map@[c]@.contains_key(k2) implies node_consistent(
                    self.node_map@[c]@[k2],
                    h,
                ) by {
                    if c != b {
                        assert(self.node_map@[c] == old(self).node_map@[c]);
                    }
                    assert(old(self).node_map@[c]@.contains_key(k2));
                }
                if removed is Some {
                    assert(old(self).node_map@[b as int]@.contains_key(k));
                }
            }
        }
        match removed {
            Some(n) => {
                if n.key.turns == ck.turns {
                    proof {
                        assert(before.contains_key(k));
                        lemma_code_injective(n.key.grid, ck.grid);
                        assert(n.key == ck);
                    }
                    (ck, n)
                } else {
                    (ck, new_node(&ck))
                }
            },
            None => (ck, new_node(&ck)),
        }
    }

    /// Stores `node` under its position.
    fn put_node(&mut self, node: NodeData)
        requires
            old(self).wf(),
            node_ok(node),
            is_canonical(node.key.grid, node.key.grid),
        ensures
            final(self).wf(),
            final(self).stored(node.key) == Some(node),
            final(self).root_key == old(self).root_key,
            final(self).search_depth == old(self).search_depth,
            final(self).sym_map == old(self).sym_map,
            final(self).node_map@[bucket(node.key.turns as int)]@ == old(self).node_map@[bucket(
                node.key.turns as int,
            )]@.insert(code(node.key.grid) as u128, node),
            forall|c: int|
                0 <= c < TURNS_MOD && c != bucket(node.key.turns as int) ==> #[trigger] final(self).node_map@[c]
                    == old(self).node_map@[c],
            forall|h: int|
                #[trigger] old(self).consistent(h) && node_consistent(node, h) ==> final(self).consistent(h),
            forall|k: NodeKey|
                k.turns != node.key.turns && (#[trigger] final(self).stored(k)) is Some ==> final(self).stored(k)
                    == old(self).stored(k),
    {
        let b = (node.key.turns % 64) as usize;
        let k = grid_code(&node.key.grid);
        let ghost before = self.node_map@[b as int]@;
        let ghost n = node;
        self.node_map[b].insert(k, node);
        proof {
            let m = self.node_map@[b as int]@;
            assert(m == before.insert(k, n));
            assert(bucket(n.key.turns as int) == b as int);
            assert(node_map_ok(before, b as int));
            assert forall|k2: u128| #[trigger] m.contains_key(k2) implies {
                &&& node_ok(m[k2])
                &&& code(m[k2].key.grid) == k2
                &&& bucket(m[k2].key.turns as int) == b as int
                &&& is_canonical(m[k2].key.grid, m[k2].key.grid)
            } by {
                if k2 != k {
                    assert(before.contains_key(k2));
                }
            }
            assert(node_map_ok(m, b as int));
            assert forall|c: int| 0 <= c < TURNS_MOD implies #[trigger] node_map_ok(self.node_map@[c]@, c) by {
                if c != b {
                    assert(self.node_map@[c] == old(self).node_map@[c]);
                }
            }
            assert forall|h: int| #[trigger] old(self).consistent(h) && node_consistent(n, h) implies self.consistent(h) by {
                assert forall|c: int, k2: u128|
                    0 <= c < TURNS_MOD && #[trigger] self.node_map@[c]@.contains_key(k2) implies node_consistent(
                    self.node_map@[c]@[k2],
                    h,
                ) by {
                    if c != b {
                        assert(self.node_map@[c] == old(self).node_map@[c]);
                        assert(old(self).node_map@[c]@.contains_key(k2));
                    } else if k2 != k {
                        assert(old(self).node_map@[c]@.contains_key(k2));
                    }
                }
            }
        }
    }
}

/// The cached bounds of `n` answer a search to horizon `max_depth` in the window
/// `(alpha, beta)` without looking at its children: they are authoritative for that
/// horizon and the window narrowed by them is empty.
pub open spec fn cache_decides(n: NodeData, max_depth: i32, alpha: i32, beta: i32) -> bool {
    n.search_depth >= max_depth && (if alpha > n.lower_bound {
        alpha
    } else {
        n.lower_bound
    }) >= (if beta < n.upper_bound {
        beta
    } else {
        n.upper_bound
    })
}

/// What deciding bounds answer: the lower bound when it reaches `beta`, the upper bound
/// when it is at most `alpha`, and otherwise the narrowed alpha (where the bounds meet).
pub open spec fn cached_answer(n: NodeData, alpha: i32, beta: i32) -> i32 {
    if n.lower_bound >= beta {
        n.lower_bound
    } else if n.upper_bound <= alpha {
        n.upper_bound
    } else if alpha > n.lower_bound {
        alpha
    } else {
        n.lower_bound
    }
}

/// How many turns separate `turns` from the horizon `max_depth`.
pub open spec fn remaining(max_depth: i32, turns: i32) -> nat {
    if max_depth > turns {
        (max_depth - turns) as nat
    } else {
        0
    }
}

/// The static value of a position at the search horizon, to the side to move: the
/// heuristic counts for the Slider and against the Placer.
pub open spec fn leaf_value(key: NodeKey) -> int {
    if key.turns % 2 == 1 {
        heuristic_value(key.grid)
    } else {
        -heuristic_value(key.grid)
    }
}

impl Ai {
    /// Negamax search with alpha-beta pruning of position `key` up to the horizon
    /// `max_depth` (an absolute turn count), in the window `(alpha, beta)`. The value is
    /// for the side to move at `key`. The node's bounds, search depth and best child are
    /// updated in the table.
    #[verifier::rlimit(100)]
    pub fn negamax(&mut self, key: NodeKey, max_depth: i32, alpha: i32, beta: i32) -> (v: i32)
        requires
            old(self).wf(),
            key.turns >= 0,
            max_depth < EXACT_DEPTH,
            -INF <= alpha < beta,
        ensures
            final(self).wf(),
            -INF <= v,
            final(self).root() == old(self).root(),
            final(self).depth() == old(self).depth(),
            // Nodes of earlier turns are kept or dropped, never changed.
            forall|k: NodeKey|
                k.turns < key.turns && (#[trigger] final(self).stored(k)) is Some ==> final(self).stored(k)
                    == old(self).stored(k),
            ({
                let ck = rep_key(key);
                final(self).stored(ck) is Some
            }),
            // A final value never changes.
            ({
                let ck = rep_key(key);
                old(self).stored(ck) is Some && old(self).stored(ck)->0.search_depth == EXACT_DEPTH
                ==> v == old(self).stored(ck)->0.lower_bound && final(self).stored(ck) == old(self).stored(ck)
            }),
            // A search that cached bounds already cover only narrows them.
            ({
                let ck = rep_key(key);
                old(self).stored(ck) is Some && old(self).stored(ck)->0.search_depth >= max_depth
                    && key.turns < max_depth ==> {
                    &&& final(self).stored(ck)->0.lower_bound >= old(self).stored(ck)->0.lower_bound
                    &&& final(self).stored(ck)->0.upper_bound <= old(self).stored(ck)->0.upper_bound
                }
            }),
            // A dead grid on the Slider's turn is worth its final value.
            ({
                let ck = rep_key(key);
                is_terminal(ck) ==> v == death_value(key.turns as int)
            }),
            // Cached bounds that decide the window are returned, and the table is
            // left as it was.
            ({
                let ck = rep_key(key);
                old(self).stored(ck) is Some && cache_decides(old(self).stored(ck)->0, max_depth, alpha, beta)
                ==> {
                    &&& v == cached_answer(old(self).stored(ck)->0, alpha, beta)
                    &&& forall|k: NodeKey| #[trigger] final(self).stored(k) == old(self).stored(k)
                }
            }),
            // At the horizon, with no cached bounds for it, the value is the static
            // estimate, stored as exact at depth 0.
            ({
                let ck = rep_key(key);
                key.turns >= max_depth && !is_terminal(ck) && (old(self).stored(ck) is None
                    || old(self).stored(ck)->0.search_depth < max_depth) ==> {
                    &&& v == leaf_value(ck)
                    &&& final(self).stored(ck)->0.lower_bound == v
                    &&& final(self).stored(ck)->0.upper_bound == v
                    &&& final(self).stored(ck)->0.search_depth == 0
                }
            }),
            // A search of the children records the horizon and a best child.
            ({
                let ck = rep_key(key);
                key.turns < max_depth && !is_terminal(ck) && !(old(self).stored(ck) is Some
                    && cache_decides(old(self).stored(ck)->0, max_depth, alpha, beta)) ==> {
                    &&& final(self).stored(ck)->0.search_depth == max_depth
                    &&& final(self).stored(ck)->0.children@.len() > 0 ==> final(self).stored(
                        ck,
                    )->0.best_child is Some
                    // On bounds that were not reused, the window decides which bound is set.
                    &&& (old(self).stored(ck) is None || old(self).stored(ck)->0.search_depth
                        < max_depth) ==> {
                        &&& v < beta ==> final(self).stored(ck)->0.upper_bound == v
                        &&& v > alpha ==> final(self).stored(ck)->0.lower_bound == v
                    }
                    // On an open search, the best child is the first child, in stored
                    // order, whose position reaches the value.
                    &&& old(self).consistent(max_depth as int) && max_depth >= 0 && (old(self).stored(ck) is None || old(self).stored(ck)->0.search_depth < max_depth)
                        && alpha < v < beta ==> is_first_best_child(
                        final(self).stored(ck)->0,
                        max_depth as int,
                        v as int,
                    )
                    &&& old(self).consistent(max_depth as int) && max_depth >= 0 ==> {
                        &&& v < beta ==> final(self).stored(ck)->0.upper_bound == v
                        &&& v > alpha ==> final(self).stored(ck)->0.lower_bound == v
                        &&& (old(self).stored(ck) is None || old(self).stored(ck)->0.search_depth
                            < max_depth) && alpha < v < beta ==> (final(self).stored(
                            ck,
                        )->0.best_child is Some && -value_at(rep_key(final(self).stored(ck)->0.best_child->0), max_depth as int) == v)
                    }
                }
            }),
            // When the table holds nothing searched beyond the horizon, the result bounds
            // the value as alpha-beta promises, and the table stays so.
            old(self).consistent(max_depth as int) && max_depth >= 0 ==> {
                &&& final(self).consistent(max_depth as int)
                &&& fail_soft(v as int, alpha as int, beta as int, value_at(rep_key(key), max_depth as int))
            },
        decreases remaining(max_depth, key.turns),
    {
        let ghost h = max_depth as int;
        let ghost p = old(self).consistent(h) && max_depth >= 0;
        let (ck, mut node) = self.key_to_node(key);
        proof {
            lemma_rep_key(key, ck);
            if p {
                assert(self.consistent(h));
                assert(node_consistent(node, h));
            }
        }
        let ghost old_node = old(self).stored(ck);
        let ghost taken = *self;
        let ghost reused = node.search_depth >= max_depth;
        let mut a = alpha;
        let mut b = beta;
        if node.search_depth >= max_depth {
            if node.lower_bound >= b {
                let v = node.lower_bound;
                self.put_node(node);
                proof {
                    if old_node is Some {
                        self.lemma_put_back(taken, old(self), key, ck, node);
                    }
                }
                return v;
            }
            if node.upper_bound <= a {
                let v = node.upper_bound;
                self.put_node(node);
                proof {
                    if old_node is Some {
                        self.lemma_put_back(taken, old(self), key, ck, node);
                    }
                }
                return v;
            }
            if node.lower_bound > a {
                a = node.lower_bound;
            }
            if node.upper_bound < b {
                b = node.upper_bound;
            }
            if a >= b {
                self.put_node(node);
                proof {
                    if old_node is Some {
                        self.lemma_put_back(taken, old(self), key, ck, node);
                    }
                }
                return a;
            }
        } else {
            node.lower_bound = -INF;
            node.upper_bound = INF;
        }
        let ghost start = node;
        if ck.turns >= max_depth {
            let h = heuristic(&ck.grid);
            let value = if ck.turns % 2 == 1 {
                h
            } else {
                -h
            };
            node.upper_bound = value;
            node.lower_bound = value;
            node.search_depth = 0;
            self.put_node(node);
            return value;
        }
        let a0 = a;
        let mut value: i32 = -INF;
        let mut best_child: Option<NodeKey> = None;
        let ghost mut best_i: int = 0;
        assert(!reused ==> a0 == alpha && b == beta);
        let mut cut = false;
        let mut i: usize = 0;
        proof {
            if !is_terminal(ck) {
                lemma_children_unique(ck, moves_for(ck), node.children@, children_of(ck));
            }
        }
        while i < node.children.len() && !cut
            invariant
                self.wf(),
                self.root() == old(self).root(),
                self.depth() == old(self).depth(),
                node_ok(node),
                node.key == ck,
                node == start,
                ck.turns == key.turns,
                ck.turns < max_depth,
                max_depth < EXACT_DEPTH,
                h == max_depth as int,
                !is_terminal(ck),
                node.children@ == children_of(ck),
                -INF <= a0 <= a,
                -INF <= value <= a || cut,
                a == a0 || a == value,
                !cut ==> a < b,
                cut ==> value >= b,
                i <= node.children@.len(),
                forall|c: NodeKey| best_child == Some(c) ==> node.children@.contains(c),
                p ==> self.consistent(h),
                p && !cut ==> best_child_value(ck, h, i as int) <= value,
                p && value > a0 ==> best_child_value(ck, h, i as int) >= value,
                i > 0 ==> best_child is Some,
                best_child is Some ==> 0 <= best_i < i && best_child->0 == node.children@[best_i],
                p && !cut ==> forall|j: int| 0 <= j < best_i ==> #[trigger] v_child(ck, h, j) < value,
                !reused ==> a0 == alpha && b == beta,
                forall|k: NodeKey|
                    k.turns < key.turns && (#[trigger] self.stored(k)) is Some ==> self.stored(k) == old(self).stored(k),
                cut ==> i > 0,
                p && !cut && value > a0 ==> (best_child is Some && -value_at(rep_key(best_child->0), h) == value),
            decreases node.children@.len() - i,
        {
            let child = node.children[i];
            assert(ck.turns < node.children@[i as int].turns);
            assert(remaining(max_depth, child.turns) < remaining(max_depth, key.turns));
            let r = self.negamax(child, max_depth, -b, -a);
            let v = -r;
            proof {
                if p {
                    assert(best_child_value(ck, h, i + 1) == (if v_child(ck, h, i as int) > best_child_value(ck, h, i as int) {
                        v_child(ck, h, i as int)
                    } else {
                        best_child_value(ck, h, i as int)
                    }));
                }
            }
            proof {
                if p && !cut && v > value {
                    assert forall|j: int| 0 <= j < i implies #[trigger] v_child(ck, h, j) < v by {
                        lemma_best_child_ge(ck, h, i as int, j);
                    }
                }
            }
            if v > value || best_child.is_none() {
                best_child = Some(child);
                proof {
                    best_i = i as int;
                }
                if v > value {
                    value = v;
                    if value > a {
                        a = value;
                    }
                    if a >= b {
                        cut = true;
                    }
                }
            }
            i = i + 1;
        }
        proof {
            if p {
                if cut {
                    lemma_best_child_monotone(ck, h, i as int, node.children@.len() as int);
                }
                assert(value_at(ck, h) == best_child_value(ck, h, node.children@.len() as int));
            }
        }
        let ghost lo = node.lower_bound;
        let ghost hi = node.upper_bound;
        proof {
            if p && !reused && alpha < value < beta {
                assert(!cut);
                assert(value > a0);
                assert forall|j: int| 0 <= j < best_i implies -value_at(rep_key(#[trigger] node.children@[j]), h) < value by {
                    assert(ck.turns < node.children@[j].turns);
                    assert(v_child(ck, h, j) < value);
                }
                assert(ck.turns < node.children@[best_i].turns);
            }
        }
        if value < b {
            node.upper_bound = value;
        }
        if value > a0 {
            node.lower_bound = value;
        }
        node.search_depth = max_depth;
        node.best_child = best_child;
        self.put_node(node);
        value
    }
}

/// The sum of the first `n` entries of `s`.
pub open spec fn exponent_sum(s: Seq<u8>, n: int) -> int
    decreases n,
{
    if n <= 0 {
        0
    } else {
        exponent_sum(s, n - 1) + s[n - 1] as int
    }
}

/// A placement chosen by the engine, for a host that cannot take a `Move`.
pub struct WasmPlace {
    x: usize,
    y: usize,
    val: i32,
}

impl WasmPlace {
    pub closed spec fn spec_x(&self) -> usize {
        self.x
    }

    pub closed spec fn spec_y(&self) -> usize {
        self.y
    }

    pub closed spec fn spec_val(&self) -> i32 {
        self.val
    }

    pub fn x(&self) -> (r: usize)
        ensures
            r == self.spec_x(),
    {
        self.x
    }

    pub fn y(&self) -> (r: usize)
        ensures
            r == self.spec_y(),
    {
        self.y
    }

    pub fn val(&self) -> (r: i32)
        ensures
            r == self.spec_val(),
    {
        self.val
    }
}

impl Ai {
    /// The move read off the root's recorded best child: among the root side's moves, in
    /// their order, the first whose result has the same representative as that child.
    /// `None` when no best child is recorded for the root (no completed search) or no
    /// move matches.
    fn best_root_move(&mut self) -> (r: Option<Move>)
        requires
            old(self).wf(),
        ensures
            final(self).wf(),
            final(self).root() == old(self).root(),
            final(self).depth() == old(self).depth(),
            r matches Some(m) ==> moves_for(old(self).root()).contains(m) && move_applies(old(self).root(), m),
            old(self).searches_sound() ==> final(self).searches_sound(),
            r == recommended_move(old(self).root(), old(self).stored(rep_key(old(self).root()))),
            r == recommended_move(old(self).root(), final(self).stored(rep_key(old(self).root()))),
            final(self).stored(rep_key(old(self).root())) is Some,
    {
        let root = self.root_key;
        let moves = if root.turns % 2 == 0 {
            placer_moves()
        } else {
            slider_moves()
        };
        let ghost sound = old(self).searches_sound();
        let ghost hz: int = root.turns as int + self.search_depth as int;
        let ghost pre_all = *self;
        let (rk, root_node) = self.key_to_node(root);
        proof {
            lemma_rep_key(root, rk);
            if sound && self.search_depth >= 0 {
                assert(old(self).consistent(hz));
                assert(self.consistent(hz) && node_consistent(root_node, hz));
            }
        }
        let best = root_node.best_child;
        proof {
            if let Some(c) = best {
                assert(root_node.children@.contains(c));
                let i = choose|i: int| 0 <= i < root_node.children@.len() && root_node.children@[i] == c;
                assert(root_node.key.turns < root_node.children@[i].turns);
            }
        }
        self.put_node(root_node);
        proof {
            if sound && self.search_depth >= 0 {
                assert(self.consistent(hz));
            }
        }
        let best_child = match best {
            Some(c) => c,
            None => {
                return None;
            },
        };
        let ghost nm = self.node_map;
        let target = self.canonical_key(best_child);
        proof {
            assert(best_child.turns >= 0);
            lemma_rep_key(best_child, target);
            if sound && self.search_depth >= 0 {
                assert(self.consistent(hz));
            }
        }
        let mut i: usize = 0;
        while i < moves.len()
            invariant
                self.wf(),
                self.root_key == root,
                self.search_depth == old(self).search_depth,
                root == old(self).root_key,
                moves@ == moves_for(root),
                i <= moves.len(),
                hz == root.turns as int + old(self).search_depth as int,
                sound == old(self).searches_sound(),
                target == rep_key(best_child),
                recommended_move(root, old(self).stored(rep_key(root))) == first_move_to(moves@, root, target, i as int),
                recommended_move(root, self.stored(rep_key(root))) == first_move_to(moves@, root, target, i as int),
                self.node_map == nm,
                sound ==> self.searches_sound(),
            decreases moves.len() - i,
        {
            let m = moves[i];
            match apply_move(&root, m) {
                Some(c) => {
                    let ghost pre = *self;
                    let cc = self.canonical_key(c);
                    proof {
                        if sound && self.search_depth >= 0 {
                            assert(pre.searches_sound());
                            assert(pre.root_key.turns + pre.search_depth == hz);
                            assert(pre.consistent(hz));
                            assert(self.consistent(hz));
                        }
                        if sound {
                            assert(self.searches_sound());
                        }
                    }
                    proof {
                        lemma_rep_key(c, cc);
                    }
                    if cc.turns == target.turns && same_grid(&cc.grid, &target.grid) {
                        proof {
                            assert(moves@[i as int] == m);
                            assert(cc == target);
                            assert(leads_to(root, m, target));
                        }
                        return Some(m);
                    }
                    proof {
                        assert forall|c2: NodeKey| move_result(root, m, c2) implies rep_key(c2) != target by {
                            lemma_move_result_unique(root, m, c, c2);
                            if cc.turns == target.turns {
                                assert(cc.grid != target.grid);
                            }
                        }
                    }
                },
                None => {},
            }
            i = i + 1;
        }
        None
    }

    /// The root move of best value at horizon `horizon`: among the root side's moves, in
    /// their order, the first whose resulting position is best for the side to move. Each
    /// result is searched with an open window, so its value is exact. `None` when the root
    /// side has no legal move.
    fn best_scored_move(&mut self, horizon: i32) -> (r: Option<Move>)
        requires
            old(self).wf(),
            horizon < EXACT_DEPTH,
            horizon == old(self).root().turns + old(self).depth(),
        ensures
            final(self).wf(),
            final(self).root() == old(self).root(),
            final(self).depth() == old(self).depth(),
            r is Some <==> has_legal_move(old(self).root()),
            r matches Some(m) ==> moves_for(old(self).root()).contains(m) && move_applies(old(self).root(), m),
            old(self).consistent(horizon as int) && horizon >= 0 ==> {
                &&& final(self).consistent(horizon as int)
                &&& r matches Some(m) ==> is_best_move(old(self).root(), m, horizon as int)
            },
            old(self).searches_sound() ==> final(self).searches_sound(),
            forall|k: NodeKey|
                k.turns <= old(self).root().turns && (#[trigger] final(self).stored(k)) is Some ==> final(self).stored(k) == old(self).stored(k),
    {
        let root = self.root_key;
        let moves = if root.turns % 2 == 0 {
            placer_moves()
        } else {
            slider_moves()
        };
        let ghost h = horizon as int;
        let ghost p = old(self).consistent(h) && horizon >= 0;
        let ghost ms = moves@;
        let mut best: Option<Move> = None;
        let mut best_v: i32 = -INF;
        let ghost mut best_i: int = 0;
        let mut i: usize = 0;
        while i < moves.len()
            invariant
                self.wf(),
                self.root_key == root,
                self.search_depth == old(self).search_depth,
                root == old(self).root_key,
                ms == moves@,
                ms == moves_for(root),
                i <= moves.len(),
                h == horizon as int,
                horizon < EXACT_DEPTH,
                p == (old(self).consistent(h) && horizon >= 0),
                p ==> self.consistent(h),
                forall|k: NodeKey|
                    k.turns <= root.turns && (#[trigger] self.stored(k)) is Some ==> self.stored(k) == old(self).stored(k),
                best is None <==> forall|j: int| 0 <= j < i ==> !move_applies(root, #[trigger] ms[j]),
                best is Some ==> 0 <= best_i < i && ms[best_i] == best->0 && move_applies(root, best->0),
                p && best is Some ==> {
                    &&& best_v == move_value(root, best->0, h)
                    &&& forall|j: int|
                        0 <= j < i && move_applies(root, #[trigger] ms[j]) ==> move_value(root, ms[j], h) <= best_v
                    &&& forall|j: int|
                        0 <= j < best_i && move_applies(root, #[trigger] ms[j]) ==> move_value(root, ms[j], h) < best_v
                },
            decreases moves.len() - i,
        {
            let m = moves[i];
            match apply_move(&root, m) {
                Some(c) => {
                    let r = self.negamax(c, horizon, -INF, INF);
                    let v = -r;
                    proof {
                        if p {
                            lemma_value_range(rep_key(c), h);
                            let c2 = choose|c2: NodeKey| move_result(root, m, c2);
                            lemma_move_result_unique(root, m, c, c2);
                            assert(v == move_value(root, m, h));
                        }
                    }
                    if best.is_none() || v > best_v {
                        best = Some(m);
                        best_v = v;
                        proof {
                            best_i = i as int;
                        }
                    }
                },
                None => {},
            }
            i = i + 1;
        }
        proof {
            if best is Some {
                assert(ms[best_i] == best->0);
                assert(has_legal_move(root));
            } else {
                assert forall|m: Move| ms.contains(m) implies !move_applies(root, m) by {
                    let j = choose|j: int| 0 <= j < ms.len() && ms[j] == m;
                    assert(!move_applies(root, ms[j]));
                }
            }
            if p {
                self.lemma_consistent_later(h, h);
            }
        }
        best
    }

    /// Searches from the root to the engine's depth and returns the move to play, read off
    /// the root's recorded best child; the game state is not read (the engine follows the
    /// game through `update_move`). When no move can be read off the best child, the root
    /// moves are scored one by one and the first best is played. `None` when the horizon
    /// would leave the turn range or the side to move has no legal move.
    pub fn pick_move(&mut self, _s: &State) -> (r: Option<Move>)
        requires
            old(self).wf(),
        ensures
            final(self).wf(),
            final(self).root() == old(self).root(),
            final(self).depth() == old(self).depth(),
            old(self).searches_sound() ==> final(self).searches_sound(),
            old(self).root().turns + old(self).depth() >= EXACT_DEPTH ==> r is None,
            old(self).root().turns + old(self).depth() < EXACT_DEPTH ==> {
                &&& r is Some <==> has_legal_move(old(self).root())
                // The move is the one that leads to the recorded best child, when there is one.
                &&& recommended_move(old(self).root(), final(self).stored(rep_key(old(self).root())))
                    is Some ==> r == recommended_move(
                    old(self).root(),
                    final(self).stored(rep_key(old(self).root())),
                )
                // Otherwise, with sound searches, it is the first of the best moves.
                &&& recommended_move(old(self).root(), final(self).stored(rep_key(old(self).root())))
                    is None && old(self).searches_sound() && old(self).depth() >= 0 ==> (r matches Some(
                    m,
                ) ==> is_best_move(old(self).root(), m, old(self).root().turns + old(self).depth()))
            },
            r matches Some(m) ==> moves_for(old(self).root()).contains(m) && move_applies(old(self).root(), m),
            // After a fresh search of the root, the move read off the best child is worth the
            // value of the root.
            old(self).searches_sound() && old(self).depth() >= 1 && old(self).root().turns + old(self).depth() < EXACT_DEPTH && (old(self).stored(rep_key(old(self).root())) is None || old(self).stored(rep_key(old(self).root()))->0.search_depth < old(self).root().turns + old(self).depth()) && -INF < value_at(
                rep_key(old(self).root()),
                old(self).root().turns + old(self).depth(),
            ) < INF && recommended_move(old(self).root(), final(self).stored(rep_key(old(self).root())))
                is Some ==> move_value(
                old(self).root(),
                r->0,
                old(self).root().turns + old(self).depth(),
            ) == value_at(rep_key(old(self).root()), old(self).root().turns + old(self).depth()),
    {
        let horizon: i64 = self.root_key.turns as i64 + self.search_depth as i64;
        if horizon >= EXACT_DEPTH as i64 {
            return None;
        }
        let root = self.root_key;
        let ghost hz: int = horizon as int;
        let ghost fresh = old(self).stored(rep_key(root)) is None || old(self).stored(rep_key(root))->0.search_depth < hz;
        proof {
            if old(self).searches_sound() && old(self).search_depth >= 0 {
                old(self).lemma_sound_is_consistent();
            }
        }
        let value = self.negamax(root, horizon as i32, -INF, INF);
        let ghost after_search = *self;
        proof {
            if old(self).searches_sound() && old(self).search_depth >= 0 {
                lemma_value_range(rep_key(root), hz);
            }
        }
        match self.best_root_move() {
            Some(m) => {
                proof {
                    let n = after_search.stored(rep_key(root))->0;
                    let bc = n.best_child->0;
                    lemma_first_move_leads(moves_for(root), root, rep_key(bc), 0);
                    assert(moves_for(root).contains(m) && move_applies(root, m));
                    after_search.lemma_stored_ok(rep_key(root));
                    assert(n.children@.contains(bc));
                    assert(!is_terminal(rep_key(root)));
                    if old(self).searches_sound() && old(self).search_depth >= 1 && fresh && -INF < value_at(
                        rep_key(root),
                        hz,
                    ) < INF {
                        assert(value == value_at(rep_key(root), hz));
                        assert(is_first_best_child(n, hz, value as int));
                        let c = choose|c: NodeKey| move_result(root, m, c) && rep_key(c) == rep_key(bc);
                        let c2 = choose|c2: NodeKey| move_result(root, m, c2);
                        lemma_move_result_unique(root, m, c, c2);
                    }
                }
                Some(m)
            },
            None => {
                proof {
                    if old(self).searches_sound() && old(self).search_depth >= 0 {
                        self.lemma_sound_is_consistent();
                    }
                }
                let ghost mid = *self;
                let r = self.best_scored_move(horizon as i32);
                proof {
                    if self.stored(rep_key(root)) is Some {
                        assert(self.stored(rep_key(root)) == mid.stored(rep_key(root)));
                    }
                }
                r
            },
        }
    }

    /// Whether move `m` applies to the engine's root, as `update_move` requires.
    pub fn can_apply(&self, m: &Move) -> (b: bool)
        ensures
            b == move_applies(self.root(), *m),
    {
        apply_move(&self.root_key, *m).is_some()
    }

    /// Follows a move played in the game, which must be legal at the root (a move the
    /// engine cannot follow means the engine and the game have come apart): the root
    /// advances by it, and the caches of the turn buckets from the old root's turn up to
    /// (not including) the new root's turn, which no later search can reach, are emptied.
    pub fn update_move(&mut self, m: &Move, _s: &State)
        requires
            old(self).wf(),
            move_applies(old(self).root(), *m),
        ensures
            final(self).wf(),
            final(self).depth() == old(self).depth(),
            ({
                &&& move_result(old(self).root(), *m, final(self).root())
                &&& forall|t: int|
                    old(self).root().turns <= t < final(self).root().turns ==> #[trigger] final(self).bucket_empty(
                        bucket(t),
                    )
                &&& forall|k: NodeKey, t: int|
                    #![trigger final(self).stored(k), bucket(t)]
                    old(self).root().turns <= t < final(self).root().turns && bucket(k.turns as int) == bucket(t)
                        ==> final(self).stored(k) is None
                &&& forall|k: NodeKey|
                    (forall|t: int| old(self).root().turns <= t < final(self).root().turns ==> bucket(k.turns as int) != #[trigger] bucket(t))
                        ==> #[trigger] final(self).stored(k) == old(self).stored(k)
            }),
            old(self).searches_sound() ==> final(self).searches_sound(),
    {
        let from = self.root_key.turns;
        let ghost hz: int = old(self).root_key.turns as int + old(self).search_depth as int;
        let ghost sound = old(self).searches_sound() && old(self).search_depth >= 0;
        match apply_move(&self.root_key, *m) {
            Some(next) => {
                self.root_key = next;
                let mut t = from;
                while t < next.turns
                    invariant
                        self.wf(),
                        self.root_key == next,
                        self.search_depth == old(self).search_depth,
                        from == old(self).root_key.turns,
                        0 <= from < next.turns,
                        from <= t <= next.turns,
                        forall|u: int| from <= u < t ==> #[trigger] self.bucket_empty(bucket(u)),
                        forall|c: int|
                            0 <= c < TURNS_MOD && (forall|u: int| from <= u < t ==> #[trigger] bucket(u) != c) ==> {
                                &&& #[trigger] self.sym_map@[c] == old(self).sym_map@[c]
                                &&& self.node_map@[c] == old(self).node_map@[c]
                            },
                        sound == (old(self).searches_sound() && old(self).search_depth >= 0),
                        hz == old(self).root_key.turns as int + old(self).search_depth as int,
                        sound ==> self.consistent(hz),
                    decreases next.turns - t,
                {
                    let ghost pre = *self;
                    let b = (t % 64) as usize;
                    self.evict(b);
                    proof {
                        assert(b as int == bucket(t as int));
                        assert forall|u: int| from <= u < t + 1 implies #[trigger] self.bucket_empty(bucket(u)) by {
                            if u < t {
                                assert(pre.bucket_empty(bucket(u)));
                                assert(0 <= bucket(u) < TURNS_MOD);
                            }
                        }
                        assert forall|c: int|
                            0 <= c < TURNS_MOD && (forall|u: int| from <= u < t + 1 ==> #[trigger] bucket(u) != c) implies {
                                &&& #[trigger] self.sym_map@[c] == old(self).sym_map@[c]
                                &&& self.node_map@[c] == old(self).node_map@[c]
                            } by {
                            assert(bucket(t as int) != c);
                            assert(forall|u: int| from <= u < t ==> #[trigger] bucket(u) != c);
                            assert(pre.sym_map@[c] == old(self).sym_map@[c]);
                        }
                    }
                    t = t + 1;
                }
                proof {
                    assert forall|k: NodeKey, u: int|
                        #![trigger self.stored(k), bucket(u)]
                        from <= u < next.turns && bucket(k.turns as int) == bucket(u) implies self.stored(k) is None by {
                        assert(self.bucket_empty(bucket(u)));
                        if k.turns >= 0 {
                            assert(!self.node_map@[bucket(k.turns as int)]@.contains_key(code(k.grid) as u128));
                        }
                    }
                    assert forall|k: NodeKey|
                        (forall|u: int| from <= u < next.turns ==> bucket(k.turns as int) != #[trigger] bucket(u)) implies #[trigger] self.stored(k)
                        == old(self).stored(k) by {
                        if k.turns >= 0 {
                            let c = bucket(k.turns as int);
                            assert(t == next.turns);
                            assert(forall|u: int| from <= u < t ==> #[trigger] bucket(u) != c);
                            assert(0 <= c < TURNS_MOD);
                            assert(self.sym_map@[c] == old(self).sym_map@[c]);
                            assert(self.node_map@[c] == old(self).node_map@[c]);
                        }
                    }
                    if sound {
                        self.lemma_consistent_later(hz, next.turns + self.search_depth);
                    }
                }
            },
            None => {},
        }
    }

    /// Empties both caches of turn bucket `b`.
    fn evict(&mut self, b: usize)
        requires
            old(self).wf(),
            b < 64,
        ensures
            final(self).wf(),
            final(self).bucket_empty(b as int),
            final(self).root_key == old(self).root_key,
            final(self).search_depth == old(self).search_depth,
            forall|c: int|
                0 <= c < TURNS_MOD && c != b ==> {
                    &&& #[trigger] final(self).sym_map@[c] == old(self).sym_map@[c]
                    &&& final(self).node_map@[c] == old(self).node_map@[c]
                },
            forall|u: int| 0 <= u < TURNS_MOD && #[trigger] old(self).bucket_empty(u) ==> final(self).bucket_empty(u),
            forall|h: int| #[trigger] old(self).consistent(h) ==> final(self).consistent(h),
    {
        self.sym_map[b].clear();
        self.node_map[b].clear();
        proof {
            assert forall|c: int| 0 <= c < TURNS_MOD implies #[trigger] sym_map_ok(self.sym_map@[c]@) by {
                if c != b {
                    assert(self.sym_map@[c] == old(self).sym_map@[c]);
                }
            }
            assert forall|c: int| 0 <= c < TURNS_MOD implies #[trigger] node_map_ok(self.node_map@[c]@, c) by {
                if c != b {
                    assert(self.node_map@[c] == old(self).node_map@[c]);
                }
            }
            assert forall|u: int| 0 <= u < TURNS_MOD && #[trigger] old(self).bucket_empty(u) implies self.bucket_empty(u) by {
                if u != b {
                    assert(self.sym_map@[u] == old(self).sym_map@[u]);
                    assert(self.node_map@[u] == old(self).node_map@[u]);
                }
            }
            assert forall|h: int| #[trigger] old(self).consistent(h) implies self.consistent(h) by {
                assert forall|c: int, k: u128|
                    0 <= c < TURNS_MOD && #[trigger] self.node_map@[c]@.contains_key(k) implies node_consistent(
                    self.node_map@[c]@[k],
                    h,
                ) by {
                    assert(c != b);
                    assert(self.node_map@[c] == old(self).node_map@[c]);
                    assert(old(self).node_map@[c]@.contains_key(k));
                }
            }
        }
    }

    /// Resets the engine to the position given row by row in `grid1d` with the Slider
    /// to move; the turn count is inferred as one less than twice the exponent sum, and
    /// all caches are emptied.
    pub fn init_from_grid(&mut self, grid1d: &[u8])
        requires
            old(self).wf(),
            grid1d@.len() >= 16,
            exponent_sum(grid1d@, 16) > 0,
        ensures
            final(self).wf(),
            final(self).depth() == old(self).depth(),
            final(self).root().turns == 2 * exponent_sum(grid1d@, 16) - 1,
            forall|i: int| 0 <= i < 16 ==> #[trigger] final(self).root().grid[i / 4][i % 4] == grid1d@[i],
            forall|b: int| 0 <= b < TURNS_MOD ==> final(self).bucket_empty(b),
            final(self).searches_sound(),
    {
        let mut grid: Grid = [[0u8; 4]; 4];
        let mut turns: i32 = -1;
        let mut i: usize = 0;
        while i < 16
            invariant
                i <= 16,
                grid1d@.len() >= 16,
                turns == 2 * exponent_sum(grid1d@, i as int) - 1,
                0 <= exponent_sum(grid1d@, i as int) <= 255 * i,
                forall|j: int| 0 <= j < i ==> #[trigger] grid[j / 4][j % 4] == grid1d@[j],
            decreases 16 - i,
        {
            grid[i / 4][i % 4] = grid1d[i];
            turns = turns + 2 * grid1d[i] as i32;
            i = i + 1;
        }
        self.root_key = NodeKey { turns, grid };
        let mut b: usize = 0;
        while b < 64
            invariant
                b <= 64,
                self.wf(),
                self.root_key == (NodeKey { turns, grid }),
                self.search_depth == old(self).search_depth,
                forall|c: int| 0 <= c < b ==> self.bucket_empty(c),
            decreases 64 - b,
        {
            let ghost pre = *self;
            self.sym_map[b].clear();
            self.node_map[b].clear();
            proof {
                assert forall|c: int| 0 <= c < TURNS_MOD implies #[trigger] sym_map_ok(self.sym_map@[c]@) by {}
                assert forall|c: int| 0 <= c < TURNS_MOD implies #[trigger] node_map_ok(self.node_map@[c]@, c) by {}
                assert(self.sym_map@[b as int]@ == Map::<u128, Grid>::empty());
                assert(self.node_map@[b as int]@ == Map::<u128, NodeData>::empty());
                assert(self.bucket_empty(b as int));
                assert forall|c: int| 0 <= c < b implies self.bucket_empty(c) by {
                    assert(pre.bucket_empty(c));
                    assert(self.sym_map@[c] == pre.sym_map@[c]);
                    assert(self.node_map@[c] == pre.node_map@[c]);
                }
            }
            b = b + 1;
        }
        proof {
            assert forall|c: int, k: u128|
                0 <= c < TURNS_MOD && #[trigger] self.node_map@[c]@.contains_key(k) implies node_consistent(
                self.node_map@[c]@[k],
                self.root_key.turns + self.search_depth,
            ) by {
                assert(self.bucket_empty(c));
            }
        }
    }

    /// Follows a slide given as a number (0 up, 1 right, 2 down, 3 left), which must be
    /// legal at the root.
    pub fn update_slider_move(&mut self, direction: i32)
        requires
            old(self).wf(),
            0 <= direction < 4,
            move_applies(old(self).root(), Move::Slide(host_direction(direction as int))),
        ensures
            final(self).wf(),
            final(self).depth() == old(self).depth(),
            old(self).searches_sound() ==> final(self).searches_sound(),
            move_result(old(self).root(), Move::Slide(host_direction(direction as int)), final(self).root()),
    {
        self.update_move(&host_slide(direction), &State::initial());
    }

    /// Picks a placement for the Placer and follows it. A placement is owed when the
    /// Placer is to move, a cell is empty and the horizon is in range; `None` on the
    /// Slider's turn.
    #[verifier::rlimit(100)]
    pub fn get_placer_move(&mut self) -> (r: Option<WasmPlace>)
        requires
            old(self).wf(),
        ensures
            final(self).wf(),
            final(self).depth() == old(self).depth(),
            old(self).searches_sound() ==> final(self).searches_sound(),
            old(self).root().turns % 2 == 1 ==> r is None,
            old(self).root().turns % 2 == 0 && old(self).root().turns + old(self).depth() < EXACT_DEPTH
                && old(self).root().turns < EXACT_DEPTH && (exists|x: int, y: int|
                0 <= x < 4 && 0 <= y < 4 && old(self).root().grid[x][y] == 0) ==> r is Some,
            r matches Some(p) ==> move_result(
                old(self).root(),
                Move::Place { x: p.spec_x(), y: p.spec_y(), val: p.spec_val() },
                final(self).root(),
            ),
    {
        let s = State::initial();
        proof {
            let root = self.root_key;
            if root.turns % 2 == 0 && root.turns < EXACT_DEPTH && (exists|x: int, y: int|
                0 <= x < 4 && 0 <= y < 4 && root.grid[x][y] == 0) {
                let (x, y) = choose|x: int, y: int| 0 <= x < 4 && 0 <= y < 4 && root.grid[x][y] == 0;
                lemma_placement_exists(root, x, y);
                let m = Move::Place { x: x as usize, y: y as usize, val: 2 };
                assert(placer_move_seq()[4 * x + y] == m);
                assert(moves_for(root).contains(m));
            }
        }
        let m = match self.pick_move(&s) {
            Some(m) => m,
            None => {
                return None;
            },
        };
        proof {
            if old(self).root_key.turns % 2 == 0 {
                let i = choose|i: int| 0 <= i < placer_move_seq().len() && placer_move_seq()[i] == m;
            }
        }
        match m {
            Move::Place { x, y, val } => {
                self.update_move(&m, &s);
                Some(WasmPlace { x, y, val })
            },
            Move::Slide(_) => None,
        }
    }

    /// The search depth, lower and upper bound stored for position `key`, creating
    /// the node if it is absent.
    pub fn node_bounds(&mut self, key: NodeKey) -> (r: (i32, i32, i32))
        requires
            old(self).wf(),
            key.turns >= 0,
        ensures
            final(self).wf(),
            final(self).root() == old(self).root(),
            final(self).depth() == old(self).depth(),
            old(self).searches_sound() ==> final(self).searches_sound(),
            old(self).stored(rep_key(key)) matches Some(n) ==> r == (n.search_depth, n.lower_bound, n.upper_bound),
            old(self).stored(rep_key(key)) is None && !is_terminal(rep_key(key)) ==> r.0 == -1 && r.1 == -INF && r.2
                == INF,
            old(self).stored(rep_key(key)) is None && is_terminal(rep_key(key)) ==> r.0 == EXACT_DEPTH && r.1
                == death_value(key.turns as int) && r.2 == death_value(key.turns as int),
    {
        let (ck, node) = self.key_to_node(key);
        proof {
            lemma_rep_key(key, ck);
        }
        let r = (node.search_depth, node.lower_bound, node.upper_bound);
        self.put_node(node);
        r
    }
}

/// The position `k` with its grid replaced by the representative of its class.
pub open spec fn rep_key(k: NodeKey) -> NodeKey {
    NodeKey { turns: k.turns, grid: choose|c: Grid| is_canonical(k.grid, c) }
}

/// The positions one legal move away from `k`, in the order of the move set.
pub open spec fn children_of(k: NodeKey) -> Seq<NodeKey> {
    choose|ch: Seq<NodeKey>| children_match(k, moves_for(k), ch)
}

/// The negamax value, to the side to move, of the representative position `k` searched
/// up to the horizon `h`: final at a dead grid, the static estimate at the horizon, and
/// otherwise the best over the children of the negated value of their representatives
/// (`-INF` when there is no child).
pub open spec fn value_at(k: NodeKey, h: int) -> int
    decreases remaining_int(h, k.turns as int), 1int, 0int,
{
    if is_terminal(k) {
        death_value(k.turns as int)
    } else if k.turns >= h {
        leaf_value(k)
    } else {
        best_child_value(k, h, children_of(k).len() as int)
    }
}

/// The best negated value among the first `n` children of `k` at horizon `h`.
pub open spec fn best_child_value(k: NodeKey, h: int, n: int) -> int
    decreases remaining_int(h, k.turns as int), 0int, n,
{
    if n <= 0 {
        -INF
    } else {
        let c = children_of(k)[n - 1];
        let v = if k.turns < h && k.turns < c.turns {
            -value_at(rep_key(c), h)
        } else {
            -INF
        };
        let prev = best_child_value(k, h, n - 1);
        if v > prev {
            v
        } else {
            prev
        }
    }
}

/// `remaining` over integers.
pub open spec fn remaining_int(h: int, turns: int) -> int {
    if h > turns {
        h - turns
    } else {
        0
    }
}

/// The fail-soft alpha-beta guarantee: a result at or below the window bounds the
/// value from above, one at or above it bounds it from below, one inside it is exact.
pub open spec fn fail_soft(v: int, alpha: int, beta: int, value: int) -> bool {
    &&& v <= alpha ==> value <= v
    &&& v >= beta ==> value >= v
    &&& alpha < v < beta ==> value == v
}

/// A stored node agrees with the values: it is final, or its bounds hold of its value at
/// the horizon it was searched to, which is not beyond `h`.
pub open spec fn node_consistent(n: NodeData, h: int) -> bool {
    is_terminal(n.key) || {
        &&& n.search_depth <= h
        &&& n.search_depth >= 0 ==> {
            &&& n.lower_bound == -INF || n.lower_bound <= value_at(n.key, n.search_depth as int)
            &&& n.upper_bound == INF || value_at(n.key, n.search_depth as int) <= n.upper_bound
        }
        &&& n.search_depth < 0 ==> n.lower_bound == -INF && n.upper_bound == INF
    }
}

proof fn lemma_move_result_unique(k: NodeKey, m: Move, c1: NodeKey, c2: NodeKey)
    requires
        move_result(k, m, c1),
        move_result(k, m, c2),
    ensures
        c1 == c2,
{
    match m {
        Move::Slide(d) => {
            lemma_slide_unique(k.grid, d, c1.grid, c2.grid);
        },
        Move::Place { x, y, val } => {
            assert forall|r: int| 0 <= r < 4 implies c1.grid[r] =~= c2.grid[r] by {
                assert forall|c: int| 0 <= c < 4 implies c1.grid[r][c] == c2.grid[r][c] by {}
            }
            assert(c1.grid =~= c2.grid);
        },
    }
}

/// The children of a position are determined by the move set.
proof fn lemma_children_unique(k: NodeKey, ms: Seq<Move>, ch1: Seq<NodeKey>, ch2: Seq<NodeKey>)
    requires
        children_match(k, ms, ch1),
        children_match(k, ms, ch2),
    ensures
        ch1 == ch2,
    decreases ms.len(),
{
    if ms.len() > 0 {
        if move_applies(k, ms.last()) {
            lemma_children_unique(k, ms.drop_last(), ch1.drop_last(), ch2.drop_last());
            lemma_move_result_unique(k, ms.last(), ch1.last(), ch2.last());
            assert(ch1 =~= ch1.drop_last().push(ch1.last()));
            assert(ch2 =~= ch2.drop_last().push(ch2.last()));
        } else {
            lemma_children_unique(k, ms.drop_last(), ch1, ch2);
        }
    } else {
        assert(ch1 =~= ch2);
    }
}

/// The best child recorded in `n` is the first child, in stored order, whose position is
/// worth `v` at horizon `h` to the side to move at `n`.
pub open spec fn is_first_best_child(n: NodeData, h: int, v: int) -> bool {
    exists|i: int|
        0 <= i < n.children@.len() && n.best_child == Some(n.children@[i]) && -value_at(
            rep_key(n.children@[i]),
            h,
        ) == v && forall|j: int| 0 <= j < i ==> -value_at(rep_key(#[trigger] n.children@[j]), h) < v
}

/// The negated value of child `i` of `k` at horizon `h`, as `best_child_value` counts it.
pub open spec fn v_child(k: NodeKey, h: int, i: int) -> int {
    let c = children_of(k)[i];
    if k.turns < h && k.turns < c.turns {
        -value_at(rep_key(c), h)
    } else {
        -INF
    }
}

proof fn lemma_rep_key(key: NodeKey, ck: NodeKey)
    requires
        ck.turns == key.turns,
        is_canonical(key.grid, ck.grid),
    ensures
        rep_key(key) == ck,
{
    let c = choose|c: Grid| is_canonical(key.grid, c);
    assert(is_canonical(key.grid, c));
    assert(crate::symmetry::is_image(key.grid, 0, key.grid));
    crate::symmetry::lemma_canonical_shared(key.grid, 0, key.grid, ck.grid, c);
}

proof fn lemma_best_child_ge(k: NodeKey, h: int, n: int, j: int)
    requires
        0 <= j < n,
    ensures
        v_child(k, h, j) <= best_child_value(k, h, n),
    decreases n,
{
    if j < n - 1 {
        lemma_best_child_ge(k, h, n - 1, j);
    }
}

proof fn lemma_best_child_monotone(k: NodeKey, h: int, m: int, n: int)
    requires
        0 <= m <= n,
    ensures
        best_child_value(k, h, m) <= best_child_value(k, h, n),
    decreases n - m,
{
    if m < n {
        lemma_best_child_monotone(k, h, m, n - 1);
    }
}

/// `2^e`.
pub open spec fn pow2(e: nat) -> int
    decreases e,
{
    if e == 0 {
        1
    } else {
        2 * pow2((e - 1) as nat)
    }
}

/// The value of a tile of exponent `e` (0 for an empty cell).
pub open spec fn tile_value(e: int) -> int {
    if e <= 0 {
        0
    } else {
        pow2(e as nat)
    }
}

/// The value grid `v` holds the tiles of the exponent grid `g`.
pub open spec fn grids_correspond(g: Grid, v: [[i32; 4]; 4]) -> bool {
    forall|r: int, c: int| 0 <= r < 4 && 0 <= c < 4 ==> v[r][c] as int == tile_value(g[r][c] as int)
}

proof fn lemma_pow2_grows(e: nat, f: nat)
    requires
        e < f,
    ensures
        1 <= pow2(e) < pow2(f),
    decreases f,
{
    if e + 1 < f {
        lemma_pow2_grows(e, (f - 1) as nat);
    }
    lemma_pow2_positive(e);
}

proof fn lemma_pow2_positive(e: nat)
    ensures
        pow2(e) >= 1,
    decreases e,
{
    if e > 0 {
        lemma_pow2_positive((e - 1) as nat);
    }
}

/// Distinct exponents are distinct tiles.
proof fn lemma_tile_value_injective(e: int, f: int)
    requires
        e >= 0,
        f >= 0,
        tile_value(e) == tile_value(f),
    ensures
        e == f,
{
    if e > 0 {
        lemma_pow2_positive(e as nat);
    }
    if f > 0 {
        lemma_pow2_positive(f as nat);
    }
    if 0 < e < f {
        lemma_pow2_grows(e as nat, f as nat);
    }
    if 0 < f < e {
        lemma_pow2_grows(f as nat, e as nat);
    }
}

proof fn lemma_tiles_of_values(l: Seq<int>)
    requires
        forall|i: int| 0 <= i < l.len() ==> l[i] >= 0,
    ensures
        tiles(l.map_values(|e: int| tile_value(e))) == tiles(l).map_values(|e: int| tile_value(e)),
        forall|i: int| 0 <= i < tiles(l).len() ==> tiles(l)[i] >= 1,
    decreases l.len(),
{
    if l.len() > 0 {
        let lv = l.map_values(|e: int| tile_value(e));
        assert(lv.drop_first() =~= l.drop_first().map_values(|e: int| tile_value(e)));
        lemma_tiles_of_values(l.drop_first());
        if l[0] == 0 {
            assert(lv[0] == 0);
        } else {
            lemma_pow2_positive(l[0] as nat);
            assert(lv[0] != 0);
            assert(seq![lv[0]].add(tiles(lv.drop_first())) =~= seq![l[0]].add(tiles(l.drop_first())).map_values(
                |e: int| tile_value(e),
            ));
        }
    } else {
        assert(l.map_values(|e: int| tile_value(e)) =~= Seq::<int>::empty());
        assert(tiles(l).map_values(|e: int| tile_value(e)) =~= Seq::<int>::empty());
    }
}

proof fn lemma_merge_of_values(t: Seq<int>)
    requires
        forall|i: int| 0 <= i < t.len() ==> t[i] >= 1,
    ensures
        merge_values(t.map_values(|e: int| tile_value(e))) == merge_exponents(t).map_values(
            |e: int| tile_value(e),
        ),
    decreases t.len(),
{
    let tv = t.map_values(|e: int| tile_value(e));
    if t.len() == 0 {
        assert(tv =~= Seq::<int>::empty());
        assert(merge_exponents(t).map_values(|e: int| tile_value(e)) =~= Seq::<int>::empty());
    } else if t.len() >= 2 && t[0] == t[1] {
        let rest = t.subrange(2, t.len() as int);
        lemma_merge_of_values(rest);
        assert(tv.subrange(2, tv.len() as int) =~= rest.map_values(|e: int| tile_value(e)));
        assert(tile_value(t[0] + 1) == 2 * tile_value(t[0]));
        assert(seq![2 * tv[0]].add(merge_values(rest.map_values(|e: int| tile_value(e)))) =~= seq![t[0] + 1].add(
            merge_exponents(rest),
        ).map_values(|e: int| tile_value(e)));
    } else {
        let rest = t.drop_first();
        lemma_merge_of_values(rest);
        assert(tv.drop_first() =~= rest.map_values(|e: int| tile_value(e)));
        if t.len() >= 2 {
            if tv[0] == tv[1] {
                lemma_tile_value_injective(t[0], t[1]);
            }
        }
        assert(seq![tv[0]].add(merge_values(rest.map_values(|e: int| tile_value(e)))) =~= seq![t[0]].add(
            merge_exponents(rest),
        ).map_values(|e: int| tile_value(e)));
    }
}

/// Sliding a line of tile values gives the values of the slid line of exponents.
proof fn lemma_slid_line_values(l: Seq<int>)
    requires
        l.len() == 4,
        forall|i: int| 0 <= i < 4 ==> l[i] >= 0,
    ensures
        pad4(merge_values(tiles(l.map_values(|e: int| tile_value(e))))) == pad4(
            merge_exponents(tiles(l)),
        ).map_values(|e: int| tile_value(e)),
{
    lemma_tiles_of_values(l);
    lemma_merge_of_values(tiles(l));
    lemma_tiles_len(l);
    lemma_merge_len(tiles(l));
    let m = merge_exponents(tiles(l));
    assert(pad4(m.map_values(|e: int| tile_value(e))) =~= pad4(m).map_values(|e: int| tile_value(e)));
}

/// Every move that is legal for the engine at `key` is accepted by the rules engine on a
/// game state with the same tiles: `next_state` does not answer `InvalidMove`.
pub proof fn lemma_engine_move_is_valid(key: NodeKey, s: State, m: Move)
    requires
        grids_correspond(key.grid, s.grid),
        move_applies(key, m),
        move_fits(s, m),
    ensures
        forall|r: Result<State, crate::state::InvalidMove>| next_state_result(s, m, r) ==> r is Ok,
{
    let c = choose|c: NodeKey| move_result(key, m, c);
    match m {
        Move::Slide(d) => {
            if is_value_slide(s.grid, d, s.grid) {
                assert forall|r: int| 0 <= r < 4 implies c.grid[r] =~= key.grid[r] by {
                    assert forall|col: int| 0 <= col < 4 implies c.grid[r][col] == key.grid[r][col] by {
                        let (i, k) = match d {
                            Direction::Up => (col, r),
                            Direction::Down => (col, 3 - r),
                            Direction::Left => (r, col),
                            Direction::Right => (r, 3 - col),
                        };
                        assert(line_row(d, i, k) == r && line_col(d, i, k) == col);
                        let gl = grid_line(key.grid, d, i);
                        assert(value_grid_line(s.grid, d, i) =~= gl.map_values(|e: int| tile_value(e)));
                        lemma_slid_line_values(gl);
                        lemma_tiles_len(gl);
                        lemma_merge_len(tiles(gl));
                        lemma_tile_value_injective(c.grid[r][col] as int, key.grid[r][col] as int);
                    }
                }
                assert(c.grid =~= key.grid);
            }
        },
        Move::Place { x, y, val } => {},
    }
}

/// Move `m` leads from `root` to a position whose representative is `target`.
pub open spec fn leads_to(root: NodeKey, m: Move, target: NodeKey) -> bool {
    exists|c: NodeKey| move_result(root, m, c) && rep_key(c) == target
}

/// The first move among `ms[i..]` that leads from `root` to the representative `target`.
pub open spec fn first_move_to(ms: Seq<Move>, root: NodeKey, target: NodeKey, i: int) -> Option<Move>
    decreases ms.len() - i,
{
    if i < 0 || i >= ms.len() {
        None
    } else if leads_to(root, ms[i], target) {
        Some(ms[i])
    } else {
        first_move_to(ms, root, target, i + 1)
    }
}

/// The move that the stored search result `n` of the root recommends: the first of the
/// root side's moves that leads to the representative of its best child.
pub open spec fn recommended_move(root: NodeKey, n: Option<NodeData>) -> Option<Move> {
    match n {
        Some(node) => match node.best_child {
            Some(bc) => first_move_to(moves_for(root), root, rep_key(bc), 0),
            None => None,
        },
        None => None,
    }
}

/// A move that `first_move_to` finds leads to the target.
proof fn lemma_first_move_leads(ms: Seq<Move>, root: NodeKey, target: NodeKey, i: int)
    requires
        first_move_to(ms, root, target, i) is Some,
    ensures
        leads_to(root, first_move_to(ms, root, target, i)->0, target),
        ms.contains(first_move_to(ms, root, target, i)->0),
    decreases ms.len() - i,
{
    if 0 <= i < ms.len() && !leads_to(root, ms[i], target) {
        lemma_first_move_leads(ms, root, target, i + 1);
    }
}

/// The side to move at `root` has a legal move.
pub open spec fn has_legal_move(root: NodeKey) -> bool {
    exists|m: Move| moves_for(root).contains(m) && move_applies(root, m)
}

/// What move `m` is worth to the side to move at `root`, searched to horizon `h`: the
/// negated value of the representative of the position it leads to.
pub open spec fn move_value(root: NodeKey, m: Move, h: int) -> int {
    -value_at(rep_key(choose|c: NodeKey| move_result(root, m, c)), h)
}

/// `m` is the first among the root side's legal moves, in move-set order, with the
/// greatest value at horizon `h`.
pub open spec fn is_best_move(root: NodeKey, m: Move, h: int) -> bool {
    let ms = moves_for(root);
    exists|i: int|
        0 <= i < ms.len() && ms[i] == m && move_applies(root, m) && (forall|j: int|
            0 <= j < ms.len() && move_applies(root, #[trigger] ms[j]) ==> move_value(root, ms[j], h)
                <= move_value(root, m, h)) && (forall|j: int|
            0 <= j < i && move_applies(root, #[trigger] ms[j]) ==> move_value(root, ms[j], h) < move_value(
                root,
                m,
                h,
            ))
}

/// The slide that the host's direction number names (0 up, 1 right, 2 down, 3 left).
pub open spec fn host_direction(direction: int) -> Direction {
    if direction == 0 {
        Direction::Up
    } else if direction == 1 {
        Direction::Right
    } else if direction == 2 {
        Direction::Down
    } else {
        Direction::Left
    }
}

/// Every search value lies between `-INF` and `INF`.
pub proof fn lemma_value_range(k: NodeKey, h: int)
    requires
        k.turns >= 0,
    ensures
        -INF <= value_at(k, h) <= INF,
    decreases remaining_int(h, k.turns as int), 1int, 0int,
{
    if is_terminal(k) {
    } else if k.turns >= h {
        lemma_heuristic_range(k.grid);
    } else {
        lemma_best_child_range(k, h, children_of(k).len() as int);
    }
}

proof fn lemma_best_child_range(k: NodeKey, h: int, n: int)
    requires
        k.turns >= 0,
    ensures
        -INF <= best_child_value(k, h, n) <= INF,
    decreases remaining_int(h, k.turns as int), 0int, n,
{
    if n > 0 {
        lemma_best_child_range(k, h, n - 1);
        let c = children_of(k)[n - 1];
        if k.turns < h && k.turns < c.turns {
            lemma_value_range(rep_key(c), h);
        }
    }
}

/// A 2 can be placed in an empty cell when the turn count has room for it.
proof fn lemma_placement_exists(key: NodeKey, x: int, y: int)
    requires
        0 <= x < 4,
        0 <= y < 4,
        key.grid[x][y] == 0,
        key.turns < EXACT_DEPTH,
    ensures
        move_applies(key, Move::Place { x: x as usize, y: y as usize, val: 2 }),
{
    let row = vstd::array::spec_array_update(key.grid[x], y, 1u8);
    let grid = vstd::array::spec_array_update(key.grid, x, row);
    assert(row@ == key.grid[x]@.update(y, 1u8));
    assert(grid@ == key.grid@.update(x, row));
    let c = NodeKey { turns: (key.turns + 1) as i32, grid };
    assert(is_placement(key.grid, x, y, 1u8, grid));
    assert(move_result(key, Move::Place { x: x as usize, y: y as usize, val: 2 }, c));
}

/// The slide that the host's direction number names (0 up, 1 right, 2 down, 3 left).
pub fn host_slide(direction: i32) -> (m: Move)
    requires
        0 <= direction < 4,
    ensures
        m == Move::Slide(host_direction(direction as int)),
{
    let d = if direction == 0 {
        Direction::Up
    } else if direction == 1 {
        Direction::Right
    } else if direction == 2 {
        Direction::Down
    } else {
        Direction::Left
    };
    Move::Slide(d)
}

} // verus!
