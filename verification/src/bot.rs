use vstd::prelude::*;

use crate::board::Board;
use crate::board::HEIGHT;
use crate::board::all_empty;
use crate::board::apply_ok;
use crate::board::apply_result;
use crate::board::cell;
use crate::board::drop_row;
use crate::board::eval_spec;
use crate::board::lemma_apply_cells;
use crate::board::lemma_drop_row_from;
use crate::board::lemma_valid_moves_props;
use crate::board::valid_moves;
use crate::square::Square;

verus! {

/// How many plies beyond the root the search expands.
pub const MAX_DEPTH: usize = 1;

/// One explored position: a board snapshot, the color that is to move from
/// it, its depth below the root, the column move that produced it from its
/// parent, its heuristic score, and its expanded successors.
pub struct GameNode {
    pub board: Board,
    pub color: Square,
    pub depth: usize,
    pub player_move: usize,
    pub evaluation: isize,
    pub children: Vec<GameNode>,
}

/// The index of the first entry whose board shows grid `g`, or `-1` when
/// no entry does.
pub open spec fn index_of_board(s: Seq<GameNode>, g: Seq<Square>) -> int
    decreases s.len(),
{
    if s.len() == 0 {
        -1
    } else if s[0].board@ == g {
        0
    } else {
        let sub = index_of_board(s.skip(1), g);
        if sub < 0 {
            -1
        } else {
            sub + 1
        }
    }
}

/// What `index_of_board` finds: the first entry keyed by `g`, if any.
pub proof fn lemma_index_of_board(s: Seq<GameNode>, g: Seq<Square>)
    ensures
        -1 <= index_of_board(s, g) < s.len(),
        index_of_board(s, g) >= 0 ==> s[index_of_board(s, g)].board@ == g,
        forall|k: int| 0 <= k < s.len() && (#[trigger] s[k]).board@ == g ==> index_of_board(s, g)
            >= 0,
        forall|k: int| 0 <= k < index_of_board(s, g) ==> (#[trigger] s[k]).board@ != g,
    decreases s.len(),
{
    if s.len() > 0 && s[0].board@ != g {
        let t = s.skip(1);
        lemma_index_of_board(t, g);
        assert(forall|k: int| 0 <= k < s.len() - 1 ==> t[k] == s[k + 1]);
        let sub = index_of_board(t, g);
        assert forall|k: int|
            0 <= k < s.len() && (#[trigger] s[k]).board@ == g implies index_of_board(s, g) >= 0 by {
            assert(k > 0);
            assert(t[k - 1] == s[k]);
            assert(sub >= 0);
        }
        assert forall|k: int| 0 <= k < index_of_board(s, g) implies (#[trigger] s[k]).board@
            != g by {
            if k > 0 {
                assert(t[k - 1] == s[k]);
                assert(t[k - 1].board@ != g);
            }
        }
    }
}

/// Two entry lists with the same board keys index identically.
proof fn lemma_index_of_same_boards(s1: Seq<GameNode>, s2: Seq<GameNode>, g: Seq<Square>)
    requires
        s1.len() == s2.len(),
        forall|k: int| 0 <= k < s1.len() ==> (#[trigger] s1[k]).board@ == s2[k].board@,
    ensures
        index_of_board(s1, g) == index_of_board(s2, g),
    decreases s1.len(),
{
    if s1.len() > 0 {
        assert(s1[0].board@ == s2[0].board@);
        if s1[0].board@ != g {
            assert(forall|k: int| 0 <= k < s1.len() - 1 ==> s1.skip(1)[k] == s1[k + 1]);
            assert(forall|k: int| 0 <= k < s2.len() - 1 ==> s2.skip(1)[k] == s2[k + 1]);
            lemma_index_of_same_boards(s1.skip(1), s2.skip(1), g);
        }
    }
}

/// Appending an entry with a fresh board key indexes it at the end and
/// leaves every other key's index alone.
proof fn lemma_index_of_push(s: Seq<GameNode>, node: GameNode, g: Seq<Square>)
    requires
        forall|k: int| 0 <= k < s.len() ==> (#[trigger] s[k]).board@ != node.board@,
    ensures
        index_of_board(s.push(node), node.board@) == s.len(),
        g != node.board@ ==> index_of_board(s.push(node), g) == index_of_board(s, g),
    decreases s.len(),
{
    let t = s.push(node);
    assert(t.len() == s.len() + 1);
    if s.len() == 0 {
        assert(t[0] == node);
        if g != node.board@ {
            assert(index_of_board(t, g) == -1) by {
                lemma_index_of_board(t, g);
                if index_of_board(t, g) >= 0 {
                    assert(t[index_of_board(t, g)] == node);
                }
            }
        }
    } else {
        assert(t.skip(1) =~= s.skip(1).push(node));
        assert(forall|k: int| 0 <= k < s.len() - 1 ==> s.skip(1)[k] == s[k + 1]);
        lemma_index_of_push(s.skip(1), node, g);
        assert(t[0] == s[0]);
        assert(s[0].board@ != node.board@);
    }
}

/// A child node carries the move that produced it, the mover's color, its
/// depth, the board after that move, and that board's heuristic score.
pub open spec fn child_fields_ok(
    ch: GameNode,
    g: Seq<Square>,
    m: usize,
    mover: Square,
    depth: int,
) -> bool {
    &&& ch.player_move == m
    &&& ch.color == mover
    &&& ch.depth == depth
    &&& ch.board@ == apply_result(g, m as int, mover)
    &&& ch.board.wf()
    &&& ch.evaluation as int == eval_spec(ch.board@)
    &&& ch.children@.len() == 0
}

/// The entry for `g` carries one child per open column of `g`, in
/// ascending column order: the position after `mover` drops there,
/// annotated with its heuristic score and `depth`.
pub open spec fn expanded_at(t: GameTree, g: Seq<Square>, mover: Square, depth: int) -> bool {
    &&& t.contains_board(g)
    &&& t.node_of(g).children@.len() == valid_moves(g).len()
    &&& forall|k: int|
        0 <= k < valid_moves(g).len() ==> child_fields_ok(
            #[trigger] t.node_of(g).children@[k],
            g,
            valid_moves(g)[k],
            mover,
            depth,
        )
}

/// The table holds an entry of its own for the position after `mover`
/// drops into column `m` of `g`, annotated like the matching child node.
pub open spec fn child_entry_ok(
    t: GameTree,
    g: Seq<Square>,
    m: usize,
    mover: Square,
    depth: int,
) -> bool {
    &&& t.contains_board(apply_result(g, m as int, mover))
    &&& child_fields_ok(t.node_of(apply_result(g, m as int, mover)), g, m, mover, depth)
}

/// Whether score `a` beats score `b` from the viewpoint of `color`: the
/// first color prefers high scores, the second low ones.
pub open spec fn better(color: Square, a: int, b: int) -> bool {
    if color == Square::Red {
        a < b
    } else {
        a > b
    }
}

/// The index, among the first `upto` of the given nodes, of the one whose
/// score is best for `color`; the earliest such index on ties.
pub open spec fn best_child_in(ch: Seq<GameNode>, color: Square, upto: int) -> int
    decreases upto,
{
    if upto <= 1 {
        0
    } else {
        let prev = best_child_in(ch, color, upto - 1);
        if better(color, ch[upto - 1].evaluation as int, ch[prev].evaluation as int) {
            upto - 1
        } else {
            prev
        }
    }
}

/// The chosen index is in range, no node beats it, and it strictly beats
/// every earlier node.
pub proof fn lemma_best_child_props(ch: Seq<GameNode>, color: Square, upto: int)
    requires
        1 <= upto <= ch.len(),
    ensures
        0 <= best_child_in(ch, color, upto) < upto,
        forall|j: int|
            0 <= j < upto ==> !better(
                color,
                (#[trigger] ch[j]).evaluation as int,
                ch[best_child_in(ch, color, upto)].evaluation as int,
            ),
        forall|j: int|
            0 <= j < best_child_in(ch, color, upto) ==> better(
                color,
                ch[best_child_in(ch, color, upto)].evaluation as int,
                (#[trigger] ch[j]).evaluation as int,
            ),
    decreases upto,
{
    if upto > 1 {
        lemma_best_child_props(ch, color, upto - 1);
    }
}

/// The tree of explored positions, a transposition table: one entry per
/// reachable board, shared by every move order that reaches it.
pub struct GameTree {
    tree: Vec<GameNode>,
}

impl GameTree {
    /// The stored entries, each keyed by its own board.
    pub closed spec fn entries(self) -> Seq<GameNode> {
        self.tree@
    }

    /// Entry boards are complete grids and no board occurs twice.
    pub open spec fn wf(self) -> bool {
        (forall|k: int|
            0 <= k < self.entries().len() ==> (#[trigger] self.entries()[k]).board.wf()) && (forall|
            k1: int,
            k2: int,
        |
            0 <= k1 < k2 < self.entries().len() ==> self.entries()[k1].board@
                != self.entries()[k2].board@)
    }

    /// Whether some entry is keyed by grid `g`.
    pub open spec fn contains_board(self, g: Seq<Square>) -> bool {
        index_of_board(self.entries(), g) >= 0
    }

    /// The entry keyed by grid `g`.
    pub open spec fn node_of(self, g: Seq<Square>) -> GameNode {
        self.entries()[index_of_board(self.entries(), g)]
    }

    /// A tree with no entries yet.
    pub fn new() -> (r: Self)
        ensures
            r.wf(),
            r.entries().len() == 0,
            forall|g: Seq<Square>| !r.contains_board(g),
    {
        let r = GameTree { tree: Vec::new() };
        proof {
            assert forall|g: Seq<Square>| !r.contains_board(g) by {
                lemma_index_of_board(r.entries(), g);
            }
        }
        r
    }

    /// The position of the entry keyed by `board`'s grid, if any.
    fn find_index(&self, board: &Board) -> (r: Option<usize>)
        requires
            self.wf(),
        ensures
            match r {
                Some(k) => k < self.entries().len() && index_of_board(self.entries(), board@)
                    == k as int,
                None => index_of_board(self.entries(), board@) == -1,
            },
    {
        let ghost s = self.entries();
        let mut k: usize = 0;
        while k < self.tree.len()
            invariant
                self.wf(),
                s == self.entries(),
                k <= self.tree@.len(),
                forall|k2: int| 0 <= k2 < k ==> (#[trigger] s[k2]).board@ != board@,
            decreases self.tree@.len() - k,
        {
            if self.tree[k].board == *board {
                proof {
                    lemma_index_of_board(s, board@);
                    assert(s[k as int].board@ == board@);
                    let idx = index_of_board(s, board@);
                    assert(idx >= 0);
                    if idx < k as int {
                        assert(s[idx].board@ == board@);
                    }
                    if idx > k as int {
                        assert(s[k as int].board@ != board@);
                    }
                }
                return Some(k);
            }
            k = k + 1;
        }
        proof {
            lemma_index_of_board(s, board@);
            if index_of_board(s, board@) >= 0 {
                assert(s[index_of_board(s, board@)].board@ == board@);
            }
        }
        None
    }

    /// Insert `node`, keyed by its board: an entry already keyed by the
    /// same board is replaced, otherwise the entry is added.  Every other
    /// entry keeps its place.
    fn insert_node(&mut self, node: GameNode)
        requires
            old(self).wf(),
            node.board.wf(),
        ensures
            final(self).wf(),
            final(self).contains_board(node.board@),
            final(self).node_of(node.board@) == node,
            forall|g: Seq<Square>|
                g != node.board@ ==> index_of_board(final(self).entries(), g) == index_of_board(
                    old(self).entries(),
                    g,
                ),
            forall|g: Seq<Square>|
                g != node.board@ && old(self).contains_board(g) ==> final(self).node_of(g) == old(
                    self,
                ).node_of(g),
            final(self).entries().len() <= old(self).entries().len() + 1,
    {
        let ghost pre = self.entries();
        let found = self.find_index(&node.board);
        let ghost gnode = node;
        match found {
            Some(k) => {
                self.tree.set(k, node);
                proof {
                    let post = self.entries();
                    lemma_index_of_board(pre, gnode.board@);
                    assert(forall|k2: int|
                        0 <= k2 < pre.len() ==> (#[trigger] pre[k2]).board@ == post[k2].board@);
                    assert forall|g: Seq<Square>| true implies index_of_board(post, g)
                        == index_of_board(pre, g) by {
                        lemma_index_of_same_boards(pre, post, g);
                    }
                    assert forall|g: Seq<Square>|
                        g != gnode.board@ && old(self).contains_board(g) implies self.node_of(g)
                        == old(self).node_of(g) by {
                        lemma_index_of_board(pre, g);
                        assert(pre[index_of_board(pre, g)].board@ == g);
                    }
                }
            },
            None => {
                self.tree.push(node);
                proof {
                    let post = self.entries();
                    lemma_index_of_board(pre, gnode.board@);
                    assert forall|k2: int| 0 <= k2 < pre.len() implies (#[trigger] pre[k2]).board@
                        != gnode.board@ by {
                        if pre[k2].board@ == gnode.board@ {
                            assert(index_of_board(pre, gnode.board@) >= 0);
                        }
                    }
                    assert forall|g: Seq<Square>| true implies index_of_board(post, g) == (
                    if g == gnode.board@ {
                        pre.len() as int
                    } else {
                        index_of_board(pre, g)
                    }) by {
                        lemma_index_of_push(pre, gnode, g);
                    }
                    assert forall|k1: int, k2: int|
                        0 <= k1 < k2 < post.len() implies post[k1].board@ != post[k2].board@ by {
                        if k2 == pre.len() as int {
                            assert(post[k1] == pre[k1]);
                        }
                    }
                    assert forall|g: Seq<Square>|
                        g != gnode.board@ && old(self).contains_board(g) implies self.node_of(g)
                        == old(self).node_of(g) by {
                        lemma_index_of_board(pre, g);
                    }
                }
            },
        }
    }

    /// Insert the root entry for a search from `starting_board`, scored by
    /// the board's own heuristic, with `starting_color` to move from it.
    /// Every other key's entry and place are untouched.
    pub fn init_tree(&mut self, starting_board: &Board, starting_color: Square)
        requires
            old(self).wf(),
            starting_board.wf(),
        ensures
            final(self).wf(),
            final(self).contains_board(starting_board@),
            final(self).node_of(starting_board@).board@ == starting_board@,
            final(self).node_of(starting_board@).color == starting_color,
            final(self).node_of(starting_board@).depth == 0,
            final(self).node_of(starting_board@).player_move == 0,
            final(self).node_of(starting_board@).evaluation as int == eval_spec(starting_board@),
            final(self).node_of(starting_board@).children@.len() == 0,
            forall|g: Seq<Square>|
                g != starting_board@ ==> index_of_board(final(self).entries(), g)
                    == index_of_board(old(self).entries(), g),
            forall|g: Seq<Square>|
                g != starting_board@ && old(self).contains_board(g) ==> final(self).node_of(g)
                    == old(self).node_of(g),
    {
        let root_board = starting_board.clone();
        let evaluation = starting_board.eval();
        let node = GameNode {
            board: root_board,
            color: starting_color,
            depth: 0,
            player_move: 0,
            evaluation,
            children: Vec::new(),
        };
        self.insert_node(node);
    }

    /// Expand the entry for `board`: attach one child per open column,
    /// in ascending column order, holding the board after the opposite
    /// color of `color` moves there, with its heuristic score, and insert
    /// an entry of the table's own for each child board, annotated the
    /// same way.
    pub fn expand_node(&mut self, board: &Board, color: Square, current_tree_depth: usize)
        requires
            old(self).wf(),
            board.wf(),
            color != Square::Empty,
            old(self).contains_board(board@),
            current_tree_depth < usize::MAX,
        ensures
            final(self).wf(),
            expanded_at(*final(self), board@, color.flip_spec(), current_tree_depth + 1),
            forall|k: int|
                0 <= k < valid_moves(board@).len() ==> child_entry_ok(
                    *final(self),
                    board@,
                    #[trigger] valid_moves(board@)[k],
                    color.flip_spec(),
                    current_tree_depth + 1,
                ),
            final(self).node_of(board@).board == old(self).node_of(board@).board,
            final(self).node_of(board@).color == old(self).node_of(board@).color,
            final(self).node_of(board@).depth == old(self).node_of(board@).depth,
            final(self).node_of(board@).player_move == old(self).node_of(board@).player_move,
            final(self).node_of(board@).evaluation == old(self).node_of(board@).evaluation,
    {
        let ghost g0 = board@;
        let color2 = color.flip_into();
        let moves = board.list_valid_moves();
        proof {
            lemma_valid_moves_props(g0);
            assert forall|k: int| 0 <= k < moves@.len() implies apply_ok(
                g0,
                #[trigger] moves@[k] as int,
            ) by {
                lemma_drop_row_from(g0, moves@[k] as int, 0);
                if drop_row(g0, moves@[k] as int) >= HEIGHT {
                    assert(cell(g0, HEIGHT - 1, moves@[k] as int) != Square::Empty);
                }
            }
        }
        let mut children: Vec<GameNode> = Vec::new();
        let mut idx: usize = 0;
        while idx < moves.len()
            invariant
                self.wf(),
                board.wf(),
                g0 == board@,
                color2 == color.flip_spec(),
                color2 != Square::Empty,
                current_tree_depth < usize::MAX,
                moves@ == valid_moves(g0),
                forall|k: int| 0 <= k < moves@.len() ==> apply_ok(g0, #[trigger] moves@[k] as int),
                idx <= moves@.len(),
                children@.len() == idx,
                self.contains_board(g0),
                self.node_of(g0) == old(self).node_of(g0),
                forall|k: int|
                    0 <= k < idx ==> child_fields_ok(
                        #[trigger] children@[k],
                        g0,
                        moves@[k],
                        color2,
                        current_tree_depth + 1,
                    ),
                forall|k: int|
                    0 <= k < idx ==> child_entry_ok(
                        *self,
                        g0,
                        #[trigger] moves@[k],
                        color2,
                        current_tree_depth + 1,
                    ),
            decreases moves@.len() - idx,
        {
            let m = moves[idx];
            let mut child_board = board.clone();
            child_board.play_move(m, color2);
            let child_eval = child_board.eval();
            let map_board = child_board.clone();
            let map_node = GameNode {
                board: map_board,
                color: color2,
                depth: current_tree_depth + 1,
                player_move: m,
                evaluation: child_eval,
                children: Vec::new(),
            };
            proof {
                lemma_valid_moves_props(g0);
                lemma_apply_cells(g0, m as int, color2);
                let dm = drop_row(g0, m as int);
                assert(cell(apply_result(g0, m as int, color2), dm, m as int) == color2);
                assert(cell(g0, dm, m as int) == Square::Empty);
                assert(map_node.board@ != g0);
                assert forall|k: int| 0 <= k < idx implies (#[trigger] children@[k]).board@
                    != map_node.board@ by {
                    let mk = moves@[k] as int;
                    lemma_apply_cells(g0, mk, color2);
                    let dk = drop_row(g0, mk);
                    assert(mk != m as int);
                    assert(cell(children@[k].board@, dk, mk) == color2);
                    assert(cell(map_node.board@, dk, mk) == cell(g0, dk, mk));
                    assert(cell(g0, dk, mk) == Square::Empty);
                }
            }
            let ghost pre_insert = *self;
            let ghost gmap_node = map_node;
            self.insert_node(map_node);
            proof {
                assert(self.node_of(gmap_node.board@) == gmap_node);
                assert(child_fields_ok(gmap_node, g0, m, color2, current_tree_depth + 1));
                assert(child_entry_ok(*self, g0, m, color2, current_tree_depth + 1));
                assert forall|k: int| 0 <= k < idx implies child_entry_ok(
                    *self,
                    g0,
                    #[trigger] moves@[k],
                    color2,
                    current_tree_depth + 1,
                ) by {
                    let cb = apply_result(g0, moves@[k] as int, color2);
                    assert(children@[k].board@ == cb);
                    assert(cb != gmap_node.board@);
                    assert(child_entry_ok(pre_insert, g0, moves@[k], color2,
                        current_tree_depth + 1));
                    assert(self.node_of(cb) == pre_insert.node_of(cb));
                }
            }
            let child_node = GameNode {
                board: child_board,
                color: color2,
                depth: current_tree_depth + 1,
                player_move: m,
                evaluation: child_eval,
                children: Vec::new(),
            };
            children.push(child_node);
            idx = idx + 1;
        }
        let parent_idx = match self.find_index(board) {
            Some(k) => k,
            None => {
                proof {
                    assert(false);
                }
                0
            },
        };
        proof {
            lemma_index_of_board(self.entries(), g0);
        }
        let ghost pre_set = *self;
        self.set_children(parent_idx, children);
        proof {
            assert(pre_set.entries()[parent_idx as int].board@ == g0);
            assert forall|k: int| 0 <= k < valid_moves(g0).len() implies child_entry_ok(
                *self,
                g0,
                #[trigger] valid_moves(g0)[k],
                color2,
                current_tree_depth + 1,
            ) by {
                let cb = apply_result(g0, valid_moves(g0)[k] as int, color2);
                assert(child_entry_ok(pre_set, g0, valid_moves(g0)[k], color2,
                    current_tree_depth + 1));
                let i_cb = index_of_board(pre_set.entries(), cb);
                lemma_index_of_board(pre_set.entries(), cb);
                assert(pre_set.entries()[i_cb].board@ == cb);
                lemma_apply_cells(g0, valid_moves(g0)[k] as int, color2);
                assert(cell(cb, drop_row(g0, valid_moves(g0)[k] as int), valid_moves(g0)[k] as int)
                    == color2);
                assert(cell(g0, drop_row(g0, valid_moves(g0)[k] as int), valid_moves(g0)[k] as int)
                    == Square::Empty);
                assert(cb != g0);
                assert(i_cb != parent_idx as int);
                assert(self.entries()[i_cb] == pre_set.entries()[i_cb]);
                assert(self.node_of(cb) == pre_set.node_of(cb));
            }
        }
    }

    /// Explore all positions reachable from `board` within the depth bound:
    /// expand the entry for `board` one ply — each child played by the
    /// opposite color of `color` — and recurse into every child position.
    /// At or beyond the depth bound nothing changes.
    pub fn build_tree(&mut self, board: &Board, color: Square, tree_depth: usize)
        requires
            old(self).wf(),
            board.wf(),
            color != Square::Empty,
            tree_depth < MAX_DEPTH ==> old(self).contains_board(board@),
        ensures
            final(self).wf(),
            tree_depth >= MAX_DEPTH ==> *final(self) == *old(self),
            tree_depth < MAX_DEPTH ==> expanded_at(
                *final(self),
                board@,
                color.flip_spec(),
                tree_depth + 1,
            ),
            tree_depth < MAX_DEPTH ==> forall|k: int|
                0 <= k < valid_moves(board@).len() ==> child_entry_ok(
                    *final(self),
                    board@,
                    #[trigger] valid_moves(board@)[k],
                    color.flip_spec(),
                    tree_depth + 1,
                ),
        decreases MAX_DEPTH - tree_depth,
    {
        if tree_depth >= MAX_DEPTH {
            return ;
        }
        self.expand_node(board, color, tree_depth);
        let ghost mid = *self;
        let color2 = color.flip_into();
        let moves = board.list_valid_moves();
        proof {
            lemma_valid_moves_props(board@);
            assert forall|k: int| 0 <= k < moves@.len() implies apply_ok(
                board@,
                #[trigger] moves@[k] as int,
            ) by {
                lemma_drop_row_from(board@, moves@[k] as int, 0);
                if drop_row(board@, moves@[k] as int) >= HEIGHT {
                    assert(cell(board@, HEIGHT - 1, moves@[k] as int) != Square::Empty);
                }
            }
        }
        let mut k: usize = 0;
        while k < moves.len()
            invariant
                self.wf(),
                board.wf(),
                color2 == color.flip_spec(),
                color2 != Square::Empty,
                tree_depth < MAX_DEPTH,
                moves@ == valid_moves(board@),
                forall|kk: int|
                    0 <= kk < moves@.len() ==> apply_ok(board@, #[trigger] moves@[kk] as int),
                k <= moves@.len(),
                *self == mid,
                expanded_at(*self, board@, color2, tree_depth + 1),
                forall|kk: int|
                    0 <= kk < moves@.len() ==> child_entry_ok(
                        *self,
                        board@,
                        #[trigger] moves@[kk],
                        color2,
                        tree_depth + 1,
                    ),
            decreases moves@.len() - k,
        {
            let m = moves[k];
            let mut child_board = board.clone();
            child_board.play_move(m, color2);
            self.build_tree(&child_board, color2, tree_depth + 1);
            k = k + 1;
        }
    }

    /// Choose among the stored successors of `board`'s entry the move
    /// whose position scores best for `color`, the earliest such column on
    /// ties; nothing when the entry has no successors.
    pub fn best_move(&self, board: &Board, color: Square) -> (r: Option<usize>)
        requires
            self.wf(),
            self.contains_board(board@),
        ensures
            ({
                let ch = self.node_of(board@).children@;
                &&& (ch.len() == 0 <==> r is None)
                &&& ch.len() > 0 ==> r == Some(
                    ch[best_child_in(ch, color, ch.len() as int)].player_move,
                )
            }),
    {
        let idx = match self.find_index(board) {
            Some(idx) => idx,
            None => {
                proof {
                    assert(false);
                }
                0
            },
        };
        let node = &self.tree[idx];
        proof {
            assert(*node == self.node_of(board@));
        }
        let ghost ch = node.children@;
        if node.children.len() == 0 {
            return None;
        }
        let mut best_k: usize = 0;
        let mut best_eval: isize = node.children[0].evaluation;
        let mut k: usize = 1;
        while k < node.children.len()
            invariant
                node.children@ == ch,
                1 <= k <= ch.len(),
                best_k < k,
                best_eval == ch[best_k as int].evaluation,
                best_k as int == best_child_in(ch, color, k as int),
            decreases ch.len() - k,
        {
            let e = node.children[k].evaluation;
            let is_better = match color {
                Square::Red => e < best_eval,
                _ => e > best_eval,
            };
            if is_better {
                best_k = k;
                best_eval = e;
            }
            k = k + 1;
        }
        let chosen = node.children[best_k].player_move;
        Some(chosen)
    }

    /// Replace the stored successors of the entry at `idx`, leaving all its
    /// other annotations and every other entry alone.
    fn set_children(&mut self, idx: usize, children: Vec<GameNode>)
        requires
            old(self).wf(),
            idx < old(self).entries().len(),
            forall|k: int| 0 <= k < children@.len() ==> (#[trigger] children@[k]).board.wf(),
        ensures
            final(self).wf(),
            final(self).entries().len() == old(self).entries().len(),
            forall|k: int|
                0 <= k < old(self).entries().len() && k != idx ==> final(self).entries()[k] == old(
                    self,
                ).entries()[k],
            final(self).entries()[idx as int].board == old(self).entries()[idx as int].board,
            final(self).entries()[idx as int].color == old(self).entries()[idx as int].color,
            final(self).entries()[idx as int].depth == old(self).entries()[idx as int].depth,
            final(self).entries()[idx as int].player_move == old(self).entries()[
                idx as int
            ].player_move,
            final(self).entries()[idx as int].evaluation == old(self).entries()[
                idx as int
            ].evaluation,
            final(self).entries()[idx as int].children == children,
            forall|g: Seq<Square>|
                index_of_board(final(self).entries(), g) == index_of_board(old(self).entries(), g),
    {
        let ghost pre = self.entries();
        let old_node = self.tree.remove(idx);
        let new_node = GameNode {
            board: old_node.board,
            color: old_node.color,
            depth: old_node.depth,
            player_move: old_node.player_move,
            evaluation: old_node.evaluation,
            children,
        };
        self.tree.insert(idx, new_node);
        proof {
            let post = self.entries();
            assert(post =~= pre.update(idx as int, new_node));
            assert(forall|k2: int|
                0 <= k2 < pre.len() ==> (#[trigger] pre[k2]).board@ == post[k2].board@);
            assert forall|g: Seq<Square>| true implies index_of_board(post, g) == index_of_board(
                pre,
                g,
            ) by {
                lemma_index_of_same_boards(pre, post, g);
            }
        }
    }
}

/// The heuristic score of the position after `color` drops into column `m`.
pub open spec fn move_score(g: Seq<Square>, m: usize, color: Square) -> int {
    eval_spec(apply_result(g, m as int, color))
}

/// Relies on rand's `Rng::gen_range` over `0..n`: the sample always lies
/// in the given half-open range, which must not be empty.
#[verifier::external_body]
fn random_below(n: usize) -> (r: usize)
    requires
        1 <= n,
    ensures
        r < n,
{
    rand::Rng::gen_range(&mut rand::thread_rng(), 0..n)
}

/// The search-based move source, playing one fixed color.
pub struct Bot {
    color: Square,
}

impl Bot {
    /// The bot always plays a real color.
    #[verifier::type_invariant]
    spec fn inv(self) -> bool {
        self.color != Square::Empty
    }

    /// The color the bot plays.
    pub closed spec fn color_spec(self) -> Square {
        self.color
    }

    /// A bot playing `color`.
    pub fn new(color: Square) -> (r: Self)
        requires
            color != Square::Empty,
        ensures
            r.color_spec() == color,
    {
        Bot { color }
    }

    /// A uniformly random column among the open ones.
    fn get_random_move(&self, current_board: &Board) -> (r: usize)
        requires
            current_board.wf(),
            valid_moves(current_board@).len() > 0,
        ensures
            valid_moves(current_board@).contains(r),
    {
        let moves = current_board.list_valid_moves();
        let k = random_below(moves.len());
        let r = moves[k];
        proof {
            assert(valid_moves(current_board@)[k as int] == r);
        }
        r
    }

    /// The move the bot plays on `current_board`.  On the very first move
    /// of a game the choice is random; afterwards it is the open column
    /// whose resulting position scores best for the bot's color, one ply
    /// deep, the leftmost such column on ties.
    pub fn choose_move(&self, current_board: &Board) -> (r: usize)
        requires
            current_board.wf(),
            valid_moves(current_board@).len() > 0,
        ensures
            valid_moves(current_board@).contains(r),
            !all_empty(current_board@) ==> forall|j: int|
                0 <= j < valid_moves(current_board@).len() ==> !better(
                    self.color_spec(),
                    move_score(
                        current_board@,
                        #[trigger] valid_moves(current_board@)[j],
                        self.color_spec(),
                    ),
                    move_score(current_board@, r, self.color_spec()),
                ),
            !all_empty(current_board@) ==> forall|j: int|
                0 <= j < valid_moves(current_board@).len() && #[trigger] valid_moves(
                    current_board@,
                )[j] < r ==> better(
                    self.color_spec(),
                    move_score(current_board@, r, self.color_spec()),
                    move_score(current_board@, valid_moves(current_board@)[j], self.color_spec()),
                ),
    {
        proof {
            use_type_invariant(&*self);
        }
        if current_board.is_empty() {
            return self.get_random_move(current_board);
        }
        let mut tree = GameTree::new();
        let opponent_color = self.color.flip_into();
        tree.init_tree(current_board, opponent_color);
        tree.build_tree(current_board, opponent_color, 0);
        let r = match tree.best_move(current_board, self.color) {
            Some(m) => m,
            None => {
                proof {
                    assert(false);
                }
                0
            },
        };
        proof {
            let g = current_board@;
            let moves = valid_moves(g);
            let ch = tree.node_of(g).children@;
            let b = best_child_in(ch, self.color, ch.len() as int);
            lemma_best_child_props(ch, self.color, ch.len() as int);
            lemma_valid_moves_props(g);
            assert(child_fields_ok(ch[b], g, moves[b], self.color, 1));
            assert(r == moves[b]);
            assert(moves.contains(r)) by {
                assert(moves[b] == r);
            }
            assert forall|j: int| 0 <= j < moves.len() implies !better(
                self.color_spec(),
                move_score(g, #[trigger] moves[j], self.color_spec()),
                move_score(g, r, self.color_spec()),
            ) by {
                assert(child_fields_ok(ch[j], g, moves[j], self.color, 1));
                assert(ch[j].evaluation as int == move_score(g, moves[j], self.color));
            }
            assert forall|j: int|
                0 <= j < moves.len() && #[trigger] moves[j] < r implies better(
                self.color_spec(),
                move_score(g, r, self.color_spec()),
                move_score(g, moves[j], self.color_spec()),
            ) by {
                assert(child_fields_ok(ch[j], g, moves[j], self.color, 1));
                if j >= b {
                    assert(moves[b] <= moves[j]);
                }
                assert(j < b);
            }
        }
        r
    }
}

impl crate::player::Player for Bot {
    type MoveData = usize;

    type ErrorType = crate::player::Error;

    /// The bot is no interactive source.
    fn is_human(&self) -> (r: bool)
        ensures
            r == false,
    {
        false
    }

    /// The bot's move for the given position: `choose_move`'s choice — a
    /// valid move, and on a non-empty board the best-scoring one for the
    /// bot's color, leftmost on ties.  It fails exactly when the board
    /// offers no move at all.
    fn get_move(&mut self, current_board: &Board) -> (r: Result<
        usize,
        crate::player::Error,
    >)
        ensures
            *final(self) == *old(self),
            r is Err <==> valid_moves(current_board@).len() == 0,
            r is Err ==> r == Err::<usize, crate::player::Error>(
                crate::player::Error::NoValidMove,
            ),
            r matches Ok(m) ==> valid_moves(current_board@).contains(m),
            !all_empty(current_board@) ==> (r matches Ok(m) ==> forall|j: int|
                0 <= j < valid_moves(current_board@).len() ==> !better(
                    old(self).color_spec(),
                    move_score(
                        current_board@,
                        #[trigger] valid_moves(current_board@)[j],
                        old(self).color_spec(),
                    ),
                    move_score(current_board@, m, old(self).color_spec()),
                )),
            !all_empty(current_board@) ==> (r matches Ok(m) ==> forall|j: int|
                0 <= j < valid_moves(current_board@).len() && #[trigger] valid_moves(
                    current_board@,
                )[j] < m ==> better(
                    old(self).color_spec(),
                    move_score(current_board@, m, old(self).color_spec()),
                    move_score(
                        current_board@,
                        valid_moves(current_board@)[j],
                        old(self).color_spec(),
                    ),
                )),
    {
        let moves = current_board.list_valid_moves();
        if moves.len() == 0 {
            return Err(crate::player::Error::NoValidMove);
        }
        Ok(self.choose_move(current_board))
    }
}

} // verus!
