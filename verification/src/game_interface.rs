//! Driver-facing game interfaces: each owns a game tree arena, a logical
//! root that advances as moves are committed, and the frontier bookkeeping
//! for depth-limited, level-by-level expansion.

use vstd::prelude::*;

use crate::{BoardMove, Cell, FiarGameState, GameState, T3GameState, TreeEvaluator};

verus! {

/// Whether a level-by-level expansion has reached the configured depth.
#[derive(Debug, PartialEq, Eq, Structural)]
pub enum ExpandResult {
    Done,
    NotDone,
}

/// The closed set of commands a driver exchanges with the engine.
#[derive(Clone, Copy, Debug, PartialEq, Eq, Structural)]
pub enum Message {
    Reset,
    SetMove(BoardMove),
    GetMove,
}

/// The engine interface for one game: the arena, the logical root (the node
/// of the last committed move), the ids still to expand, and how deep the
/// tree has been expanded so far.
pub struct GameTreeInterface<T: GameState> {
    pub tree_eval: TreeEvaluator<T>,
    pub last_move_idx: usize,
    pub expand_new_idx: Vec<usize>,
    pub cur_expanded_depth: usize,
    pub max_expanded_depth: usize,
}

impl<T: GameState> GameTreeInterface<T> {
    /// The arena is well-formed, the root points into it, and the pending
    /// expansion ids are distinct nodes of it.
    pub open spec fn wf(self) -> bool {
        &&& self.tree_eval.wf()
        &&& (self.last_move_idx as int) < self.tree_eval.spec_len()
        &&& forall|m: int|
            0 <= m < self.expand_new_idx@.len() ==> (#[trigger] self.expand_new_idx@[m])
                < self.tree_eval.spec_len()
        &&& forall|m1: int, m2: int|
            0 <= m1 < m2 < self.expand_new_idx@.len() ==> #[trigger] self.expand_new_idx@[m1]
                != #[trigger] self.expand_new_idx@[m2]
    }

    /// A freshly initialized interface: one root node holding the game's
    /// starting position, queued as the only node to expand.
    pub open spec fn fresh(self, max_depth: int) -> bool {
        &&& self.tree_eval.spec_len() == 1
        &&& T::spec_is_initial(self.tree_eval.state(0))
        &&& self.tree_eval.val(0) == 0
        &&& self.tree_eval.kids(0).len() == 0
        &&& self.last_move_idx == 0
        &&& self.expand_new_idx@ =~= seq![0usize]
        &&& self.cur_expanded_depth == 0
        &&& self.max_expanded_depth == max_depth
    }

    /// The first direct child of `p` (from position `k` on) whose recorded
    /// move equals `mv`.
    pub open spec fn first_match_from(
        t: TreeEvaluator<T>,
        p: int,
        mv: BoardMove,
        k: int,
    ) -> Option<usize>
        decreases t.kids(p).len() - k,
    {
        if !(0 <= k < t.kids(p).len()) {
            None
        } else if t.state(t.kids(p)[k] as int).spec_last_move() == mv {
            Some(t.kids(p)[k])
        } else {
            Self::first_match_from(t, p, mv, k + 1)
        }
    }

    /// The first direct child of `p` whose recorded move equals `mv`.
    pub open spec fn spec_identify_move(t: TreeEvaluator<T>, p: int, mv: BoardMove) -> Option<
        usize,
    > {
        Self::first_match_from(t, p, mv, 0)
    }

    /// `v` lists exactly the unexpanded, non-terminal nodes of the subtree
    /// under `start`, without repetition.
    pub open spec fn leaf_set_of(t: TreeEvaluator<T>, start: int, v: Seq<usize>) -> bool {
        &&& v.no_duplicates()
        &&& forall|m: int|
            0 <= m < v.len() ==> {
                &&& ((#[trigger] v[m]) as int) < t.spec_len()
                &&& t.is_desc(start, v[m] as int)
                &&& t.expandable(v[m] as int)
            }
        &&& forall|d: int|
            #![trigger t.is_desc(start, d)]
            0 <= d < t.spec_len() && t.is_desc(start, d) && t.expandable(d) ==> v.contains(
                d as usize,
            )
    }

    /// What a successful or failed move tracking leaves behind: on failure
    /// nothing changes; on success the logical root advances to the first
    /// matching child, one level of expanded depth is consumed, and the
    /// expansion frontier is re-seeded with the unexpanded leaves reachable
    /// from the new root.
    pub open spec fn track_post(pre: Self, post: Self, mv: BoardMove, found: bool) -> bool {
        let matched = Self::spec_identify_move(pre.tree_eval, pre.last_move_idx as int, mv);
        &&& found == (matched is Some)
        &&& !found ==> post == pre
        &&& found ==> {
            &&& post.tree_eval == pre.tree_eval
            &&& Some(post.last_move_idx) == matched
            &&& post.cur_expanded_depth == (if pre.cur_expanded_depth > 0 {
                (pre.cur_expanded_depth - 1) as usize
            } else {
                0
            })
            &&& post.max_expanded_depth == pre.max_expanded_depth
            &&& Self::leaf_set_of(post.tree_eval, post.last_move_idx as int, post.expand_new_idx@)
        }
    }

    /// What committing the engine's own best move leaves behind: the subtree
    /// under the old root has been evaluated by backward induction, the root
    /// advances to the best child, one level of expanded depth is consumed,
    /// the frontier is re-seeded, and the child's move is returned.
    pub open spec fn best_move_post(pre: Self, post: Self, mv: BoardMove) -> bool {
        let t0 = pre.tree_eval;
        let t1 = post.tree_eval;
        let root = pre.last_move_idx as int;
        &&& t1.parent@ == t0.parent@
        &&& t1.children@ == t0.children@
        &&& t1.game_states@ == t0.game_states@
        &&& forall|i: int|
            0 <= i < t0.spec_len() ==> #[trigger] t1.val(i) == if t0.is_desc(root, i) {
                t0.node_value(i)
            } else {
                t0.val(i)
            }
        &&& post.last_move_idx == t1.spec_best_child(root)
        &&& t0.kids(root).contains(post.last_move_idx)
        &&& mv == t1.state(post.last_move_idx as int).spec_last_move()
        &&& post.cur_expanded_depth == (if pre.cur_expanded_depth > 0 {
            (pre.cur_expanded_depth - 1) as usize
        } else {
            0
        })
        &&& post.max_expanded_depth == pre.max_expanded_depth
        &&& Self::leaf_set_of(post.tree_eval, post.last_move_idx as int, post.expand_new_idx@)
    }

    /// What one call of the level-by-level expansion leaves behind.
    pub open spec fn expand_post(pre: Self, post: Self, r: ExpandResult) -> bool {
        &&& TreeEvaluator::grown(pre.tree_eval, post.tree_eval)
        &&& post.last_move_idx == pre.last_move_idx
        &&& post.max_expanded_depth == pre.max_expanded_depth
        &&& pre.cur_expanded_depth < pre.max_expanded_depth ==> {
            &&& TreeEvaluator::multi_expanded(pre.tree_eval, post.tree_eval, pre.expand_new_idx@)
            &&& post.cur_expanded_depth == pre.cur_expanded_depth + 1
            &&& r == (if pre.cur_expanded_depth + 1 < pre.max_expanded_depth {
                ExpandResult::NotDone
            } else {
                ExpandResult::Done
            })
        }
        &&& pre.cur_expanded_depth >= pre.max_expanded_depth ==> (r == ExpandResult::Done && post
            == pre)
    }

    pub fn new(max_depth: usize) -> (r: Self)
        ensures
            r.wf(),
            r.fresh(max_depth as int),
    {
        let mut expand_new_idx: Vec<usize> = Vec::new();
        expand_new_idx.push(0);
        GameTreeInterface {
            tree_eval: TreeEvaluator::new_with_default(),
            last_move_idx: 0,
            expand_new_idx,
            cur_expanded_depth: 0,
            max_expanded_depth: max_depth,
        }
    }

    /// Throw the whole arena away and start over from the initial position.
    pub fn reset(&mut self)
        ensures
            final(self).wf(),
            final(self).fresh(old(self).max_expanded_depth as int),
    {
        let max_depth = self.max_expanded_depth;
        *self = Self::new(max_depth);
    }

    /// Expand the current frontier one full ply, until the configured depth
    /// is reached; reports whether the expansion is complete.
    pub fn expand_one_level(&mut self) -> (r: ExpandResult)
        requires
            old(self).wf(),
        ensures
            final(self).wf(),
            Self::expand_post(*old(self), *final(self), r),
    {
        let ghost pre = *self;
        if self.cur_expanded_depth < self.max_expanded_depth {
            let next = self.tree_eval.expand_and_get_children_idx(&self.expand_new_idx);
            proof {
                TreeEvaluator::lemma_multi_grown(
                    pre.tree_eval,
                    self.tree_eval,
                    pre.expand_new_idx@,
                );
            }
            self.expand_new_idx = next;
            self.cur_expanded_depth = self.cur_expanded_depth + 1;
            if self.cur_expanded_depth < self.max_expanded_depth {
                ExpandResult::NotDone
            } else {
                ExpandResult::Done
            }
        } else {
            ExpandResult::Done
        }
    }

    /// The first direct child of the current root whose recorded move equals
    /// `game_move`.
    fn identify_move(&self, game_move: &BoardMove) -> (r: Option<usize>)
        requires
            self.wf(),
        ensures
            r == Self::spec_identify_move(self.tree_eval, self.last_move_idx as int, *game_move),
            r matches Some(c) ==> (c as int) < self.tree_eval.spec_len(),
    {
        let ghost t = self.tree_eval;
        let ghost p = self.last_move_idx as int;
        let klen = self.tree_eval.children[self.last_move_idx].len();
        let mut k: usize = 0;
        while k < klen
            invariant
                self.wf(),
                t == self.tree_eval,
                p == self.last_move_idx as int,
                0 <= p < t.spec_len(),
                klen == t.kids(p).len(),
                k <= klen,
                Self::first_match_from(t, p, *game_move, k as int) == Self::spec_identify_move(
                    t,
                    p,
                    *game_move,
                ),
            decreases klen - k,
        {
            proof {
                assert(t.kid_ok(p, k as int));
            }
            let c = self.tree_eval.children[self.last_move_idx][k];
            if self.tree_eval.game_states[c].last_move() == *game_move {
                return Some(c);
            }
            k = k + 1;
        }
        None
    }

    /// The unexpanded, non-terminal nodes of the subtree under `start_idx`.
    fn get_unexpanded_leafs(&self, start_idx: usize) -> (r: Vec<usize>)
        requires
            self.wf(),
            start_idx < self.tree_eval.spec_len(),
        ensures
            Self::leaf_set_of(self.tree_eval, start_idx as int, r@),
    {
        let ghost t = self.tree_eval;
        let ghost start = start_idx as int;
        let order = self.tree_eval.bfs_order(start_idx);
        let olen = order.len();
        let mut r: Vec<usize> = Vec::new();
        let mut q: usize = 0;
        while q < olen
            invariant
                self.wf(),
                t == self.tree_eval,
                0 <= start < t.spec_len(),
                olen == order@.len(),
                q <= olen,
                order@.no_duplicates(),
                forall|qq: int|
                    0 <= qq < olen ==> t.is_desc(start, (#[trigger] order@[qq]) as int),
                forall|d: int| t.is_desc(start, d) ==> order@.contains(d as usize),
                r@.no_duplicates(),
                forall|m: int|
                    0 <= m < r@.len() ==> order@.take(q as int).contains(#[trigger] r@[m]),
                forall|m: int|
                    0 <= m < r@.len() ==> {
                        &&& ((#[trigger] r@[m]) as int) < t.spec_len()
                        &&& t.is_desc(start, r@[m] as int)
                        &&& t.expandable(r@[m] as int)
                    },
                forall|qq: int|
                    0 <= qq < q && t.expandable((#[trigger] order@[qq]) as int) ==> r@.contains(
                        order@[qq],
                    ),
            decreases olen - q,
        {
            let idx = order[q];
            proof {
                t.lemma_desc_bounds(start, idx as int);
            }
            let keep = self.tree_eval.children[idx].len() == 0 && {
                let v = self.tree_eval.worst_case_values[idx];
                v != crate::X_WIN_VALUE && v != -crate::X_WIN_VALUE
            };
            let ghost r0 = r@;
            if keep {
                proof {
                    assert(!order@.take(q as int).contains(idx)) by {
                        if order@.take(q as int).contains(idx) {
                            let qq = choose|qq: int|
                                0 <= qq < q && order@.take(q as int)[qq] == idx;
                            assert(order@[qq] == order@[q as int]);
                        }
                    }
                }
                r.push(idx);
            }
            proof {
                assert(order@.take(q as int + 1).drop_last() =~= order@.take(q as int));
                assert forall|m: int| 0 <= m < r@.len() implies order@.take(q as int + 1).contains(
                    #[trigger] r@[m],
                ) by {
                    if m < r0.len() {
                        assert(order@.take(q as int).contains(r0[m]));
                        let qq = choose|qq: int|
                            0 <= qq < q && order@.take(q as int)[qq] == r0[m];
                        assert(order@.take(q as int + 1)[qq] == r@[m]);
                    } else {
                        assert(order@.take(q as int + 1)[q as int] == idx);
                    }
                }
                assert forall|qq: int|
                    0 <= qq < q + 1 && t.expandable((#[trigger] order@[qq]) as int)
                    implies r@.contains(order@[qq]) by {
                    if qq < q {
                        assert(r0.contains(order@[qq]));
                        let m = choose|m: int| 0 <= m < r0.len() && r0[m] == order@[qq];
                        assert(r@[m] == order@[qq]);
                    } else {
                        assert(keep);
                        assert(r@[r0.len() as int] == idx);
                    }
                }
            }
            q = q + 1;
        }
        proof {
            assert forall|d: int|
                0 <= d < t.spec_len() && t.is_desc(start, d) && t.expandable(d) implies r@.contains(
                d as usize,
            ) by {
                assert(order@.contains(d as usize));
                let qq = choose|qq: int| 0 <= qq < olen && order@[qq] == d as usize;
                assert(t.expandable(order@[qq] as int));
            }
        }
        r
    }

    /// Advance the logical root to the direct child matching the committed
    /// move; fails, leaving everything unchanged, when no child matches
    /// (the driver and the engine disagree about the position).
    pub fn track_move(&mut self, game_move: BoardMove) -> (r: bool)
        requires
            old(self).wf(),
        ensures
            final(self).wf(),
            Self::track_post(*old(self), *final(self), game_move, r),
    {
        match self.identify_move(&game_move) {
            Some(idx) => {
                self.last_move_idx = idx;
                if self.cur_expanded_depth > 0 {
                    self.cur_expanded_depth = self.cur_expanded_depth - 1;
                }
                let leaves = self.get_unexpanded_leafs(idx);
                self.expand_new_idx = leaves;
                true
            },
            None => false,
        }
    }

    /// Evaluate the subtree under the current root, commit the best child as
    /// the engine's move and return that move.
    pub fn get_best_move(&mut self) -> (r: BoardMove)
        requires
            old(self).wf(),
            old(self).tree_eval.kids(old(self).last_move_idx as int).len() > 0,
            old(self).tree_eval.state(old(self).last_move_idx as int).spec_side() != Cell::Empty,
        ensures
            final(self).wf(),
            Self::best_move_post(*old(self), *final(self), r),
    {
        let root = self.last_move_idx;
        self.tree_eval.evaluate_states(root);
        let best = match self.tree_eval.best_child(root) {
            Some(b) => b,
            None => {
                proof {
                    assert(false);
                }
                0
            },
        };
        proof {
            assert(self.tree_eval.state(best as int).wf());
        }
        let best_move = self.tree_eval.game_states[best].last_move();
        self.last_move_idx = best;
        if self.cur_expanded_depth > 0 {
            self.cur_expanded_depth = self.cur_expanded_depth - 1;
        }
        let leaves = self.get_unexpanded_leafs(best);
        self.expand_new_idx = leaves;
        best_move
    }

    /// Handle one driver command: reset the engine, track a committed move,
    /// or evaluate and answer with the engine's own move. Only a move
    /// request produces an outbound move, and only when the root has
    /// children to choose from.
    pub fn process(&mut self, msg: Message) -> (r: Option<BoardMove>)
        requires
            old(self).wf(),
        ensures
            final(self).wf(),
            msg == Message::Reset ==> final(self).fresh(old(self).max_expanded_depth as int) && r
                is None,
            msg matches Message::SetMove(mv) ==> r is None && Self::track_post(
                *old(self),
                *final(self),
                mv,
                Self::spec_identify_move(
                    old(self).tree_eval,
                    old(self).last_move_idx as int,
                    mv,
                ) is Some,
            ),
            msg == Message::GetMove ==> {
                if old(self).tree_eval.kids(old(self).last_move_idx as int).len() > 0 && old(
                    self,
                ).tree_eval.state(old(self).last_move_idx as int).spec_side() != Cell::Empty {
                    r matches Some(mv) && Self::best_move_post(*old(self), *final(self), mv)
                } else {
                    r is None && *final(self) == *old(self)
                }
            },
    {
        match msg {
            Message::Reset => {
                self.reset();
                None
            },
            Message::SetMove(mv) => {
                let found = self.track_move(mv);
                proof {
                    assert(Self::track_post(*old(self), *self, mv, found));
                }
                None
            },
            Message::GetMove => {
                let root = self.last_move_idx;
                let has_children = self.tree_eval.children[root].len() > 0;
                let side_ok = self.tree_eval.game_states[root].side() != Cell::Empty;
                if has_children && side_ok {
                    Some(self.get_best_move())
                } else {
                    None
                }
            },
        }
    }
}

/// The 3-in-a-row engine interface: a 3x3 board expanded up to nine plies.
pub struct T3GameInterface {
    pub inner: GameTreeInterface<T3GameState>,
}

impl T3GameInterface {
    pub fn new() -> (r: Self)
        ensures
            r.inner.wf(),
            r.inner.fresh(9),
    {
        T3GameInterface { inner: GameTreeInterface::new(9) }
    }

    pub fn expand_one_level(&mut self) -> (r: ExpandResult)
        requires
            old(self).inner.wf(),
        ensures
            final(self).inner.wf(),
            GameTreeInterface::expand_post(old(self).inner, final(self).inner, r),
    {
        self.inner.expand_one_level()
    }

    pub fn track_move(&mut self, game_move: BoardMove) -> (r: bool)
        requires
            old(self).inner.wf(),
        ensures
            final(self).inner.wf(),
            GameTreeInterface::track_post(old(self).inner, final(self).inner, game_move, r),
    {
        self.inner.track_move(game_move)
    }

    pub fn get_best_move(&mut self) -> (r: BoardMove)
        requires
            old(self).inner.wf(),
            old(self).inner.tree_eval.kids(old(self).inner.last_move_idx as int).len() > 0,
            old(self).inner.tree_eval.state(
                old(self).inner.last_move_idx as int,
            ).spec_side() != Cell::Empty,
        ensures
            final(self).inner.wf(),
            GameTreeInterface::best_move_post(old(self).inner, final(self).inner, r),
    {
        self.inner.get_best_move()
    }

    pub fn reset(&mut self)
        ensures
            final(self).inner.wf(),
            final(self).inner.fresh(old(self).inner.max_expanded_depth as int),
    {
        self.inner.reset()
    }

    pub fn process(&mut self, msg: Message) -> (r: Option<BoardMove>)
        requires
            old(self).inner.wf(),
        ensures
            final(self).inner.wf(),
            msg == Message::Reset ==> final(self).inner.fresh(
                old(self).inner.max_expanded_depth as int,
            ) && r is None,
            msg matches Message::SetMove(mv) ==> r is None
                && GameTreeInterface::track_post(
                old(self).inner,
                final(self).inner,
                mv,
                GameTreeInterface::spec_identify_move(
                    old(self).inner.tree_eval,
                    old(self).inner.last_move_idx as int,
                    mv,
                ) is Some,
            ),
            msg == Message::GetMove ==> {
                if old(self).inner.tree_eval.kids(old(self).inner.last_move_idx as int).len() > 0
                    && old(self).inner.tree_eval.state(
                    old(self).inner.last_move_idx as int,
                ).spec_side() != Cell::Empty {
                    r matches Some(mv) && GameTreeInterface::best_move_post(
                        old(self).inner,
                        final(self).inner,
                        mv,
                    )
                } else {
                    r is None && *final(self) == *old(self)
                }
            },
    {
        self.inner.process(msg)
    }
}

/// The four-in-a-row engine interface: a 7x6 board expanded up to six plies.
pub struct FiarGameInterface {
    pub inner: GameTreeInterface<FiarGameState>,
}

impl FiarGameInterface {
    pub fn new() -> (r: Self)
        ensures
            r.inner.wf(),
            r.inner.fresh(6),
    {
        FiarGameInterface { inner: GameTreeInterface::new(6) }
    }

    pub fn expand_one_level(&mut self) -> (r: ExpandResult)
        requires
            old(self).inner.wf(),
        ensures
            final(self).inner.wf(),
            GameTreeInterface::expand_post(old(self).inner, final(self).inner, r),
    {
        self.inner.expand_one_level()
    }

    pub fn track_move(&mut self, game_move: BoardMove) -> (r: bool)
        requires
            old(self).inner.wf(),
        ensures
            final(self).inner.wf(),
            GameTreeInterface::track_post(old(self).inner, final(self).inner, game_move, r),
    {
        self.inner.track_move(game_move)
    }

    pub fn get_best_move(&mut self) -> (r: BoardMove)
        requires
            old(self).inner.wf(),
            old(self).inner.tree_eval.kids(old(self).inner.last_move_idx as int).len() > 0,
            old(self).inner.tree_eval.state(
                old(self).inner.last_move_idx as int,
            ).spec_side() != Cell::Empty,
        ensures
            final(self).inner.wf(),
            GameTreeInterface::best_move_post(old(self).inner, final(self).inner, r),
    {
        self.inner.get_best_move()
    }

    pub fn reset(&mut self)
        ensures
            final(self).inner.wf(),
            final(self).inner.fresh(old(self).inner.max_expanded_depth as int),
    {
        self.inner.reset()
    }

    pub fn process(&mut self, msg: Message) -> (r: Option<BoardMove>)
        requires
            old(self).inner.wf(),
        ensures
            final(self).inner.wf(),
            msg == Message::Reset ==> final(self).inner.fresh(
                old(self).inner.max_expanded_depth as int,
            ) && r is None,
            msg matches Message::SetMove(mv) ==> r is None
                && GameTreeInterface::track_post(
                old(self).inner,
                final(self).inner,
                mv,
                GameTreeInterface::spec_identify_move(
                    old(self).inner.tree_eval,
                    old(self).inner.last_move_idx as int,
                    mv,
                ) is Some,
            ),
            msg == Message::GetMove ==> {
                if old(self).inner.tree_eval.kids(old(self).inner.last_move_idx as int).len() > 0
                    && old(self).inner.tree_eval.state(
                    old(self).inner.last_move_idx as int,
                ).spec_side() != Cell::Empty {
                    r matches Some(mv) && GameTreeInterface::best_move_post(
                        old(self).inner,
                        final(self).inner,
                        mv,
                    )
                } else {
                    r is None && *final(self) == *old(self)
                }
            },
    {
        self.inner.process(msg)
    }
}

} // verus!
