//! Arena-based game tree: an append-only forest of game states addressed by
//! integer index, with incremental expansion, breadth-first traversal,
//! backward-induction (minimax) evaluation and move selection.

use std::collections::VecDeque;

use vstd::prelude::*;

use crate::{Cell, GameState, X_WIN_VALUE};

verus! {

/// The game tree arena. Node `i` is described by four parallel containers:
/// its parent index, its child indices, its game state and its cached
/// worst-case (minimax) value. Node 0 is the root; every other node's parent
/// has a smaller index, because nodes are appended in expansion order and
/// ids are never reused.
pub struct TreeEvaluator<T> {
    pub parent: Vec<usize>,
    pub children: Vec<Vec<usize>>,
    pub game_states: Vec<T>,
    pub worst_case_values: Vec<i32>,
}

impl<T: GameState> TreeEvaluator<T> {
    /// Number of nodes in the arena.
    pub open spec fn spec_len(self) -> int {
        self.game_states@.len() as int
    }

    /// The child indices of node `i`.
    pub open spec fn kids(self, i: int) -> Seq<usize> {
        self.children@[i]@
    }

    /// The cached worst-case value of node `i`.
    pub open spec fn val(self, i: int) -> i32 {
        self.worst_case_values@[i]
    }

    /// The parent index of node `i`.
    pub open spec fn par(self, i: int) -> int {
        self.parent@[i] as int
    }

    /// The game state of node `i`.
    pub open spec fn state(self, i: int) -> T {
        self.game_states@[i]
    }

    /// The `k`-th child entry of node `p` points at a later, existing node
    /// whose parent entry points back at `p`.
    pub open spec fn kid_ok(self, p: int, k: int) -> bool {
        let c = self.kids(p)[k] as int;
        &&& p < c < self.spec_len()
        &&& self.par(c) == p
    }

    /// Arena well-formedness; established by the constructors and preserved
    /// by every operation.
    pub open spec fn wf(self) -> bool {
        let n = self.spec_len();
        &&& self.parent@.len() == n
        &&& self.children@.len() == n
        &&& self.worst_case_values@.len() == n
        &&& 1 <= n <= usize::MAX
        &&& self.par(0) == 0
        &&& forall|i: int| 0 < i < n ==> 0 <= #[trigger] self.par(i) < i
        &&& forall|i: int| 0 <= i < n ==> (#[trigger] self.state(i)).wf()
        &&& forall|p: int, k: int|
            0 <= p < n && 0 <= k < self.kids(p).len() ==> #[trigger] self.kid_ok(p, k)
        &&& forall|p: int, k1: int, k2: int|
            0 <= p < n && 0 <= k1 < k2 < self.kids(p).len() ==> #[trigger] self.kids(p)[k1]
                < #[trigger] self.kids(p)[k2]
        &&& forall|i: int| 0 < i < n ==> #[trigger] self.kids(self.par(i)).contains(i as usize)
    }

    /// A node is expandable while its cached value is not a win sentinel and
    /// it has no children yet. Terminal nodes are permanently unexpanded;
    /// expanded nodes are never expanded twice.
    pub open spec fn expandable(self, i: int) -> bool {
        &&& self.val(i) != X_WIN_VALUE
        &&& self.val(i) != (-X_WIN_VALUE) as i32
        &&& self.kids(i).len() == 0
    }

    /// Exact shape of one node expansion: the children of `idx` are freshly
    /// appended at the end of the arena, in the scan order of the game, with
    /// their positional values cached; everything else is untouched.
    pub open spec fn expanded_from(pre: Self, post: Self, idx: int) -> bool {
        let n = pre.spec_len();
        let k = pre.state(idx).spec_num_children();
        &&& post.spec_len() == n + k
        &&& forall|i: int| 0 <= i < n ==> #[trigger] post.state(i) == pre.state(i)
        &&& forall|i: int| 0 <= i < n ==> #[trigger] post.val(i) == pre.val(i)
        &&& forall|i: int| 0 <= i < n ==> #[trigger] post.par(i) == pre.par(i)
        &&& forall|i: int| 0 <= i < n && i != idx ==> #[trigger] post.kids(i) == pre.kids(i)
        &&& post.kids(idx) == Seq::new(k as nat, |t: int| (n + t) as usize)
        &&& forall|t: int| 0 <= t < k ==> #[trigger] post.par(n + t) == idx
        &&& forall|t: int|
            0 <= t < k ==> pre.state(idx).spec_child_ok(t, #[trigger] post.state(n + t))
        &&& forall|t: int|
            0 <= t < k ==> #[trigger] post.val(n + t) == post.state(n + t).spec_position_value()
        &&& forall|t: int| 0 <= t < k ==> #[trigger] post.kids(n + t).len() == 0
    }

    /// How many nodes the first `j` entries of `ids` add when expanded in
    /// order: expandable entries contribute their child count, terminal or
    /// already-expanded entries contribute nothing.
    pub open spec fn added_before(pre: Self, ids: Seq<usize>, j: int) -> int
        decreases j,
    {
        if j <= 0 {
            0
        } else {
            Self::added_before(pre, ids, j - 1) + if pre.expandable(ids[j - 1] as int) {
                pre.state(ids[j - 1] as int).spec_num_children()
            } else {
                0
            }
        }
    }

    /// With non-negative child counts, expanding more entries never shrinks
    /// the arena.
    pub proof fn lemma_added_before_mono(pre: Self, ids: Seq<usize>, m: int, j: int)
        requires
            0 <= m <= j,
            forall|mm: int|
                0 <= mm < j && pre.expandable(ids[mm] as int) ==> pre.state(
                    ids[mm] as int,
                ).spec_num_children() >= 0,
        ensures
            Self::added_before(pre, ids, m) <= Self::added_before(pre, ids, j),
        decreases j - m,
    {
        if m < j {
            Self::lemma_added_before_mono(pre, ids, m, j - 1);
        }
    }

    /// The base id of the child block created for the `m`-th entry of `ids`.
    pub open spec fn block_base(pre: Self, ids: Seq<usize>, m: int) -> int {
        pre.spec_len() + Self::added_before(pre, ids, m)
    }

    /// The `t`-th child created for the `m`-th entry of `ids` is parented
    /// correctly, matches the game's `t`-th legal move, and carries its own
    /// positional value.
    pub open spec fn block_ok(pre: Self, post: Self, ids: Seq<usize>, m: int, t: int) -> bool {
        let p = ids[m] as int;
        let c = Self::block_base(pre, ids, m) + t;
        &&& post.par(c) == p
        &&& pre.state(p).spec_child_ok(t, post.state(c))
        &&& post.val(c) == post.state(c).spec_position_value()
    }

    /// Exact shape of expanding the distinct node ids `ids`, in order.
    pub open spec fn multi_expanded(pre: Self, post: Self, ids: Seq<usize>) -> bool {
        let n0 = pre.spec_len();
        &&& post.spec_len() == n0 + Self::added_before(pre, ids, ids.len() as int)
        &&& forall|i: int| 0 <= i < n0 ==> #[trigger] post.state(i) == pre.state(i)
        &&& forall|i: int| 0 <= i < n0 ==> #[trigger] post.val(i) == pre.val(i)
        &&& forall|i: int| 0 <= i < n0 ==> #[trigger] post.par(i) == pre.par(i)
        &&& forall|i: int|
            0 <= i < n0 && !ids.contains(i as usize) ==> #[trigger] post.kids(i) == pre.kids(i)
        &&& forall|m: int|
            0 <= m < ids.len() && !pre.expandable(ids[m] as int) ==> #[trigger] post.kids(
                ids[m] as int,
            ) == pre.kids(ids[m] as int)
        &&& forall|m: int|
            0 <= m < ids.len() && pre.expandable(ids[m] as int) ==> #[trigger] post.kids(
                ids[m] as int,
            ) == Seq::new(
                pre.state(ids[m] as int).spec_num_children() as nat,
                |t: int| (Self::block_base(pre, ids, m) + t) as usize,
            )
        &&& forall|c: int| n0 <= c < post.spec_len() ==> #[trigger] post.kids(c).len() == 0
        &&& forall|m: int, t: int|
            0 <= m < ids.len() && pre.expandable(ids[m] as int) && 0 <= t < pre.state(
                ids[m] as int,
            ).spec_num_children() ==> #[trigger] Self::block_ok(pre, post, ids, m, t)
    }

    /// Expand each of the given distinct node ids one ply and return the ids
    /// of all newly created children, which are exactly the fresh tail of
    /// the arena.
    pub fn expand_and_get_children_idx(&mut self, idx_to_expand: &Vec<usize>) -> (r: Vec<usize>)
        requires
            old(self).wf(),
            forall|m: int|
                0 <= m < idx_to_expand@.len() ==> #[trigger] idx_to_expand@[m] < old(
                    self,
                ).spec_len(),
            forall|m1: int, m2: int|
                0 <= m1 < m2 < idx_to_expand@.len() ==> #[trigger] idx_to_expand@[m1]
                    != #[trigger] idx_to_expand@[m2],
        ensures
            final(self).wf(),
            Self::multi_expanded(*old(self), *final(self), idx_to_expand@),
            r@.len() == final(self).spec_len() - old(self).spec_len(),
            forall|t: int|
                0 <= t < r@.len() ==> #[trigger] r@[t] == old(self).spec_len() + t,
            final(self).spec_len() <= usize::MAX,
    {
        let ghost pre = *self;
        let ghost n0 = pre.spec_len();
        let ghost ids = idx_to_expand@;
        let arena_len = self.game_states.len();
        let mut expanded_children: Vec<usize> = Vec::new();

        let len = idx_to_expand.len();
        let mut j: usize = 0;
        while j < len
            invariant
                pre.wf(),
                self.wf(),
                n0 == pre.spec_len(),
                ids == idx_to_expand@,
                len == ids.len(),
                forall|m: int| 0 <= m < len ==> #[trigger] ids[m] < n0,
                forall|m1: int, m2: int|
                    0 <= m1 < m2 < len ==> #[trigger] ids[m1] != #[trigger] ids[m2],
                j <= len,
                self.spec_len() <= usize::MAX,
                self.spec_len() == n0 + Self::added_before(pre, ids, j as int),
                expanded_children@.len() == self.spec_len() - n0,
                forall|t: int|
                    0 <= t < expanded_children@.len() ==> #[trigger] expanded_children@[t] == n0
                        + t,
                forall|i: int| 0 <= i < n0 ==> #[trigger] self.state(i) == pre.state(i),
                forall|i: int| 0 <= i < n0 ==> #[trigger] self.val(i) == pre.val(i),
                forall|i: int| 0 <= i < n0 ==> #[trigger] self.par(i) == pre.par(i),
                forall|i: int|
                    0 <= i < n0 && !ids.contains(i as usize) ==> #[trigger] self.kids(i)
                        == pre.kids(i),
                forall|m: int|
                    j <= m < len ==> #[trigger] self.kids(ids[m] as int) == pre.kids(
                        ids[m] as int,
                    ),
                forall|m: int|
                    0 <= m < j && !pre.expandable(ids[m] as int) ==> #[trigger] self.kids(
                        ids[m] as int,
                    ) == pre.kids(ids[m] as int),
                forall|m: int|
                    0 <= m < j && pre.expandable(ids[m] as int) ==> #[trigger] self.kids(
                        ids[m] as int,
                    ) == Seq::new(
                        pre.state(ids[m] as int).spec_num_children() as nat,
                        |t: int| (Self::block_base(pre, ids, m) + t) as usize,
                    ),
                forall|c: int| n0 <= c < self.spec_len() ==> #[trigger] self.kids(c).len() == 0,
                forall|m: int, t: int|
                    0 <= m < j && pre.expandable(ids[m] as int) && 0 <= t < pre.state(
                        ids[m] as int,
                    ).spec_num_children() ==> #[trigger] Self::block_ok(pre, *self, ids, m, t),
                forall|m: int|
                    0 <= m < j && pre.expandable(ids[m] as int) ==> #[trigger] pre.state(
                        ids[m] as int,
                    ).spec_num_children() >= 0,
            decreases len - j,
        {
            let ghost cur = *self;
            let ghost ec0 = expanded_children@;
            let p = idx_to_expand[j];
            proof {
                assert(cur.expandable(p as int) == pre.expandable(p as int));
            }
            match self.expand_state(p) {
                Some(mut got) => {
                    let ghost gv = got@;
                    expanded_children.append(&mut got);
                    proof {
                        let k = cur.state(p as int).spec_num_children();
                        assert(gv == Seq::new(
                            k as nat,
                            |t: int| (cur.spec_len() + t) as usize,
                        ));
                        assert(expanded_children@ == ec0 + gv);
                        assert(Self::added_before(pre, ids, j as int + 1)
                            == Self::added_before(pre, ids, j as int) + k);
                        assert forall|t: int|
                            0 <= t < expanded_children@.len() implies #[trigger] expanded_children@[t]
                            == n0 + t by {
                            if t >= ec0.len() {
                                assert(expanded_children@[t] == gv[t - ec0.len()]);
                            }
                        }
                        assert forall|c: int|
                            n0 <= c < self.spec_len() implies #[trigger] self.kids(c).len()
                            == 0 by {
                            if c < cur.spec_len() {
                                assert(self.kids(c) == cur.kids(c));
                            } else {
                                assert(self.kids(cur.spec_len() + (c - cur.spec_len())).len()
                                    == 0);
                            }
                        }
                        assert forall|m: int, t: int|
                            0 <= m <= j && pre.expandable(ids[m] as int) && 0 <= t < pre.state(
                                ids[m] as int,
                            ).spec_num_children() implies #[trigger] Self::block_ok(
                            pre,
                            *self,
                            ids,
                            m,
                            t,
                        ) by {
                            let c = Self::block_base(pre, ids, m) + t;
                            if m < j {
                                assert(Self::block_ok(pre, cur, ids, m, t));
                                Self::lemma_added_before_mono(pre, ids, 0, m);
                                Self::lemma_added_before_mono(pre, ids, m + 1, j as int);
                                assert(0 <= c < cur.spec_len());
                                assert(self.par(c) == cur.par(c));
                                assert(self.state(c) == cur.state(c));
                                assert(self.val(c) == cur.val(c));
                            } else {
                                assert(c == cur.spec_len() + t);
                                assert(self.par(cur.spec_len() + t) == p as int);
                                assert(self.val(cur.spec_len() + t) == self.state(
                                    cur.spec_len() + t,
                                ).spec_position_value());
                            }
                        }
                    }
                },
                None => {
                    proof {
                        assert(Self::added_before(pre, ids, j as int + 1)
                            == Self::added_before(pre, ids, j as int));
                    }
                },
            }
            j = j + 1;
        }
        expanded_children
    }

    /// A fresh arena holding one root node with a provisional value of zero.
    pub fn new(init_state: T) -> (r: TreeEvaluator<T>)
        requires
            init_state.wf(),
        ensures
            r.wf(),
            r.spec_len() == 1,
            r.state(0) == init_state,
            r.val(0) == 0,
            r.kids(0).len() == 0,
    {
        let mut parent: Vec<usize> = Vec::new();
        parent.push(0);
        let mut children: Vec<Vec<usize>> = Vec::new();
        children.push(Vec::new());
        let mut game_states: Vec<T> = Vec::new();
        game_states.push(init_state);
        let mut worst_case_values: Vec<i32> = Vec::new();
        worst_case_values.push(0);
        TreeEvaluator { parent, children, game_states, worst_case_values }
    }

    /// A fresh arena rooted at the game's starting position.
    pub fn new_with_default() -> (r: TreeEvaluator<T>)
        ensures
            r.wf(),
            r.spec_len() == 1,
            T::spec_is_initial(r.state(0)),
            r.val(0) == 0,
            r.kids(0).len() == 0,
    {
        let init_state = T::initial();
        Self::new(init_state)
    }

    pub fn game_states(&self) -> (r: &Vec<T>)
        ensures
            r == &self.game_states,
    {
        &self.game_states
    }

    pub fn worst_case_values(&self) -> (r: &Vec<i32>)
        ensures
            r == &self.worst_case_values,
    {
        &self.worst_case_values
    }

    pub fn children(&self) -> (r: &Vec<Vec<usize>>)
        ensures
            r == &self.children,
    {
        &self.children
    }

    pub fn parents(&self) -> (r: &Vec<usize>)
        ensures
            r == &self.parent,
    {
        &self.parent
    }

    /// Expand one node: append one arena node per legal move of its state.
    /// Returns the fresh child ids, or nothing for a node that is terminal
    /// or already expanded (which is left untouched).
    fn expand_state(&mut self, idx: usize) -> (r: Option<Vec<usize>>)
        requires
            old(self).wf(),
            idx < old(self).spec_len(),
        ensures
            final(self).wf(),
            r is Some <==> old(self).expandable(idx as int),
            r is None ==> *final(self) == *old(self),
            r is Some ==> Self::expanded_from(*old(self), *final(self), idx as int),
            r is Some ==> r->Some_0@ == final(self).kids(idx as int),
            r is Some ==> old(self).state(idx as int).spec_num_children() >= 0,
            final(self).spec_len() <= usize::MAX,
    {
        let arena_len = self.game_states.len();
        proof {
            assert(self.spec_len() == arena_len as int);
        }
        let pos_value = self.worst_case_values[idx];
        if pos_value == X_WIN_VALUE || pos_value == -X_WIN_VALUE {
            return None;
        }
        if self.children[idx].len() > 0 {
            return None;
        }

        let ghost pre = *self;
        let ghost n0 = self.spec_len();

        proof {
            assert(self.state(idx as int).wf());
        }

        // Expand the game state to its child states.
        let mut child_states = self.game_states[idx].expand();
        let k = child_states.len();
        proof {
            assert forall|j: int| 0 <= j < k implies (#[trigger] child_states@[j]).wf() by {
                pre.state(idx as int).lemma_child_wf(j, child_states@[j]);
            }
        }

        // Cache the positional value of every child, so terminal children
        // are recorded the moment they enter the arena.
        let mut child_vals: Vec<i32> = Vec::new();
        let mut t: usize = 0;
        while t < k
            invariant
                t <= k,
                k == child_states@.len(),
                child_vals@.len() == t,
                forall|j: int| 0 <= j < k ==> (#[trigger] child_states@[j]).wf(),
                forall|j: int|
                    0 <= j < t ==> #[trigger] child_vals@[j] == child_states@[
                        j
                    ].spec_position_value(),
            decreases k - t,
        {
            child_vals.push(child_states[t].position_value());
            t = t + 1;
        }

        let mut new_parents: Vec<usize> = Vec::new();
        t = 0;
        while t < k
            invariant
                t <= k,
                new_parents@.len() == t,
                forall|j: int| 0 <= j < t ==> #[trigger] new_parents@[j] == idx,
            decreases k - t,
        {
            new_parents.push(idx);
            t = t + 1;
        }

        let mut new_children: Vec<Vec<usize>> = Vec::new();
        t = 0;
        while t < k
            invariant
                t <= k,
                new_children@.len() == t,
                forall|j: int| 0 <= j < t ==> #[trigger] new_children@[j]@.len() == 0,
            decreases k - t,
        {
            new_children.push(Vec::new());
            t = t + 1;
        }

        // Append the children to the four parallel containers.
        self.game_states.append(&mut child_states);

        let total = self.game_states.len();
        let base = total - k;
        let mut ids: Vec<usize> = Vec::new();
        t = 0;
        while t < k
            invariant
                t <= k,
                base + k == total,
                total <= usize::MAX,
                ids@.len() == t,
                forall|j: int| 0 <= j < t ==> #[trigger] ids@[j] == base + j,
            decreases k - t,
        {
            ids.push(base + t);
            t = t + 1;
        }

        self.worst_case_values.append(&mut child_vals);
        self.parent.append(&mut new_parents);
        self.children.append(&mut new_children);

        // Record the fresh child block as the children of `idx`.
        let block = copy_ids(&ids);
        self.children.set(idx, block);

        proof {
            let post = *self;
            assert(post.kids(idx as int) =~= Seq::new(
                pre.state(idx as int).spec_num_children() as nat,
                |t: int| (n0 + t) as usize,
            ));
            assert(Self::expanded_from(pre, post, idx as int));
            assert(ids@ =~= post.kids(idx as int));
            assert forall|p: int, k2: int|
                0 <= p < post.spec_len() && 0 <= k2 < post.kids(p).len() implies #[trigger] post
                .kid_ok(p, k2) by {
                if p < n0 && p != idx {
                    assert(pre.kid_ok(p, k2));
                }
            }
            assert forall|i: int| 0 < i < post.spec_len() implies #[trigger] post.kids(
                post.par(i),
            ).contains(i as usize) by {
                if i < n0 {
                    assert(pre.kids(pre.par(i)).contains(i as usize));
                    let ghost kk = choose|kk: int|
                        0 <= kk < pre.kids(pre.par(i)).len() && pre.kids(pre.par(i))[kk] == i;
                    assert(post.kids(post.par(i))[kk] == i as usize);
                } else {
                    assert(post.par(i) == idx);
                    assert(post.kids(idx as int)[i - n0] == i as usize);
                }
            }
            assert(post.wf());
        }
        Some(ids)
    }
}

impl<T: GameState> TreeEvaluator<T> {
    /// Relates an arena to any arena grown out of it by expansions: existing
    /// nodes keep their state, value and parent, and only nodes without
    /// children can have gained any.
    pub open spec fn grown(pre: Self, post: Self) -> bool {
        let n0 = pre.spec_len();
        &&& n0 <= post.spec_len()
        &&& forall|i: int| 0 <= i < n0 ==> #[trigger] post.state(i) == pre.state(i)
        &&& forall|i: int| 0 <= i < n0 ==> #[trigger] post.val(i) == pre.val(i)
        &&& forall|i: int| 0 <= i < n0 ==> #[trigger] post.par(i) == pre.par(i)
        &&& forall|i: int|
            0 <= i < n0 ==> #[trigger] post.kids(i) == pre.kids(i) || pre.kids(i).len() == 0
    }

    /// Expanding a set of distinct nodes only grows the arena.
    pub proof fn lemma_multi_grown(pre: Self, post: Self, ids: Seq<usize>)
        requires
            pre.wf(),
            forall|m: int| 0 <= m < ids.len() ==> ((#[trigger] ids[m]) as int) < pre.spec_len(),
            Self::multi_expanded(pre, post, ids),
            pre.spec_len() <= post.spec_len(),
        ensures
            Self::grown(pre, post),
    {
        assert forall|i: int|
            0 <= i < pre.spec_len() implies #[trigger] post.kids(i) == pre.kids(i) || pre.kids(
            i,
        ).len() == 0 by {
            if ids.contains(i as usize) {
                assert(exists|m: int| 0 <= m < ids.len() && ids[m] == i as usize);
                let m = choose|m: int| 0 <= m < ids.len() && ids[m] == i as usize;
                assert(ids[m] as int == i);
                if pre.expandable(i) {
                    assert(pre.kids(i).len() == 0);
                } else {
                    assert(post.kids(ids[m] as int) == pre.kids(ids[m] as int));
                }
            } else {
                assert(post.kids(i) == pre.kids(i));
            }
        }
    }

    /// No node carrying a win sentinel has children: terminal nodes are
    /// appended to the arena (their existence and value recorded) but never
    /// themselves expanded.
    pub open spec fn terminal_nodes_unexpanded(self) -> bool {
        forall|i: int|
            0 <= i < self.spec_len() && ((#[trigger] self.val(i)) == X_WIN_VALUE || self.val(i)
                == (-X_WIN_VALUE) as i32) ==> self.kids(i).len() == 0
    }

    /// Expansion steps keep terminal nodes childless: only nodes without a
    /// win sentinel are ever expanded, and fresh nodes start childless.
    pub proof fn lemma_multi_preserves_terminal(pre: Self, post: Self, ids: Seq<usize>)
        requires
            pre.wf(),
            forall|m: int| 0 <= m < ids.len() ==> ((#[trigger] ids[m]) as int) < pre.spec_len(),
            Self::multi_expanded(pre, post, ids),
            pre.terminal_nodes_unexpanded(),
        ensures
            post.terminal_nodes_unexpanded(),
    {
        assert forall|i: int|
            0 <= i < post.spec_len() && ((#[trigger] post.val(i)) == X_WIN_VALUE || post.val(i)
                == (-X_WIN_VALUE) as i32) implies post.kids(i).len() == 0 by {
            if i < pre.spec_len() {
                assert(post.val(i) == pre.val(i));
                assert(pre.kids(i).len() == 0);
                if ids.contains(i as usize) {
                    let m = choose|m: int| 0 <= m < ids.len() && ids[m] == i as usize;
                    assert(ids[m] as int == i);
                    assert(!pre.expandable(ids[m] as int));
                    assert(post.kids(ids[m] as int) == pre.kids(ids[m] as int));
                } else {
                    assert(post.kids(i) == pre.kids(i));
                }
            }
        }
    }

    /// The ids of `[lo, hi)` whose cached value is no win sentinel, in
    /// increasing order: the nodes of that range that may still be expanded.
    pub open spec fn nonterminal_ids(self, lo: int, hi: int) -> Seq<usize>
        decreases hi - lo,
    {
        if lo >= hi {
            Seq::empty()
        } else if self.val(lo) != X_WIN_VALUE && self.val(lo) != (-X_WIN_VALUE) as i32 {
            seq![lo as usize] + self.nonterminal_ids(lo + 1, hi)
        } else {
            self.nonterminal_ids(lo + 1, hi)
        }
    }

    /// Extending the range on the right appends the new id exactly when it
    /// is non-terminal.
    proof fn lemma_nonterminal_snoc(self, lo: int, hi: int)
        requires
            lo <= hi,
        ensures
            self.nonterminal_ids(lo, hi + 1) == self.nonterminal_ids(lo, hi) + (if self.val(hi)
                != X_WIN_VALUE && self.val(hi) != (-X_WIN_VALUE) as i32 {
                seq![hi as usize]
            } else {
                Seq::<usize>::empty()
            }),
        decreases hi - lo,
    {
        let tail = if self.val(hi) != X_WIN_VALUE && self.val(hi) != (-X_WIN_VALUE) as i32 {
            seq![hi as usize]
        } else {
            Seq::<usize>::empty()
        };
        if lo == hi {
            assert(self.nonterminal_ids(lo, hi) =~= Seq::<usize>::empty());
            assert(self.nonterminal_ids(hi + 1, hi + 1) =~= Seq::<usize>::empty());
            if self.val(hi) != X_WIN_VALUE && self.val(hi) != (-X_WIN_VALUE) as i32 {
                assert(self.nonterminal_ids(lo, hi + 1) == seq![hi as usize]
                    + self.nonterminal_ids(hi + 1, hi + 1));
                assert(seq![hi as usize] + Seq::<usize>::empty() =~= seq![hi as usize]);
            }
            assert(self.nonterminal_ids(lo, hi + 1) =~= tail);
            assert(self.nonterminal_ids(lo, hi) + tail =~= tail);
        } else {
            self.lemma_nonterminal_snoc(lo + 1, hi);
            if self.val(lo) != X_WIN_VALUE && self.val(lo) != (-X_WIN_VALUE) as i32 {
                assert(self.nonterminal_ids(lo, hi + 1) == seq![lo as usize]
                    + self.nonterminal_ids(lo + 1, hi + 1));
                assert(seq![lo as usize] + (self.nonterminal_ids(lo + 1, hi) + tail)
                    =~= (seq![lo as usize] + self.nonterminal_ids(lo + 1, hi)) + tail);
            }
        }
    }

    /// Every listed id lies in the range, carries no win sentinel, and the
    /// listing repeats nothing.
    proof fn lemma_nonterminal_props(self, lo: int, hi: int)
        requires
            0 <= lo,
            hi <= usize::MAX,
        ensures
            forall|k: int|
                0 <= k < self.nonterminal_ids(lo, hi).len() ==> {
                    &&& lo <= ((#[trigger] self.nonterminal_ids(lo, hi)[k]) as int)
                    &&& ((self.nonterminal_ids(lo, hi)[k]) as int) < hi
                    &&& self.val(self.nonterminal_ids(lo, hi)[k] as int) != X_WIN_VALUE
                    &&& self.val(self.nonterminal_ids(lo, hi)[k] as int) != (-X_WIN_VALUE) as i32
                },
            self.nonterminal_ids(lo, hi).no_duplicates(),
        decreases hi - lo,
    {
        if lo < hi {
            self.lemma_nonterminal_props(lo + 1, hi);
            let rest = self.nonterminal_ids(lo + 1, hi);
            let whole = self.nonterminal_ids(lo, hi);
            if self.val(lo) != X_WIN_VALUE && self.val(lo) != (-X_WIN_VALUE) as i32 {
                assert(whole == seq![lo as usize] + rest);
                assert(whole[0] == lo as usize);
                assert forall|k: int| 0 <= k < whole.len() implies {
                    &&& lo <= ((#[trigger] whole[k]) as int)
                    &&& ((whole[k]) as int) < hi
                    &&& self.val(whole[k] as int) != X_WIN_VALUE
                    &&& self.val(whole[k] as int) != (-X_WIN_VALUE) as i32
                } by {
                    if k > 0 {
                        assert(whole[k] == rest[k - 1]);
                    }
                }
                assert forall|k1: int, k2: int|
                    0 <= k1 < k2 < whole.len() implies whole[k1] != whole[k2] by {
                    if k1 == 0 {
                        assert(whole[k2] == rest[k2 - 1]);
                        assert(lo + 1 <= rest[k2 - 1] as int);
                    } else {
                        assert(whole[k1] == rest[k1 - 1] && whole[k2] == rest[k2 - 1]);
                    }
                }
                assert(whole.no_duplicates());
            } else {
                assert(whole == rest);
            }
        }
    }

    /// One chain of arenas and frontiers witnessing a level-by-level
    /// expansion: the first frontier is the start node alone, each step
    /// expands the whole current frontier one ply, and the children created
    /// for one level are exactly the next level's frontier.
    pub open spec fn levels_witness(
        chain: Seq<Self>,
        fronts: Seq<Seq<usize>>,
        pre: Self,
        post: Self,
        start: usize,
        num_levels: int,
    ) -> bool {
        &&& chain.len() == num_levels + 1
        &&& fronts.len() == num_levels + 1
        &&& chain[0] == pre
        &&& chain[num_levels] == post
        &&& fronts[0] == seq![start]
        &&& forall|j: int|
            0 <= j < num_levels ==> Self::multi_expanded(#[trigger] chain[j], chain[j + 1], fronts[j])
        &&& forall|j: int|
            0 <= j < num_levels ==> #[trigger] fronts[j + 1] == Seq::new(
                (chain[j + 1].spec_len() - chain[j].spec_len()) as nat,
                |t: int| (chain[j].spec_len() + t) as usize,
            )
    }

    /// `post` arises from `pre` by `num_levels` full plies of breadth-first
    /// expansion starting at `start`: each level's frontier is expanded
    /// exactly per [`Self::multi_expanded`], and its fresh children form the
    /// next frontier.
    pub open spec fn levels_expanded(pre: Self, post: Self, start: usize, num_levels: int) -> bool {
        exists|chain: Seq<Self>, fronts: Seq<Seq<usize>>|
            #[trigger] Self::levels_witness(chain, fronts, pre, post, start, num_levels)
    }

    /// Expand the subtree under `start_idx` breadth-first, one full level at
    /// a time, for `num_levels` plies: every node of one level is expanded
    /// per [`Self::multi_expanded`] before the next level begins, so every
    /// non-terminal, not-yet-expanded node reached in fewer than
    /// `num_levels` plies receives its full set of children, and terminal
    /// nodes stay childless.
    pub fn expand_states_by(&mut self, start_idx: usize, num_levels: u32)
        requires
            old(self).wf(),
            start_idx < old(self).spec_len(),
        ensures
            final(self).wf(),
            Self::grown(*old(self), *final(self)),
            Self::levels_expanded(*old(self), *final(self), start_idx, num_levels as int),
            old(self).terminal_nodes_unexpanded() ==> final(self).terminal_nodes_unexpanded(),
            num_levels == 0 ==> *final(self) == *old(self),
    {
        if num_levels == 0 {
            proof {
                assert(Self::levels_witness(
                    seq![*self],
                    seq![seq![start_idx]],
                    *self,
                    *self,
                    start_idx,
                    0,
                ));
            }
            return;
        }
        let ghost pre = *self;
        let arena_len = self.game_states.len();
        let mut expand_now: Vec<usize> = Vec::new();
        expand_now.push(start_idx);
        let ghost mut chain: Seq<TreeEvaluator<T>> = seq![pre];
        let ghost mut fronts: Seq<Seq<usize>> = seq![expand_now@];
        proof {
            assert(expand_now@ =~= seq![start_idx]);
        }

        let mut level: u32 = 0;
        while level < num_levels
            invariant
                pre.wf(),
                self.wf(),
                Self::grown(pre, *self),
                pre.spec_len() <= usize::MAX,
                self.spec_len() <= usize::MAX,
                level <= num_levels,
                forall|m: int|
                    0 <= m < expand_now@.len() ==> #[trigger] expand_now@[m] < self.spec_len(),
                forall|m1: int, m2: int|
                    0 <= m1 < m2 < expand_now@.len() ==> #[trigger] expand_now@[m1]
                        != #[trigger] expand_now@[m2],
                chain.len() == level + 1,
                fronts.len() == level + 1,
                chain[0] == pre,
                fronts[0] == seq![start_idx],
                chain[level as int] == *self,
                fronts[level as int] == expand_now@,
                forall|j: int|
                    0 <= j < level ==> Self::multi_expanded(
                        #[trigger] chain[j],
                        chain[j + 1],
                        fronts[j],
                    ),
                forall|j: int|
                    0 <= j < level ==> #[trigger] fronts[j + 1] == Seq::new(
                        (chain[j + 1].spec_len() - chain[j].spec_len()) as nat,
                        |t: int| (chain[j].spec_len() + t) as usize,
                    ),
                pre.terminal_nodes_unexpanded() ==> self.terminal_nodes_unexpanded(),
            decreases num_levels - level,
        {
            let ghost cur = *self;
            let next = self.expand_and_get_children_idx(&expand_now);
            proof {
                Self::lemma_multi_grown(cur, *self, expand_now@);
                if pre.terminal_nodes_unexpanded() {
                    Self::lemma_multi_preserves_terminal(cur, *self, expand_now@);
                }
                // Composing two growth steps stays a growth step: a node
                // whose children changed in either had none beforehand.
                assert forall|i: int|
                    0 <= i < pre.spec_len() implies #[trigger] self.kids(i) == pre.kids(i)
                    || pre.kids(i).len() == 0 by {
                    if self.kids(i) != cur.kids(i) {
                        assert(cur.kids(i).len() == 0);
                        assert(cur.kids(i) == pre.kids(i) || pre.kids(i).len() == 0);
                    }
                }
                chain = chain.push(*self);
                fronts = fronts.push(next@);
                assert(next@ =~= Seq::new(
                    (self.spec_len() - cur.spec_len()) as nat,
                    |t: int| (cur.spec_len() + t) as usize,
                ));
                assert(chain[level as int + 1] == *self);
                assert(fronts[level as int + 1] == next@);
                assert forall|j: int|
                    0 <= j < level + 1 implies Self::multi_expanded(
                    #[trigger] chain[j],
                    chain[j + 1],
                    fronts[j],
                ) by {
                    if j < level {
                        assert(chain[j] == chain.drop_last()[j]);
                    }
                }
            }
            expand_now = next;
            level = level + 1;
        }
        proof {
            assert(Self::levels_witness(
                chain,
                fronts,
                pre,
                *self,
                start_idx,
                num_levels as int,
            ));
        }
    }
}

/// The extremal choice of backward induction: after a move by X the
/// opponent O is to move and picks the minimum; after a move by O the
/// player X picks the maximum.
pub open spec fn extreme(side: Cell, a: i32, b: i32) -> i32 {
    match side {
        Cell::X => if b < a {
            b
        } else {
            a
        },
        Cell::O => if b > a {
            b
        } else {
            a
        },
        Cell::Empty => a,
    }
}

impl<T: GameState> TreeEvaluator<T> {
    /// Whether node `i` lies in the subtree rooted at `start`: following
    /// parent links from `i` reaches `start`.
    pub open spec fn is_desc(self, start: int, i: int) -> bool
        decreases i,
    {
        if i == start {
            true
        } else if 0 < i < self.spec_len() && 0 <= self.par(i) < i {
            self.is_desc(start, self.par(i))
        } else {
            false
        }
    }

    /// The backward-induction value of node `i`, over the cached values as
    /// they stand: a node that carries a win sentinel, has no children yet,
    /// or (degenerately) no side to move keeps its cached value; any other
    /// node takes the extremum of its children's values for the side to
    /// move.
    pub open spec fn node_value(self, i: int) -> i32
        decreases self.spec_len() - i, 1int, 0int,
    {
        if !(0 <= i < self.spec_len() && self.spec_len() == self.worst_case_values@.len()
            && self.spec_len() == self.children@.len()) {
            0
        } else if self.val(i) == X_WIN_VALUE || self.val(i) == (-X_WIN_VALUE) as i32 {
            self.val(i)
        } else if self.kids(i).len() == 0 {
            self.val(i)
        } else if self.state(i).spec_side() == Cell::Empty {
            self.val(i)
        } else if !(i < self.kids(i)[0] < self.spec_len()) {
            self.val(i)
        } else {
            self.fold_kids(i, 1, self.node_value(self.kids(i)[0] as int))
        }
    }

    /// Left fold of [`extreme`] over the values of the children of `i`
    /// from position `k` on, starting from `acc`.
    pub open spec fn fold_kids(self, i: int, k: int, acc: i32) -> i32
        decreases self.spec_len() - i, 0int, self.kids(i).len() - k,
    {
        if !(0 <= i < self.spec_len() && self.spec_len() == self.worst_case_values@.len()
            && self.spec_len() == self.children@.len()) {
            acc
        } else if !(0 <= k < self.kids(i).len()) {
            acc
        } else if !(i < self.kids(i)[k] < self.spec_len()) {
            acc
        } else {
            self.fold_kids(
                i,
                k + 1,
                extreme(self.state(i).spec_side(), acc, self.node_value(self.kids(i)[k] as int)),
            )
        }
    }

    /// Descendants never precede the subtree root in the arena.
    pub proof fn lemma_desc_ge(self, start: int, i: int)
        requires
            self.wf(),
            self.is_desc(start, i),
        ensures
            start <= i,
        decreases i,
    {
        if i != start {
            self.lemma_desc_ge(start, self.par(i));
        }
    }

    /// A descendant is a valid node whenever the subtree root is one.
    pub proof fn lemma_desc_bounds(self, start: int, i: int)
        requires
            self.wf(),
            0 <= start < self.spec_len(),
            self.is_desc(start, i),
        ensures
            0 <= i < self.spec_len(),
    {
    }

    /// Children of descendants are descendants.
    pub proof fn lemma_desc_child(self, start: int, p: int, k: int)
        requires
            self.wf(),
            0 <= start,
            0 <= p < self.spec_len(),
            self.is_desc(start, p),
            0 <= k < self.kids(p).len(),
        ensures
            self.is_desc(start, self.kids(p)[k] as int),
    {
        let c = self.kids(p)[k] as int;
        assert(self.kid_ok(p, k));
        self.lemma_desc_ge(start, p);
        assert(c != start);
        assert(self.par(c) == p);
    }

    /// A proper descendant of `x` lies below one of `x`'s children.
    pub proof fn lemma_desc_decompose(self, x: int, d: int)
        requires
            self.wf(),
            0 <= x < self.spec_len(),
            self.is_desc(x, d),
            d != x,
        ensures
            exists|k: int|
                0 <= k < self.kids(x).len() && self.is_desc((#[trigger] self.kids(x)[k]) as int, d),
        decreases d,
    {
        let p = self.par(d);
        if p == x {
            assert(self.kids(x).contains(d as usize));
            let k = choose|k: int| 0 <= k < self.kids(x).len() && self.kids(x)[k] == d as usize;
            assert(self.is_desc(self.kids(x)[k] as int, d));
        } else {
            self.lemma_desc_decompose(x, p);
            let k = choose|k: int|
                0 <= k < self.kids(x).len() && self.is_desc((#[trigger] self.kids(x)[k]) as int, p);
            assert(self.is_desc(self.kids(x)[k] as int, d));
        }
    }
}

/// A distinct sequence of indices below `n` holds at most `n` entries.
proof fn lemma_distinct_bounded(s: Seq<usize>, n: int)
    requires
        0 <= n,
        s.no_duplicates(),
        forall|i: int| 0 <= i < s.len() ==> (#[trigger] s[i]) < n,
    ensures
        s.len() <= n,
{
    let f = |x: usize| x as int;
    let si = s.map_values(f);
    s.lemma_no_duplicates_injective(f);
    si.unique_seq_to_set();
    vstd::set_lib::lemma_int_range(0, n);
    assert(si.to_set().subset_of(vstd::set_lib::set_int_range(0, n))) by {
        assert forall|x: int| si.to_set().contains(x) implies vstd::set_lib::set_int_range(
            0,
            n,
        ).contains(x) by {
            let i = choose|i: int| 0 <= i < si.len() && si[i] == x;
            assert(s[i] < n);
        }
    }
    vstd::set_lib::lemma_len_subset(si.to_set(), vstd::set_lib::set_int_range(0, n));
}

/// Breadth-first traversal over the arena: node ids come out level by
/// level, each node's children entering the queue as the node leaves it.
pub struct BfsIterator<'a, T> {
    pub tree_eval: &'a TreeEvaluator<T>,
    pub buffer: VecDeque<usize>,
}

impl<'a, T: GameState> BfsIterator<'a, T> {
    /// Every queued id points into the arena.
    pub open spec fn wf(self) -> bool {
        &&& self.tree_eval.wf()
        &&& forall|i: int|
            0 <= i < self.buffer@.len() ==> (#[trigger] self.buffer@[i]) < self.tree_eval.spec_len()
    }

    /// The next node id in breadth-first order: the queue's front leaves and
    /// its children join at the back.
    pub fn next(&mut self) -> (r: Option<usize>)
        requires
            old(self).wf(),
        ensures
            final(self).wf(),
            final(self).tree_eval == old(self).tree_eval,
            old(self).buffer@.len() == 0 ==> r is None && final(self).buffer@ == old(
                self,
            ).buffer@,
            old(self).buffer@.len() > 0 ==> {
                &&& r == Some(old(self).buffer@[0])
                &&& final(self).buffer@ == old(self).buffer@.drop_first()
                    + old(self).tree_eval.kids(old(self).buffer@[0] as int)
            },
    {
        match self.buffer.pop_front() {
            Some(idx) => {
                let kids = &self.tree_eval.children[idx];
                let klen = kids.len();
                let mut k: usize = 0;
                while k < klen
                    invariant
                        old(self).wf(),
                        self.tree_eval == old(self).tree_eval,
                        idx == old(self).buffer@[0],
                        idx < self.tree_eval.spec_len(),
                        0 < old(self).buffer@.len(),
                        klen == self.tree_eval.kids(idx as int).len(),
                        k <= klen,
                        self.buffer@ == old(self).buffer@.drop_first()
                            + self.tree_eval.kids(idx as int).take(k as int),
                    decreases klen - k,
                {
                    let c = self.tree_eval.children[idx][k];
                    self.buffer.push_back(c);
                    proof {
                        assert(self.buffer@ =~= old(self).buffer@.drop_first()
                            + self.tree_eval.kids(idx as int).take(k as int + 1));
                    }
                    k = k + 1;
                }
                proof {
                    assert(self.tree_eval.kids(idx as int).take(klen as int) =~= self
                        .tree_eval
                        .kids(idx as int));
                    assert forall|i: int|
                        0 <= i < self.buffer@.len() implies (#[trigger] self.buffer@[i])
                        < self.tree_eval.spec_len() by {
                        if i >= old(self).buffer@.len() - 1 {
                            let kk = i - (old(self).buffer@.len() - 1);
                            assert(self.tree_eval.kid_ok(idx as int, kk));
                        }
                    }
                }
                Some(idx)
            },
            None => None,
        }
    }
}

impl<T: GameState> TreeEvaluator<T> {
    /// Position `q` of a traversal output lists the subtree root or a node
    /// whose parent was output earlier.
    pub open spec fn parent_before(self, start: int, o: Seq<usize>, q: int) -> bool {
        (o[q]) as int == start || exists|q2: int|
            0 <= q2 < q && o[q2] as int == self.par(o[q] as int)
    }

    /// Some queued node other than `d` still leads down to `d`.
    pub open spec fn covered(self, b: Seq<usize>, d: int) -> bool {
        exists|q: int|
            0 <= q < b.len() && (#[trigger] b[q]) as int != d && self.is_desc(b[q] as int, d)
    }

    /// Invariant of the breadth-first traversal: `o` is the output so far
    /// and `b` the queue. Both hold only subtree nodes, without repetition;
    /// a node's parent is output before it; every child of an output node
    /// is output or queued; and every unseen subtree node is still
    /// reachable from a queued node.
    pub open spec fn bfs_inv(self, start: int, o: Seq<usize>, b: Seq<usize>) -> bool {
        &&& o.no_duplicates()
        &&& b.no_duplicates()
        &&& forall|q: int| 0 <= q < o.len() ==> !b.contains(#[trigger] o[q])
        &&& forall|q: int| 0 <= q < o.len() ==> self.is_desc(start, (#[trigger] o[q]) as int)
        &&& forall|q: int| 0 <= q < b.len() ==> self.is_desc(start, (#[trigger] b[q]) as int)
        &&& forall|q: int| 0 <= q < o.len() ==> #[trigger] self.parent_before(start, o, q)
        &&& forall|q: int, k: int|
            0 <= q < o.len() && 0 <= k < self.kids(o[q] as int).len() ==> o.contains(
                #[trigger] self.kids(o[q] as int)[k],
            ) || b.contains(self.kids(o[q] as int)[k])
        &&& forall|q: int|
            0 <= q < b.len() ==> ((#[trigger] b[q]) as int == start || exists|q2: int|
                0 <= q2 < o.len() && o[q2] as int == self.par(b[q] as int))
        &&& forall|d: int|
            #![trigger self.is_desc(start, d)]
            self.is_desc(start, d) && !o.contains(d as usize) && !b.contains(d as usize)
                ==> self.covered(b, d)
    }

    /// One breadth-first step keeps the invariant: the queue's front moves
    /// to the output and its children join the queue.
    #[verifier::rlimit(100)]
    proof fn lemma_bfs_step(self, start: int, o: Seq<usize>, b: Seq<usize>)
        requires
            self.wf(),
            0 <= start < self.spec_len(),
            self.bfs_inv(start, o, b),
            b.len() > 0,
        ensures
            self.bfs_inv(start, o.push(b[0]), b.drop_first() + self.kids(b[0] as int)),
    {
        let x = b[0];
        let xi = x as int;
        let kx = self.kids(xi);
        let o1 = o.push(x);
        let b1 = b.drop_first() + kx;
        let blen = b.len() - 1;
        self.lemma_desc_bounds(start, xi);
        self.lemma_desc_ge(start, xi);

        assert(!o.contains(x)) by {
            if o.contains(x) {
                let q = choose|q: int| 0 <= q < o.len() && o[q] == x;
                assert(!b.contains(o[q]));
            }
        }

        // The children of `x` are descendants and have never been seen.
        assert forall|k: int| 0 <= k < kx.len() implies {
            &&& self.is_desc(start, (#[trigger] kx[k]) as int)
            &&& self.kid_ok(xi, k)
            &&& !o.contains(kx[k])
            &&& !b.contains(kx[k])
        } by {
            self.lemma_desc_child(start, xi, k);
            assert(self.kid_ok(xi, k));
            let c = kx[k];
            assert(self.par(c as int) == xi);
            assert(c as int > xi >= start);
            if o.contains(c) {
                let q = choose|q: int| 0 <= q < o.len() && o[q] == c;
                assert(o[q] as int != start);
                assert(self.parent_before(start, o, q));
                let q2 = choose|q2: int| 0 <= q2 < q && o[q2] as int == self.par(o[q] as int);
                assert(o[q2] == x);
                assert(!b.contains(o[q2]));
                assert(false);
            }
            if b.contains(c) {
                let q = choose|q: int| 0 <= q < b.len() && b[q] == c;
                assert(b[q] as int != start);
                let q2 = choose|q2: int|
                    0 <= q2 < o.len() && o[q2] as int == self.par(b[q] as int);
                assert(o[q2] == x);
                assert(!b.contains(o[q2]));
                assert(false);
            }
        }

        assert forall|k1: int, k2: int| 0 <= k1 < k2 < kx.len() implies #[trigger] kx[k1]
            != #[trigger] kx[k2] by {
            assert(kx[k1] < kx[k2]);
        }

        assert(b1.no_duplicates()) by {
            assert forall|q1: int, q2: int| 0 <= q1 < q2 < b1.len() implies b1[q1] != b1[q2] by {
                if q2 < blen {
                    assert(b1[q1] == b[q1 + 1] && b1[q2] == b[q2 + 1]);
                } else if q1 < blen {
                    assert(b1[q1] == b[q1 + 1] && b1[q2] == kx[q2 - blen]);
                    assert(b.contains(b[q1 + 1]));
                } else {
                    assert(b1[q1] == kx[q1 - blen] && b1[q2] == kx[q2 - blen]);
                }
            }
        }

        assert(o1.no_duplicates());

        assert forall|q: int| 0 <= q < o1.len() implies !b1.contains(#[trigger] o1[q]) by {
            if b1.contains(o1[q]) {
                let qq = choose|qq: int| 0 <= qq < b1.len() && b1[qq] == o1[q];
                if qq < blen {
                    assert(b1[qq] == b[qq + 1]);
                    if q < o.len() {
                        assert(!b.contains(o[q]));
                        assert(b.contains(b[qq + 1]));
                    } else {
                        // x would appear twice in `b`
                        assert(b[qq + 1] == x && b[0] == x);
                    }
                } else {
                    assert(b1[qq] == kx[qq - blen]);
                    if q < o.len() {
                        assert(!o.contains(kx[qq - blen]));
                        assert(o.contains(o[q]));
                    } else {
                        assert(self.kid_ok(xi, qq - blen));
                    }
                }
            }
        }

        assert forall|q: int| 0 <= q < b1.len() implies self.is_desc(
            start,
            (#[trigger] b1[q]) as int,
        ) by {
            if q < blen {
                assert(b1[q] == b[q + 1]);
            } else {
                assert(b1[q] == kx[q - blen]);
            }
        }

        assert forall|q: int| 0 <= q < o1.len() implies #[trigger] self.parent_before(
            start,
            o1,
            q,
        ) by {
            if q < o.len() {
                assert(o1[q] == o[q]);
                assert(self.parent_before(start, o, q));
                if o[q] as int != start {
                    let q2 = choose|q2: int| 0 <= q2 < q && o[q2] as int == self.par(o[q] as int);
                    assert(o1[q2] as int == self.par(o1[q] as int));
                }
            } else {
                if xi != start {
                    let q2 = choose|q2: int|
                        0 <= q2 < o.len() && o[q2] as int == self.par(b[0] as int);
                    assert(o1[q2] as int == self.par(o1[q] as int));
                }
            }
        }

        assert forall|q: int, k: int|
            0 <= q < o1.len() && 0 <= k < self.kids(o1[q] as int).len() implies o1.contains(
            #[trigger] self.kids(o1[q] as int)[k],
        ) || b1.contains(self.kids(o1[q] as int)[k]) by {
            let v = self.kids(o1[q] as int)[k];
            if q < o.len() {
                assert(o1[q] == o[q]);
                if o.contains(v) {
                    let qq = choose|qq: int| 0 <= qq < o.len() && o[qq] == v;
                    assert(o1[qq] == v);
                } else {
                    assert(b.contains(v));
                    let qq = choose|qq: int| 0 <= qq < b.len() && b[qq] == v;
                    if qq == 0 {
                        assert(o1[o.len() as int] == v);
                    } else {
                        assert(b1[qq - 1] == v);
                    }
                }
            } else {
                assert(o1[q] == x);
                assert(b1[blen + k] == kx[k]);
            }
        }

        assert forall|q: int|
            0 <= q < b1.len() implies ((#[trigger] b1[q]) as int == start || exists|q2: int|
            0 <= q2 < o1.len() && o1[q2] as int == self.par(b1[q] as int)) by {
            if q < blen {
                assert(b1[q] == b[q + 1]);
                if b[q + 1] as int != start {
                    let q2 = choose|q2: int|
                        0 <= q2 < o.len() && o[q2] as int == self.par(b[q + 1] as int);
                    assert(o1[q2] as int == self.par(b1[q] as int));
                }
            } else {
                assert(b1[q] == kx[q - blen]);
                assert(self.kid_ok(xi, q - blen));
                assert(o1[o.len() as int] as int == self.par(b1[q] as int));
            }
        }

        assert forall|d: int|
            self.is_desc(start, d) && !o1.contains(d as usize) && !b1.contains(d as usize)
                implies self.covered(b1, d) by {
            self.lemma_desc_bounds(start, d);
            assert(o1[o.len() as int] == x);
            assert(!o.contains(d as usize)) by {
                if o.contains(d as usize) {
                    let q = choose|q: int| 0 <= q < o.len() && o[q] == d as usize;
                    assert(o1[q] == d as usize);
                }
            }
            assert(!b.contains(d as usize)) by {
                if b.contains(d as usize) {
                    let q = choose|q: int| 0 <= q < b.len() && b[q] == d as usize;
                    if q == 0 {
                        assert(o1.contains(d as usize));
                    } else {
                        assert(b1[q - 1] == b[q]);
                        assert(b1.contains(d as usize));
                    }
                }
            }
            assert(self.covered(b, d));
            let a = choose|q: int|
                0 <= q < b.len() && (#[trigger] b[q]) as int != d && self.is_desc(b[q] as int, d);
            if b[a] == x {
                self.lemma_desc_decompose(xi, d);
                let k = choose|k: int|
                    0 <= k < self.kids(xi).len() && self.is_desc(
                        (#[trigger] self.kids(xi)[k]) as int,
                        d,
                    );
                assert(b1[blen + k] == kx[k]);
                assert(kx[k] as int != d) by {
                    if kx[k] as int == d {
                        assert(b1.contains(d as usize));
                    }
                }
                assert(self.covered(b1, d));
            } else {
                let qq = choose|qq: int| 0 <= qq < b.len() && b[qq] == b[a];
                assert(a != 0);
                assert(b1[a - 1] == b[a]);
                assert(self.covered(b1, d));
            }
        }
    }

    /// An empty queue means the whole subtree has been output, children
    /// included.
    proof fn lemma_bfs_done(self, start: int, o: Seq<usize>)
        requires
            self.wf(),
            0 <= start < self.spec_len(),
            self.bfs_inv(start, o, Seq::empty()),
        ensures
            forall|d: int| self.is_desc(start, d) ==> o.contains(d as usize),
            forall|q: int, k: int|
                0 <= q < o.len() && 0 <= k < self.kids(o[q] as int).len() ==> o.contains(
                    #[trigger] self.kids(o[q] as int)[k],
                ),
    {
        let b = Seq::<usize>::empty();
        assert forall|d: int| self.is_desc(start, d) implies o.contains(d as usize) by {
            self.lemma_desc_bounds(start, d);
            if !o.contains(d as usize) {
                assert(!b.contains(d as usize));
                assert(self.covered(b, d));
                let q = choose|q: int|
                    0 <= q < b.len() && (#[trigger] b[q]) as int != d && self.is_desc(
                        b[q] as int,
                        d,
                    );
                assert(false);
            }
        }
        assert forall|q: int, k: int|
            0 <= q < o.len() && 0 <= k < self.kids(o[q] as int).len() implies o.contains(
            #[trigger] self.kids(o[q] as int)[k],
        ) by {
            assert(!b.contains(self.kids(o[q] as int)[k]));
        }
    }

    /// The ids of the subtree under `stop_idx`, in breadth-first order:
    /// without repetition, complete, each node's parent listed before it.
    pub(crate) fn bfs_order(&self, stop_idx: usize) -> (order: Vec<usize>)
        requires
            self.wf(),
            stop_idx < self.spec_len(),
        ensures
            order@.no_duplicates(),
            forall|q: int|
                0 <= q < order@.len() ==> self.is_desc(
                    stop_idx as int,
                    (#[trigger] order@[q]) as int,
                ),
            forall|d: int| self.is_desc(stop_idx as int, d) ==> order@.contains(d as usize),
            forall|q: int, k: int|
                0 <= q < order@.len() && 0 <= k < self.kids(order@[q] as int).len()
                    ==> order@.contains(#[trigger] self.kids(order@[q] as int)[k]),
            forall|q: int|
                0 <= q < order@.len() ==> #[trigger] self.parent_before(
                    stop_idx as int,
                    order@,
                    q,
                ),
    {
        let ghost start = stop_idx as int;
        let n = self.game_states.len();

        let mut order: Vec<usize> = Vec::new();
        let mut iter = self.bfs_iter(stop_idx);
        proof {
            assert(self.is_desc(start, start));
            assert(iter.buffer@[0] == stop_idx);
            assert forall|d: int|
                self.is_desc(start, d) && !order@.contains(d as usize) && !iter.buffer@.contains(
                    d as usize,
                ) implies self.covered(iter.buffer@, d) by {
                self.lemma_desc_bounds(start, d);
                assert(iter.buffer@[0] as int != d && self.is_desc(
                    iter.buffer@[0] as int,
                    d,
                ));
            }
            assert(self.bfs_inv(start, order@, iter.buffer@));
        }
        loop
            invariant_except_break
                self.wf(),
                0 <= start < self.spec_len(),
                n == self.spec_len(),
                iter.wf(),
                *iter.tree_eval == *self,
                self.bfs_inv(start, order@, iter.buffer@),
            ensures
                self.wf(),
                n == self.spec_len(),
                iter.buffer@.len() == 0,
                self.bfs_inv(start, order@, iter.buffer@),
            decreases n + 1 - order@.len(),
        {
            let ghost o0 = order@;
            let ghost b0 = iter.buffer@;
            match iter.next() {
                Some(x) => {
                    proof {
                        self.lemma_bfs_step(start, o0, b0);
                    }
                    order.push(x);
                    proof {
                        assert(order@ == o0.push(x));
                        assert forall|q: int| 0 <= q < order@.len() implies (#[trigger] order@[q])
                            < n by {
                            self.lemma_desc_bounds(start, order@[q] as int);
                        }
                        lemma_distinct_bounded(order@, n as int);
                    }
                },
                None => {
                    break ;
                },
            }
        }
        proof {
            assert(iter.buffer@ =~= Seq::<usize>::empty());
            self.lemma_bfs_done(start, order@);
        }
        order
    }

    /// When the suffix of the breadth-first order is final, so are all the
    /// children of the node about to be processed.
    #[verifier::rlimit(100)]
    proof fn lemma_children_final(pre: Self, cur: Self, o: Seq<usize>, start: int, m: int)
        requires
            pre.wf(),
            0 <= start < pre.spec_len(),
            cur.children@ == pre.children@,
            cur.worst_case_values@.len() == pre.worst_case_values@.len(),
            o.no_duplicates(),
            forall|q: int| 0 <= q < o.len() ==> pre.is_desc(start, (#[trigger] o[q]) as int),
            forall|q: int, k: int|
                0 <= q < o.len() && 0 <= k < pre.kids(o[q] as int).len() ==> o.contains(
                    #[trigger] pre.kids(o[q] as int)[k],
                ),
            forall|q: int| 0 <= q < o.len() ==> #[trigger] pre.parent_before(start, o, q),
            0 <= m < o.len(),
            forall|q: int|
                o.len() - m <= q < o.len() ==> #[trigger] cur.val(o[q] as int) == pre.node_value(
                    o[q] as int,
                ),
        ensures
            forall|k: int|
                0 <= k < pre.kids(o[o.len() - 1 - m] as int).len() ==> #[trigger] pre.kid_ok(
                    o[o.len() - 1 - m] as int,
                    k,
                ),
            forall|k: int|
                0 <= k < pre.kids(o[o.len() - 1 - m] as int).len() ==> #[trigger] cur.val(
                    pre.kids(o[o.len() - 1 - m] as int)[k] as int,
                ) == pre.node_value(pre.kids(o[o.len() - 1 - m] as int)[k] as int),
    {
        let q = o.len() - 1 - m;
        let idxi = o[q] as int;
        pre.lemma_desc_bounds(start, idxi);
        pre.lemma_desc_ge(start, idxi);
        assert forall|k: int| 0 <= k < pre.kids(idxi).len() implies pre.kid_ok(idxi, k)
            && cur.val((#[trigger] pre.kids(idxi)[k]) as int) == pre.node_value(
            pre.kids(idxi)[k] as int,
        ) by {
            let c = pre.kids(idxi)[k];
            assert(pre.kid_ok(idxi, k));
            assert(o.contains(c));
            let qc = choose|qc: int| 0 <= qc < o.len() && o[qc] == c;
            assert(c as int > idxi >= start);
            assert(o[qc] as int != start);
            assert(pre.parent_before(start, o, qc));
            let q2 = choose|q2: int| 0 <= q2 < qc && o[q2] as int == pre.par(o[qc] as int);
            assert(pre.par(c as int) == idxi);
            assert(o[q2] == o[q]);
            assert(q2 == q);
            assert(qc >= o.len() - m);
            assert(cur.val(o[qc] as int) == pre.node_value(o[qc] as int));
        }
    }

    /// Recompute the cached value of one node whose children already carry
    /// their final backward-induction values.
    #[verifier::rlimit(50)]
    fn update_node(&mut self, idx: usize, Ghost(pre): Ghost<Self>)
        requires
            pre.wf(),
            idx < pre.spec_len(),
            old(self).children@ == pre.children@,
            old(self).game_states@ == pre.game_states@,
            old(self).worst_case_values@.len() == pre.worst_case_values@.len(),
            old(self).val(idx as int) == pre.val(idx as int),
            forall|k: int| 0 <= k < pre.kids(idx as int).len() ==> #[trigger] pre.kid_ok(
                idx as int,
                k,
            ),
            forall|k: int|
                0 <= k < pre.kids(idx as int).len() ==> #[trigger] old(self).val(
                    pre.kids(idx as int)[k] as int,
                ) == pre.node_value(pre.kids(idx as int)[k] as int),
        ensures
            final(self).children@ == old(self).children@,
            final(self).game_states@ == old(self).game_states@,
            final(self).parent@ == old(self).parent@,
            final(self).worst_case_values@.len() == old(self).worst_case_values@.len(),
            final(self).val(idx as int) == pre.node_value(idx as int),
            forall|i: int|
                0 <= i < old(self).worst_case_values@.len() && i != idx as int
                    ==> #[trigger] final(self).val(i) == old(self).val(i),
    {
        let ghost selfpre = *self;
        let ghost idxi = idx as int;
        let init_value = self.worst_case_values[idx];
        if init_value == X_WIN_VALUE || init_value == -X_WIN_VALUE {
            // A node already carrying a win sentinel keeps it.
            proof {
                assert(pre.node_value(idxi) == pre.val(idxi));
            }
        } else {
            let klen = self.children[idx].len();
            if klen == 0 {
                proof {
                    assert(pre.node_value(idxi) == pre.val(idxi));
                }
            } else {
                let side = self.game_states[idx].side();
                if side == Cell::Empty {
                    proof {
                        assert(pre.node_value(idxi) == pre.val(idxi));
                    }
                } else {
                    let c0 = self.children[idx][0];
                    proof {
                        assert(pre.kid_ok(idxi, 0));
                        assert(c0 == pre.kids(idxi)[0]);
                    }
                    let mut acc = self.worst_case_values[c0];
                    let mut k: usize = 1;
                    proof {
                        assert(old(self).val(pre.kids(idx as int)[0] as int) == pre.node_value(
                            pre.kids(idx as int)[0] as int,
                        ));
                        assert(acc == pre.node_value(pre.kids(idxi)[0] as int));
                        assert(pre.fold_kids(idxi, 1, acc) == pre.node_value(idxi));
                    }
                    while k < klen
                        invariant
                            pre.wf(),
                            *self == selfpre,
                            0 <= idxi < pre.spec_len(),
                            idxi == idx as int,
                            self.children@ == pre.children@,
                            self.game_states@ == pre.game_states@,
                            self.worst_case_values@.len() == pre.worst_case_values@.len(),
                            klen == pre.kids(idxi).len(),
                            1 <= k <= klen,
                            side == pre.state(idxi).spec_side(),
                            forall|kk: int| 0 <= kk < klen ==> #[trigger] pre.kid_ok(idxi, kk),
                            forall|kk: int|
                                0 <= kk < klen ==> #[trigger] selfpre.val(
                                    pre.kids(idxi)[kk] as int,
                                ) == pre.node_value(pre.kids(idxi)[kk] as int),
                            pre.fold_kids(idxi, k as int, acc) == pre.node_value(idxi),
                        decreases klen - k,
                    {
                        proof {
                            assert(pre.kid_ok(idxi, k as int));
                        }
                        let ck = self.children[idx][k];
                        let v = self.worst_case_values[ck];
                        proof {
                            assert(ck == pre.kids(idxi)[k as int]);
                            assert(selfpre.val(pre.kids(idxi)[k as int] as int) == pre.node_value(
                                pre.kids(idxi)[k as int] as int,
                            ));
                            assert(v == pre.node_value(pre.kids(idxi)[k as int] as int));
                            assert(pre.fold_kids(idxi, k as int + 1, extreme(side, acc, v))
                                == pre.fold_kids(idxi, k as int, acc));
                        }
                        match side {
                            Cell::X => {
                                if v < acc {
                                    acc = v;
                                }
                            },
                            Cell::O => {
                                if v > acc {
                                    acc = v;
                                }
                            },
                            Cell::Empty => {},
                        }
                        k = k + 1;
                    }
                    proof {
                        assert(pre.fold_kids(idxi, klen as int, acc) == acc);
                        assert(acc == pre.node_value(idxi));
                    }
                    self.worst_case_values.set(idx, acc);
                }
            }
        }
    }

    /// Compute backward-induction values over the subtree rooted at
    /// `stop_idx`: visiting nodes in reverse breadth-first order guarantees
    /// every child is finalized before its parent, so afterwards every node
    /// of the subtree carries its minimax value over the values the arena
    /// held on entry; nodes outside the subtree are untouched.
    #[verifier::rlimit(100)]
    pub fn evaluate_states(&mut self, stop_idx: usize)
        requires
            old(self).wf(),
            stop_idx < old(self).spec_len(),
        ensures
            final(self).wf(),
            final(self).parent@ == old(self).parent@,
            final(self).children@ == old(self).children@,
            final(self).game_states@ == old(self).game_states@,
            forall|i: int|
                0 <= i < old(self).spec_len() ==> #[trigger] final(self).val(i) == if old(
                    self,
                ).is_desc(stop_idx as int, i) {
                    old(self).node_value(i)
                } else {
                    old(self).val(i)
                },
    {
        let ghost pre = *self;
        let ghost start = stop_idx as int;
        let n = self.game_states.len();

        // Walk the breadth-first order backwards, so children are always
        // finalized before their parents.
        let order = self.bfs_order(stop_idx);
        let ghost o = order@;
        let olen = order.len();
        let mut m: usize = 0;
        while m < olen
            invariant
                pre.wf(),
                0 <= start < pre.spec_len(),
                n == pre.spec_len(),
                olen == o.len(),
                m <= olen,
                o == order@,
                self.parent@ == pre.parent@,
                self.children@ == pre.children@,
                self.game_states@ == pre.game_states@,
                self.worst_case_values@.len() == pre.worst_case_values@.len(),
                o.no_duplicates(),
                forall|q: int| 0 <= q < olen ==> pre.is_desc(start, (#[trigger] o[q]) as int),
                forall|d: int| pre.is_desc(start, d) ==> o.contains(d as usize),
                forall|q: int, k: int|
                    0 <= q < olen && 0 <= k < pre.kids(o[q] as int).len() ==> o.contains(
                        #[trigger] pre.kids(o[q] as int)[k],
                    ),
                forall|q: int| 0 <= q < olen ==> #[trigger] pre.parent_before(start, o, q),
                forall|q: int|
                    olen - m <= q < olen ==> #[trigger] self.val(o[q] as int) == pre.node_value(
                        o[q] as int,
                    ),
                forall|q: int|
                    0 <= q < olen - m ==> #[trigger] self.val(o[q] as int) == pre.val(
                        o[q] as int,
                    ),
                forall|i: int|
                    0 <= i < n && !o.contains(i as usize) ==> #[trigger] self.val(i) == pre.val(
                        i,
                    ),
            decreases olen - m,
        {
            let ghost selfpre = *self;
            let idx = order[olen - 1 - m];
            let ghost q = olen - 1 - m;
            let ghost idxi = idx as int;
            proof {
                pre.lemma_desc_bounds(start, idxi);
                assert(self.val(idxi) == pre.val(idxi));
                Self::lemma_children_final(pre, *self, o, start, m as int);
            }
            self.update_node(idx, Ghost(pre));
            proof {
                assert forall|q2: int|
                    olen - (m + 1) <= q2 < olen implies #[trigger] self.val(o[q2] as int)
                    == pre.node_value(o[q2] as int) by {
                    if q2 != q {
                        assert(o[q2] != o[q]);
                        assert(self.val(o[q2] as int) == selfpre.val(o[q2] as int));
                    }
                }
                assert forall|q2: int|
                    0 <= q2 < olen - (m + 1) implies #[trigger] self.val(o[q2] as int) == pre.val(
                    o[q2] as int,
                ) by {
                    assert(o[q2] != o[q]);
                    assert(self.val(o[q2] as int) == selfpre.val(o[q2] as int));
                }
                assert forall|i: int|
                    0 <= i < n && !o.contains(i as usize) implies #[trigger] self.val(i)
                    == pre.val(i) by {
                    assert(i != idxi) by {
                        if i == idxi {
                            assert(o.contains(o[q]));
                        }
                    }
                    assert(self.val(i) == selfpre.val(i));
                }
            }
            m = m + 1;
        }
        proof {
            assert forall|p: int, k: int|
                0 <= p < self.spec_len() && 0 <= k < self.kids(p).len() implies #[trigger] self
                .kid_ok(p, k) by {
                assert(pre.kid_ok(p, k));
            }
            assert forall|i: int| 0 < i < self.spec_len() implies #[trigger] self.kids(
                self.par(i),
            ).contains(i as usize) by {
                assert(pre.kids(pre.par(i)).contains(i as usize));
            }
            assert forall|p: int, k1: int, k2: int|
                0 <= p < self.spec_len() && 0 <= k1 < k2 < self.kids(p).len()
                implies #[trigger] self.kids(p)[k1] < #[trigger] self.kids(p)[k2] by {
                assert(pre.kids(p)[k1] < pre.kids(p)[k2]);
            }
            assert forall|i: int| 0 <= i < self.spec_len() implies (#[trigger] self.state(
                i,
            )).wf() by {
                assert(self.state(i) == pre.state(i));
                assert(pre.state(i).wf());
            }
            assert forall|i: int| 0 < i < self.spec_len() implies 0 <= #[trigger] self.par(i)
                < i by {
                assert(self.par(i) == pre.par(i));
            }
            assert(self.wf());
            assert forall|i: int| 0 <= i < n implies #[trigger] self.val(i) == if pre.is_desc(
                start,
                i,
            ) {
                pre.node_value(i)
            } else {
                pre.val(i)
            } by {
                if pre.is_desc(start, i) {
                    assert(o.contains(i as usize));
                    let qx = choose|qx: int| 0 <= qx < o.len() && o[qx] == i as usize;
                    assert(self.val(o[qx] as int) == pre.node_value(o[qx] as int));
                } else {
                    assert(!o.contains(i as usize)) by {
                        if o.contains(i as usize) {
                            let qx = choose|qx: int| 0 <= qx < olen && o[qx] == i as usize;
                            assert(pre.is_desc(start, o[qx] as int));
                        }
                    }
                }
            }
        }
    }

    /// The index of the child with the extremal value for the side to move
    /// at the parent, folding left over the children from position `k` with
    /// current best `best`; ties keep the earlier child.
    pub open spec fn bc_fold(kids: Seq<usize>, vals: Seq<i32>, side: Cell, k: int, best: usize) -> usize
        decreases kids.len() - k,
    {
        if !(0 <= k < kids.len()) {
            best
        } else {
            let c = kids[k];
            let better = if side == Cell::O {
                vals[c as int] > vals[best as int]
            } else {
                vals[c as int] < vals[best as int]
            };
            Self::bc_fold(kids, vals, side, k + 1, if better {
                c
            } else {
                best
            })
        }
    }

    /// The best direct child of `p`: the first child attaining the maximal
    /// cached value when X is to move (the parent's side is O), the minimal
    /// one when O is to move.
    pub open spec fn spec_best_child(self, p: int) -> usize {
        Self::bc_fold(
            self.kids(p),
            self.worst_case_values@,
            self.state(p).spec_side(),
            1,
            self.kids(p)[0],
        )
    }

    /// Among the direct children of `parent_idx`, the id whose cached value
    /// is extremal for the side to move there, ties broken by child order;
    /// nothing if the parent has no children (or, degenerately, no side).
    pub fn best_child(&self, parent_idx: usize) -> (r: Option<usize>)
        requires
            self.wf(),
            parent_idx < self.spec_len(),
        ensures
            r is Some <==> (self.kids(parent_idx as int).len() > 0 && self.state(
                parent_idx as int,
            ).spec_side() != Cell::Empty),
            r matches Some(c) ==> {
                &&& c == self.spec_best_child(parent_idx as int)
                &&& (c as int) < self.spec_len()
                &&& self.kids(parent_idx as int).contains(c)
            },
    {
        let ghost p = parent_idx as int;
        let klen = self.children[parent_idx].len();
        if klen == 0 {
            return None;
        }
        let side = self.game_states[parent_idx].side();
        if side == Cell::Empty {
            return None;
        }
        proof {
            assert(self.kid_ok(p, 0));
        }
        let mut best = self.children[parent_idx][0];
        let mut k: usize = 1;
        while k < klen
            invariant
                self.wf(),
                0 <= p < self.spec_len(),
                p == parent_idx as int,
                klen == self.kids(p).len(),
                1 <= k <= klen,
                side == self.state(p).spec_side(),
                side != Cell::Empty,
                (best as int) < self.spec_len(),
                self.kids(p).contains(best),
                Self::bc_fold(self.kids(p), self.worst_case_values@, side, k as int, best)
                    == self.spec_best_child(p),
            decreases klen - k,
        {
            proof {
                assert(self.kid_ok(p, k as int));
            }
            let c = self.children[parent_idx][k];
            let better = match side {
                Cell::O => self.worst_case_values[c] > self.worst_case_values[best],
                Cell::X => self.worst_case_values[c] < self.worst_case_values[best],
                Cell::Empty => false,
            };
            if better {
                best = c;
            }
            k = k + 1;
        }
        Some(best)
    }

    /// Breadth-first budgeted expansion: take the first `budget` nodes (or
    /// all of them, if fewer are queued) off the frontier queue, expand
    /// each, and enqueue exactly the non-terminal children, in order, as the
    /// next frontier. Returns whether the frontier is now exhausted, so
    /// that a cooperative driver can resume the call across many
    /// invocations: the queue itself is the suspended state.
    pub fn expand_by(&mut self, frontier: &mut VecDeque<usize>, budget: usize) -> (done: bool)
        requires
            old(self).wf(),
            forall|q: int|
                0 <= q < old(frontier)@.len() ==> (#[trigger] old(frontier)@[q]) < old(
                    self,
                ).spec_len(),
            old(frontier)@.no_duplicates(),
        ensures
            final(self).wf(),
            Self::grown(*old(self), *final(self)),
            ({
                let taken = if (budget as int) <= old(frontier)@.len() {
                    budget as int
                } else {
                    old(frontier)@.len() as int
                };
                &&& Self::multi_expanded(*old(self), *final(self), old(frontier)@.take(taken))
                &&& final(frontier)@ == old(frontier)@.skip(taken) + final(self).nonterminal_ids(
                    old(self).spec_len(),
                    final(self).spec_len(),
                )
            }),
            done == (final(frontier)@.len() == 0),
            final(frontier)@.no_duplicates(),
            forall|q: int|
                0 <= q < final(frontier)@.len() ==> (#[trigger] final(frontier)@[q])
                    < final(self).spec_len(),
            old(self).terminal_nodes_unexpanded() ==> final(self).terminal_nodes_unexpanded(),
    {
        let ghost pre = *self;
        let ghost f0 = frontier@;
        let len0 = frontier.len();
        let take = if budget < len0 {
            budget
        } else {
            len0
        };

        // Dequeue this call's wave: the first `take` queued nodes.
        let mut wave: Vec<usize> = Vec::new();
        let mut j: usize = 0;
        while j < take
            invariant
                j <= take,
                take <= f0.len(),
                frontier@ == f0.skip(j as int),
                wave@ == f0.take(j as int),
            decreases take - j,
        {
            match frontier.pop_front() {
                Some(x) => {
                    wave.push(x);
                    proof {
                        assert(f0.skip(j as int)[0] == f0[j as int]);
                        assert(f0.skip(j as int).subrange(
                            1,
                            f0.skip(j as int).len() as int,
                        ) =~= f0.skip(j as int + 1));
                        assert(wave@ =~= f0.take(j as int + 1));
                    }
                },
                None => {
                    proof {
                        assert(false);
                    }
                },
            }
            j = j + 1;
        }
        proof {
            assert forall|m: int| 0 <= m < wave@.len() implies (#[trigger] wave@[m])
                < pre.spec_len() by {
                assert(wave@[m] == f0[m]);
            }
            assert forall|m1: int, m2: int|
                0 <= m1 < m2 < wave@.len() implies #[trigger] wave@[m1] != #[trigger] wave@[m2] by {
                assert(wave@[m1] == f0[m1] && wave@[m2] == f0[m2]);
            }
        }

        // Expand the wave one ply; the fresh ids are the new arena tail.
        let fresh = self.expand_and_get_children_idx(&wave);
        let ghost mid = *self;
        proof {
            Self::lemma_multi_grown(pre, *self, wave@);
            if pre.terminal_nodes_unexpanded() {
                Self::lemma_multi_preserves_terminal(pre, *self, wave@);
            }
        }

        // Enqueue exactly the non-terminal children as the next frontier.
        let flen = fresh.len();
        let mut t: usize = 0;
        while t < flen
            invariant
                mid.wf(),
                *self == mid,
                t <= flen,
                flen == fresh@.len(),
                pre.spec_len() + flen == mid.spec_len(),
                take <= f0.len(),
                forall|jj: int|
                    0 <= jj < flen ==> #[trigger] fresh@[jj] == pre.spec_len() + jj,
                forall|q: int| 0 <= q < f0.len() ==> (#[trigger] f0[q]) < pre.spec_len(),
                frontier@ == f0.skip(take as int) + mid.nonterminal_ids(
                    pre.spec_len(),
                    pre.spec_len() + t as int,
                ),
            decreases flen - t,
        {
            let c = fresh[t];
            let v = self.worst_case_values[c];
            proof {
                mid.lemma_nonterminal_snoc(pre.spec_len(), pre.spec_len() + t as int);
            }
            if v != X_WIN_VALUE && v != -X_WIN_VALUE {
                frontier.push_back(c);
                proof {
                    assert(frontier@ =~= f0.skip(take as int) + mid.nonterminal_ids(
                        pre.spec_len(),
                        pre.spec_len() + t as int + 1,
                    ));
                }
            } else {
                proof {
                    assert(frontier@ =~= f0.skip(take as int) + mid.nonterminal_ids(
                        pre.spec_len(),
                        pre.spec_len() + t as int + 1,
                    ));
                }
            }
            t = t + 1;
        }

        proof {
            let fr = frontier@;
            let rem = f0.skip(take as int);
            let news = mid.nonterminal_ids(pre.spec_len(), mid.spec_len());
            mid.lemma_nonterminal_props(pre.spec_len(), mid.spec_len());
            assert forall|q: int| 0 <= q < fr.len() implies (#[trigger] fr[q])
                < self.spec_len() by {
                if q < rem.len() {
                    assert(fr[q] == f0[take + q]);
                } else {
                    assert(fr[q] == news[q - rem.len()]);
                }
            }
            assert forall|q1: int, q2: int|
                0 <= q1 < q2 < fr.len() implies fr[q1] != fr[q2] by {
                if q2 < rem.len() {
                    assert(fr[q1] == f0[take + q1] && fr[q2] == f0[take + q2]);
                } else if q1 < rem.len() {
                    assert(fr[q1] == f0[take + q1]);
                    assert(fr[q2] == news[q2 - rem.len()]);
                    assert((fr[q1] as int) < pre.spec_len() <= fr[q2] as int);
                } else {
                    assert(fr[q1] == news[q1 - rem.len()] && fr[q2] == news[q2 - rem.len()]);
                }
            }
        }
        frontier.len() == 0
    }

    /// Parent links, and with them the subtree relation, only depend on the
    /// parent table and the arena size.
    proof fn lemma_desc_same(pre: Self, post: Self, start: int, i: int)
        requires
            post.parent@ == pre.parent@,
            post.game_states@.len() == pre.game_states@.len(),
        ensures
            post.is_desc(start, i) == pre.is_desc(start, i),
        decreases i,
    {
        if i != start && 0 < i < pre.spec_len() && 0 <= pre.par(i) < i {
            Self::lemma_desc_same(pre, post, start, pre.par(i));
        }
    }

    /// Backward-induction values agree on two arenas with the same shape
    /// whose stored values agree wherever the recursion reads them: at win
    /// sentinels, leaves, and sides without a mover.
    proof fn lemma_node_value_same(pre: Self, post: Self, start: int, i: int)
        requires
            pre.wf(),
            0 <= start < pre.spec_len(),
            post.parent@ == pre.parent@,
            post.children@ == pre.children@,
            post.game_states@ == pre.game_states@,
            post.worst_case_values@.len() == pre.worst_case_values@.len(),
            forall|j: int|
                0 <= j < pre.spec_len() ==> #[trigger] post.val(j) == if pre.is_desc(start, j) {
                    pre.node_value(j)
                } else {
                    pre.val(j)
                },
            pre.is_desc(start, i),
        ensures
            post.node_value(i) == pre.node_value(i),
        decreases pre.spec_len() - i, 1int, 0int,
    {
        pre.lemma_desc_bounds(start, i);
        assert(post.spec_len() == pre.spec_len());
        assert(post.kids(i) == pre.kids(i));
        assert(post.val(i) == pre.node_value(i));
        if pre.val(i) == X_WIN_VALUE || pre.val(i) == (-X_WIN_VALUE) as i32 {
            assert(pre.node_value(i) == pre.val(i));
        } else if pre.kids(i).len() == 0 {
            assert(pre.node_value(i) == pre.val(i));
        } else if pre.state(i).spec_side() == Cell::Empty {
            assert(pre.node_value(i) == pre.val(i));
        } else if post.val(i) == X_WIN_VALUE || post.val(i) == (-X_WIN_VALUE) as i32 {
            // The previous evaluation already propagated a forced result up
            // to this node, which the re-run keeps as it stands.
            assert(post.node_value(i) == post.val(i));
        } else {
            assert(pre.kid_ok(i, 0));
            pre.lemma_desc_child(start, i, 0);
            Self::lemma_node_value_same(pre, post, start, pre.kids(i)[0] as int);
            Self::lemma_fold_same(
                pre,
                post,
                start,
                i,
                1,
                pre.node_value(pre.kids(i)[0] as int),
            );
        }
    }

    /// Companion of [`Self::lemma_node_value_same`] for the child fold.
    proof fn lemma_fold_same(pre: Self, post: Self, start: int, i: int, k: int, acc: i32)
        requires
            pre.wf(),
            0 <= start < pre.spec_len(),
            post.parent@ == pre.parent@,
            post.children@ == pre.children@,
            post.game_states@ == pre.game_states@,
            post.worst_case_values@.len() == pre.worst_case_values@.len(),
            forall|j: int|
                0 <= j < pre.spec_len() ==> #[trigger] post.val(j) == if pre.is_desc(start, j) {
                    pre.node_value(j)
                } else {
                    pre.val(j)
                },
            pre.is_desc(start, i),
            0 <= i < pre.spec_len(),
            1 <= k,
        ensures
            post.fold_kids(i, k, acc) == pre.fold_kids(i, k, acc),
        decreases pre.spec_len() - i, 0int, pre.kids(i).len() - k,
    {
        if k < pre.kids(i).len() {
            assert(pre.kid_ok(i, k));
            pre.lemma_desc_child(start, i, k);
            Self::lemma_node_value_same(pre, post, start, pre.kids(i)[k] as int);
            Self::lemma_fold_same(
                pre,
                post,
                start,
                i,
                k + 1,
                extreme(
                    pre.state(i).spec_side(),
                    acc,
                    pre.node_value(pre.kids(i)[k] as int),
                ),
            );
        }
    }

    /// Law of backward-induction idempotence: `post` is an arena that came
    /// out of evaluating `pre` from `start`. Re-running the evaluation on
    /// the unchanged subtree recomputes exactly the values it already holds.
    pub proof fn lemma_evaluate_idempotent(pre: Self, post: Self, start: int)
        requires
            pre.wf(),
            0 <= start < pre.spec_len(),
            post.parent@ == pre.parent@,
            post.children@ == pre.children@,
            post.game_states@ == pre.game_states@,
            post.worst_case_values@.len() == pre.worst_case_values@.len(),
            forall|j: int|
                0 <= j < pre.spec_len() ==> #[trigger] post.val(j) == if pre.is_desc(start, j) {
                    pre.node_value(j)
                } else {
                    pre.val(j)
                },
        ensures
            forall|i: int|
                0 <= i < post.spec_len() ==> (if post.is_desc(start, i) {
                    post.node_value(i)
                } else {
                    post.val(i)
                }) == #[trigger] post.val(i),
    {
        assert forall|i: int| 0 <= i < post.spec_len() implies (if post.is_desc(start, i) {
            post.node_value(i)
        } else {
            post.val(i)
        }) == #[trigger] post.val(i) by {
            Self::lemma_desc_same(pre, post, start, i);
            if pre.is_desc(start, i) {
                Self::lemma_node_value_same(pre, post, start, i);
            }
        }
    }

    /// Law of the one-ply round trip: a node with no winning position among
    /// itself and its children (everything valued zero, the children
    /// leaves) evaluates back to its own positional value.
    pub proof fn lemma_single_ply_roundtrip(self, i: int)
        requires
            self.wf(),
            0 <= i < self.spec_len(),
            self.val(i) == 0,
            forall|k: int|
                0 <= k < self.kids(i).len() ==> #[trigger] self.val(self.kids(i)[k] as int) == 0,
            forall|k: int|
                0 <= k < self.kids(i).len() ==> #[trigger] self.kids(
                    self.kids(i)[k] as int,
                ).len() == 0,
        ensures
            self.node_value(i) == self.val(i),
    {
        if self.kids(i).len() > 0 && self.state(i).spec_side() != Cell::Empty {
            assert(self.kid_ok(i, 0));
            assert(self.node_value(self.kids(i)[0] as int) == 0);
            self.lemma_fold_zero(i, 1);
        }
    }

    /// Folding over zero-valued leaf children keeps a zero accumulator.
    proof fn lemma_fold_zero(self, i: int, k: int)
        requires
            self.wf(),
            0 <= i < self.spec_len(),
            1 <= k,
            forall|kk: int|
                0 <= kk < self.kids(i).len() ==> #[trigger] self.val(self.kids(i)[kk] as int)
                    == 0,
            forall|kk: int|
                0 <= kk < self.kids(i).len() ==> #[trigger] self.kids(
                    self.kids(i)[kk] as int,
                ).len() == 0,
        ensures
            self.fold_kids(i, k, 0) == 0,
        decreases self.kids(i).len() - k,
    {
        if 0 <= k < self.kids(i).len() {
            assert(self.kid_ok(i, k));
            assert(self.node_value(self.kids(i)[k] as int) == 0);
            assert(extreme(self.state(i).spec_side(), 0, 0) == 0);
            self.lemma_fold_zero(i, k + 1);
        }
    }

    /// Law of winning-move selection: on a parent with exactly two direct
    /// children, one carrying the win sentinel of the side about to move
    /// and the other neutral, `best_child` picks the winning child whichever
    /// order the two were inserted in.
    pub proof fn lemma_best_child_selects_win(self, p: int)
        requires
            self.wf(),
            0 <= p < self.spec_len(),
            self.kids(p).len() == 2,
            ({
                let a = self.val(self.kids(p)[0] as int);
                let b = self.val(self.kids(p)[1] as int);
                ||| (self.state(p).spec_side() == Cell::O && ((a == X_WIN_VALUE && b == 0) || (a
                    == 0 && b == X_WIN_VALUE)))
                ||| (self.state(p).spec_side() == Cell::X && ((a == (-X_WIN_VALUE) as i32 && b
                    == 0) || (a == 0 && b == (-X_WIN_VALUE) as i32)))
            }),
        ensures
            self.state(p).spec_side() == Cell::O ==> self.val(self.spec_best_child(p) as int)
                == X_WIN_VALUE,
            self.state(p).spec_side() == Cell::X ==> self.val(self.spec_best_child(p) as int)
                == (-X_WIN_VALUE) as i32,
    {
        assert(self.kid_ok(p, 0));
        assert(self.kid_ok(p, 1));
        let side = self.state(p).spec_side();
        let kids = self.kids(p);
        let vals = self.worst_case_values@;
        let first = kids[0];
        let c = kids[1];
        let better = if side == Cell::O {
            vals[c as int] > vals[first as int]
        } else {
            vals[c as int] < vals[first as int]
        };
        let chosen: usize = if better {
            c
        } else {
            first
        };
        assert(Self::bc_fold(kids, vals, side, 2, chosen) == chosen);
        assert(Self::bc_fold(kids, vals, side, 1, first) == chosen);
        assert(self.spec_best_child(p) == chosen);
    }

    /// A breadth-first iterator over the subtree rooted at `start_idx`.
    pub fn bfs_iter<'a>(&'a self, start_idx: usize) -> (r: BfsIterator<'a, T>)
        requires
            self.wf(),
            start_idx < self.spec_len(),
        ensures
            r.wf(),
            r.tree_eval == self,
            r.buffer@ == seq![start_idx],
    {
        let mut buffer: VecDeque<usize> = VecDeque::new();
        buffer.push_back(start_idx);
        proof {
            assert(buffer@ =~= seq![start_idx]);
        }
        BfsIterator { tree_eval: self, buffer }
    }
}

/// A verified copy of an index vector.
fn copy_ids(v: &Vec<usize>) -> (r: Vec<usize>)
    ensures
        r@ == v@,
{
    let len = v.len();
    let mut r: Vec<usize> = Vec::new();
    let mut i: usize = 0;
    while i < len
        invariant
            i <= len,
            v@.len() == len,
            r@.len() == i,
            forall|j: int| 0 <= j < i ==> #[trigger] r@[j] == v@[j],
        decreases len - i,
    {
        r.push(v[i]);
        i = i + 1;
    }
    proof {
        assert(r@ =~= v@);
    }
    r
}

} // verus!
