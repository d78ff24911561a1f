//! Breadth-first traversal of the branching network, and what it visits.
use vstd::prelude::*;
use std::collections::VecDeque;

use super::BranchNetwork;

verus! {

impl<P, E> BranchNetwork<P, E> {
    /// The children of every node of `level`, one node after the other.
    pub open spec fn next_level(&self, level: Seq<usize>) -> Seq<usize>
        decreases level.len(),
    {
        if level.len() == 0 {
            Seq::empty()
        } else {
            self.next_level(level.drop_last()) + self.spec_children(level.last() as int)
        }
    }

    /// `level`, then the level below it, and so on, down to at most `fuel`
    /// levels further.
    pub open spec fn levels_from(&self, level: Seq<usize>, fuel: nat) -> Seq<usize>
        decreases fuel,
    {
        if fuel == 0 || level.len() == 0 {
            level
        } else {
            level + self.levels_from(self.next_level(level), (fuel - 1) as nat)
        }
    }

    /// The breadth-first order of the nodes below `start`: `start` itself,
    /// then its children, then theirs, level by level.
    pub open spec fn breadth_first_from(&self, start: int) -> Seq<usize> {
        self.levels_from(seq![start as usize], self.node_seq().len())
    }

    /// The level below `level` holds exactly the nodes whose parent is in
    /// `level`, and holds none twice when `level` holds none twice.
    proof fn lemma_next_level(&self, level: Seq<usize>)
        requires
            self.wf(),
            forall|i: int| 0 <= i < level.len() ==> #[trigger] level[i] < self.node_seq().len(),
        ensures
            forall|i: int|
                0 <= i < self.next_level(level).len() ==> 1 <= #[trigger] self.next_level(level)[i]
                    < self.node_seq().len(),
            forall|c: usize|
                self.next_level(level).contains(c) <==> (1 <= c < self.node_seq().len()
                    && level.contains(self.parent_index(c as int) as usize)),
            level.no_duplicates() ==> self.next_level(level).no_duplicates(),
        decreases level.len(),
    {
        if level.len() > 0 {
            let rest = level.drop_last();
            let x = level.last();
            self.lemma_next_level(rest);
            self.lemma_children_exact(x);
            let a = self.next_level(rest);
            let b = self.spec_children(x as int);
            let nl = self.next_level(level);
            assert(nl == a + b);
            assert forall|c: usize|
                nl.contains(c) <==> (1 <= c < self.node_seq().len() && level.contains(
                    self.parent_index(c as int) as usize,
                )) by {
                if nl.contains(c) {
                    let i = choose|i: int| 0 <= i < nl.len() && nl[i] == c;
                    if i < a.len() {
                        assert(a.contains(c));
                        let j = choose|j: int|
                            0 <= j < rest.len() && rest[j] == self.parent_index(c as int) as usize;
                        assert(level[j] == rest[j]);
                    } else {
                        assert(b[i - a.len()] == c);
                        assert(level[level.len() - 1] == x);
                    }
                }
                if 1 <= c < self.node_seq().len() && level.contains(
                    self.parent_index(c as int) as usize,
                ) {
                    let j = choose|j: int|
                        0 <= j < level.len() && level[j] == self.parent_index(c as int) as usize;
                    assert(self.node_seq()[c as int].parent is Some);
                    if j < rest.len() {
                        assert(rest[j] == level[j]);
                        assert(rest.contains(self.parent_index(c as int) as usize));
                        assert(a.contains(c));
                        let i = choose|i: int| 0 <= i < a.len() && a[i] == c;
                        assert(nl[i] == c);
                    } else {
                        assert(self.node_seq()[c as int].parent == Some(x));
                        assert(b.contains(c));
                        let i = choose|i: int| 0 <= i < b.len() && b[i] == c;
                        assert(nl[a.len() + i] == c);
                    }
                }
            }
            assert forall|i: int| 0 <= i < nl.len() implies 1 <= #[trigger] nl[i]
                < self.node_seq().len() by {
                if i < a.len() {
                    assert(nl[i] == a[i]);
                } else {
                    assert(nl[i] == b[i - a.len()]);
                }
            }
            if level.no_duplicates() {
                assert(rest.no_duplicates());
                assert forall|i: int, j: int| 0 <= i < j < nl.len() implies nl[i] != nl[j] by {
                    if j < a.len() {
                        assert(nl[i] == a[i] && nl[j] == a[j]);
                    } else if i >= a.len() {
                        assert(nl[i] == b[i - a.len()] && nl[j] == b[j - a.len()]);
                    } else {
                        assert(nl[i] == a[i]);
                        assert(nl[j] == b[j - a.len()]);
                        if nl[i] == nl[j] {
                            let c = nl[i];
                            assert(a.contains(c));
                            assert(self.node_seq()[c as int].parent == Some(x));
                            let k = choose|k: int|
                                0 <= k < rest.len() && rest[k] == self.parent_index(c as int) as usize;
                            assert(level[k] == x && level[level.len() - 1] == x);
                        }
                    }
                }
            }
        }
    }

    /// Traverses the directed branch graph from a node and returns a
    /// parent/child ordering in breadth-first sequence.
    #[verifier::rlimit(30)]
    pub fn traverse_from(&self, start_index: usize) -> (order: Vec<usize>)
        requires
            self.wf(),
        ensures
            start_index < self.node_seq().len() ==> order@ == self.breadth_first_from(
                start_index as int,
            ),
            start_index >= self.node_seq().len() ==> order@.len() == 0,
            start_index < self.node_seq().len() ==> {
                &&& order@.len() > 0
                &&& order@[0] == start_index
                &&& order@.no_duplicates()
                &&& forall|x: usize|
                    #[trigger] order@.contains(x) <==> (x < self.node_seq().len() && self.descends_from(
                        x as int,
                        start_index as int,
                    ))
                &&& forall|i: int, j: int|
                    0 <= i < j < order@.len() ==> self.depth_of(#[trigger] order@[i] as int)
                        <= self.depth_of(#[trigger] order@[j] as int)
            },
    {
        let n = self.nodes.len();
        if start_index >= n {
            return Vec::new();
        }
        let mut order: Vec<usize> = Vec::new();
        let mut visited: Vec<bool> = vec![false; n];
        let mut frontier: VecDeque<usize> = VecDeque::new();
        frontier.push_back(start_index);
        visited.set(start_index, true);
        let ghost base = self.depth_of(start_index as int);
        let ghost total = self.breadth_first_from(start_index as int).len();
        let ghost mut done: Seq<usize> = Seq::empty();
        let ghost mut cur: Seq<usize> = seq![start_index];
        let ghost mut d: int = 0;
        let ghost mut k: int = 0;
        proof {
            assert(cur.take(0) =~= Seq::<usize>::empty());
            assert(cur.skip(0) =~= cur);
            assert(frontier@ =~= cur.skip(k) + self.next_level(cur.take(k)));
            assert(self.breadth_first_from(start_index as int) =~= done + self.levels_from(
                cur,
                (n - d) as nat,
            ));
            assert forall|x: int| 0 <= x < n implies visited@[x] == (order@ + frontier@).contains(
                x as usize,
            ) by {
                if x == start_index {
                    assert((order@ + frontier@)[0] == start_index);
                }
            }
        }
        while frontier.len() > 0
            invariant
                self.wf(),
                n == self.node_seq().len(),
                start_index < n,
                visited@.len() == n,
                base == self.depth_of(start_index as int),
                total == self.breadth_first_from(start_index as int).len(),
                order@ == done + cur.take(k),
                frontier@ == cur.skip(k) + self.next_level(cur.take(k)),
                self.breadth_first_from(start_index as int) == done + self.levels_from(
                    cur,
                    (n - d) as nat,
                ),
                0 <= d <= n,
                0 <= k <= cur.len(),
                cur.len() > 0,
                cur.no_duplicates(),
                forall|i: int|
                    0 <= i < cur.len() ==> #[trigger] cur[i] < n && self.depth_of(cur[i] as int)
                        == base + d,
                forall|i: int|
                    0 <= i < done.len() ==> #[trigger] done[i] < n && self.depth_of(done[i] as int)
                        < base + d,
                forall|x: int|
                    0 <= x < n ==> #[trigger] visited@[x] == (order@ + frontier@).contains(
                        x as usize,
                    ),
            decreases total - order@.len(),
        {
            proof {
                if k == cur.len() {
                    // The current level is exhausted: move to the one below it.
                    self.lemma_depth_le_index(cur[0] as int);
                    assert(d < n);
                    assert(cur.take(k) =~= cur);
                    assert(cur.skip(k) =~= Seq::<usize>::empty());
                    self.lemma_next_level(cur);
                    let nxt = self.next_level(cur);
                    assert(frontier@ =~= nxt);
                    assert(self.levels_from(cur, (n - d) as nat) =~= cur + self.levels_from(
                        nxt,
                        (n - d - 1) as nat,
                    ));
                    assert forall|i: int| 0 <= i < nxt.len() implies #[trigger] nxt[i] < n
                        && self.depth_of(nxt[i] as int) == base + d + 1 by {
                        assert(nxt.contains(nxt[i]));
                        let c = nxt[i] as int;
                        assert(self.node_seq()[c].parent is Some);
                        let j = choose|j: int|
                            0 <= j < cur.len() && cur[j] == self.parent_index(c) as usize;
                    }
                    assert forall|i: int| 0 <= i < (done + cur).len() implies #[trigger] (done
                        + cur)[i] < n && self.depth_of((done + cur)[i] as int) < base + d + 1 by {
                        if i < done.len() {
                            assert((done + cur)[i] == done[i]);
                        } else {
                            assert((done + cur)[i] == cur[i - done.len()]);
                        }
                    }
                    assert(order@ =~= (done + cur) + nxt.take(0));
                    assert(nxt.take(0) =~= Seq::<usize>::empty());
                    assert(nxt.skip(0) =~= nxt);
                    assert(self.breadth_first_from(start_index as int) =~= (done + cur)
                        + self.levels_from(nxt, (n - (d + 1)) as nat));
                    done = done + cur;
                    cur = nxt;
                    d = d + 1;
                    k = 0;
                    assert(frontier@ =~= cur.skip(k) + self.next_level(cur.take(k)));
                }
            }
            let ghost before_pop = frontier@;
            let index = frontier.pop_front().unwrap();
            proof {
                assert(before_pop[0] == cur.skip(k)[0]);
                assert(index == cur[k]);
                assert(total == (done + self.levels_from(cur, (n - d) as nat)).len());
                assert(self.levels_from(cur, (n - d) as nat).len() >= cur.len());
            }
            let ghost old_order = order@;
            order.push(index);
            let children = self.children_of(index);
            let ghost popped = frontier@;
            proof {
                self.lemma_children_exact(index);
                self.lemma_next_level(cur.take(k));
                assert(order@ =~= done + cur.take(k + 1));
                assert(popped =~= cur.skip(k + 1) + self.next_level(cur.take(k)));
                assert(order@ + popped =~= old_order + before_pop);
                // No child of `index` has been seen yet.
                assert forall|i: int| 0 <= i < children@.len() implies !(order@
                    + popped).contains(#[trigger] children@[i]) by {
                    let c = children@[i];
                    assert(self.node_seq()[c as int].parent == Some(index));
                    assert(self.depth_of(c as int) == base + d + 1);
                    if (order@ + popped).contains(c) {
                        let j = choose|j: int| 0 <= j < (order@ + popped).len() && (order@
                            + popped)[j] == c;
                        if j < order@.len() {
                            if j < done.len() {
                                assert(order@[j] == done[j]);
                            } else {
                                assert(order@[j] == cur[j - done.len()]);
                            }
                        } else {
                            let j2 = j - order@.len();
                            assert(popped[j2] == c);
                            if j2 < cur.len() - (k + 1) {
                                assert(popped[j2] == cur[k + 1 + j2]);
                            } else {
                                let nl = self.next_level(cur.take(k));
                                assert(nl[j2 - (cur.len() - (k + 1))] == c);
                                assert(nl.contains(c));
                                let m = choose|m: int|
                                    0 <= m < cur.take(k).len() && cur.take(k)[m]
                                        == self.parent_index(c as int) as usize;
                                assert(cur[m] == cur[k]);
                            }
                        }
                    }
                }
            }
            let mut j: usize = 0;
            while j < children.len()
                invariant
                    visited@.len() == n,
                    children@ == self.spec_children(index as int),
                    0 <= j <= children@.len(),
                    frontier@ == popped + children@.take(j as int),
                    forall|i: int|
                        0 <= i < children@.len() ==> 1 <= #[trigger] children@[i] < n,
                    forall|a: int, b: int|
                        0 <= a < b < children@.len() ==> children@[a] < children@[b],
                    forall|i: int|
                        0 <= i < children@.len() ==> !(order@ + popped).contains(
                            #[trigger] children@[i],
                        ),
                    forall|x: int|
                        0 <= x < n ==> #[trigger] visited@[x] == (order@ + frontier@).contains(
                            x as usize,
                        ),
                decreases children@.len() - j,
            {
                let child = children[j];
                proof {
                    if (order@ + frontier@).contains(child) {
                        let m = choose|m: int| 0 <= m < (order@ + frontier@).len() && (order@
                            + frontier@)[m] == child;
                        if m >= order@.len() + popped.len() {
                            let t = m - order@.len() - popped.len();
                            assert(children@.take(j as int)[t] == child);
                            assert(children@[t] < children@[j as int]);
                        } else if m < order@.len() {
                            assert((order@ + popped)[m] == child);
                        } else {
                            assert((order@ + popped)[m] == child);
                        }
                    }
                }
                if !visited[child] {
                    let ghost fr = frontier@;
                    visited.set(child, true);
                    frontier.push_back(child);
                    proof {
                        assert(children@.take(j + 1) =~= children@.take(j as int).push(child));
                        assert forall|x: int| 0 <= x < n implies #[trigger] visited@[x] == (order@
                            + frontier@).contains(x as usize) by {
                            assert((order@ + frontier@) =~= (order@ + fr).push(child));
                            if x == child {
                                assert((order@ + frontier@)[(order@ + frontier@).len() - 1]
                                    == child);
                            } else {
                                if (order@ + frontier@).contains(x as usize) {
                                    let m = choose|m: int| 0 <= m < (order@ + frontier@).len()
                                        && (order@ + frontier@)[m] == x as usize;
                                    assert((order@ + fr)[m] == x as usize);
                                }
                                if (order@ + fr).contains(x as usize) {
                                    let m = choose|m: int| 0 <= m < (order@ + fr).len() && (order@
                                        + fr)[m] == x as usize;
                                    assert((order@ + frontier@)[m] == x as usize);
                                }
                            }
                        }
                    }
                }
                j = j + 1;
            }
            proof {
                assert(children@.take(children@.len() as int) =~= children@);
                assert(cur.take(k + 1).drop_last() =~= cur.take(k));
                assert(cur.take(k + 1).last() == index);
                assert(frontier@ =~= cur.skip(k + 1) + self.next_level(cur.take(k + 1)));
                k = k + 1;
            }
        }
        proof {
            assert(cur.skip(k).len() == 0);
            assert(k == cur.len());
            assert(cur.take(k) =~= cur);
            assert(self.next_level(cur).len() == 0);
            if n - d > 0 {
                assert(self.levels_from(self.next_level(cur), (n - d - 1) as nat).len() == 0);
            }
            assert(self.levels_from(cur, (n - d) as nat) =~= cur);
            self.lemma_breadth_first_covers_subtree(start_index);
        }
        order
    }

    /// Whether `a` lies on the chain of parents from `x` up to the root
    /// (`x` itself included).
    pub open spec fn descends_from(&self, x: int, a: int) -> bool
        decreases x,
    {
        if x == a {
            true
        } else if 0 < x < self.node_seq().len() && self.node_seq()[x].parent is Some && 0
            <= self.parent_index(x) < x {
            self.descends_from(self.parent_index(x), a)
        } else {
            false
        }
    }

    /// Every node descends from the root.
    pub proof fn lemma_root_reaches_every_node(&self, x: int)
        requires
            self.wf(),
            0 <= x < self.node_seq().len(),
        ensures
            self.descends_from(x, 0),
        decreases x,
    {
        if x > 0 {
            assert(self.node_seq()[x].parent is Some);
            self.lemma_root_reaches_every_node(self.parent_index(x));
        }
    }

    /// A descendant lies at least as deep as its ancestor, strictly deeper
    /// when it is another node.
    proof fn lemma_descendant_depth(&self, x: int, a: int)
        requires
            self.wf(),
            0 <= a < self.node_seq().len(),
            0 <= x < self.node_seq().len(),
            self.descends_from(x, a),
        ensures
            self.depth_of(x) >= self.depth_of(a),
            x != a ==> self.depth_of(x) > self.depth_of(a),
        decreases x,
    {
        if x != a {
            assert(self.node_seq()[x].parent is Some);
            self.lemma_descendant_depth(self.parent_index(x), a);
        }
    }

    /// When no descendant of `s` lies at depth `depth`, none lies deeper.
    proof fn lemma_no_descendant_below(&self, s: int, depth: int, x: int)
        requires
            self.wf(),
            0 <= s < self.node_seq().len(),
            self.depth_of(s) <= depth,
            forall|y: usize|
                y < self.node_seq().len() && #[trigger] self.descends_from(y as int, s)
                    ==> self.depth_of(y as int) != depth,
            0 <= x < self.node_seq().len(),
            self.descends_from(x, s),
        ensures
            self.depth_of(x) < depth,
        decreases x,
    {
        self.lemma_descendant_depth(x, s);
        if x != s && self.depth_of(x) > depth {
            assert(self.node_seq()[x].parent is Some);
            self.lemma_no_descendant_below(s, depth, self.parent_index(x));
        }
    }

    /// `levels_from` run from the descendants of `s` at depth `depth` yields
    /// each descendant of `s` at that depth or deeper, each exactly once.
    proof fn lemma_levels_from(&self, s: int, level: Seq<usize>, depth: int, fuel: nat)
        requires
            self.wf(),
            0 <= s < self.node_seq().len(),
            self.depth_of(s) <= depth,
            depth + fuel >= self.node_seq().len() - 1,
            level.no_duplicates(),
            forall|i: int| 0 <= i < level.len() ==> #[trigger] level[i] < self.node_seq().len(),
            forall|x: usize|
                #[trigger] level.contains(x) <==> (x < self.node_seq().len() && self.descends_from(x as int, s)
                    && self.depth_of(x as int) == depth),
        ensures
            self.levels_from(level, fuel).no_duplicates(),
            forall|x: usize|
                #[trigger] self.levels_from(level, fuel).contains(x) <==> (x < self.node_seq().len()
                    && self.descends_from(x as int, s) && self.depth_of(x as int) >= depth),
            forall|i: int|
                0 <= i < self.levels_from(level, fuel).len() ==> self.depth_of(
                    #[trigger] self.levels_from(level, fuel)[i] as int,
                ) >= depth,
            forall|i: int, j: int|
                0 <= i < j < self.levels_from(level, fuel).len() ==> self.depth_of(
                    #[trigger] self.levels_from(level, fuel)[i] as int,
                ) <= self.depth_of(#[trigger] self.levels_from(level, fuel)[j] as int),
        decreases fuel,
    {
        let n = self.node_seq().len();
        let all = self.levels_from(level, fuel);
        if fuel == 0 || level.len() == 0 {
            assert forall|i: int| 0 <= i < all.len() implies self.depth_of(#[trigger] all[i] as int)
                == depth by {
                assert(level.contains(level[i]));
            }
            assert forall|x: usize|
                x < n && self.descends_from(x as int, s) && self.depth_of(x as int) >= depth implies level.contains(x) by {
                if fuel == 0 {
                    self.lemma_depth_le_index(x as int);
                } else {
                    assert forall|y: usize|
                        y < n && #[trigger] self.descends_from(y as int, s) implies self.depth_of(
                        y as int,
                    ) != depth by {
                        if self.depth_of(y as int) == depth {
                            assert(level.contains(y));
                        }
                    }
                    self.lemma_no_descendant_below(s, depth, x as int);
                }
            }
        } else {
            self.lemma_next_level(level);
            let nxt = self.next_level(level);
            assert forall|c: usize|
                #[trigger] nxt.contains(c) <==> (c < n && self.descends_from(c as int, s) && self.depth_of(
                    c as int,
                ) == depth + 1) by {
                if nxt.contains(c) {
                    let p = self.parent_index(c as int);
                    assert(self.node_seq()[c as int].parent is Some);
                    assert(level.contains(p as usize));
                    self.lemma_descendant_depth(p, s);
                }
                if c < n && self.descends_from(c as int, s) && self.depth_of(c as int) == depth
                    + 1 {
                    self.lemma_descendant_depth(c as int, s);
                    assert(self.node_seq()[c as int].parent is Some);
                    let p = self.parent_index(c as int);
                    assert(level.contains(p as usize));
                }
            }
            self.lemma_levels_from(s, nxt, depth + 1, (fuel - 1) as nat);
            let rest = self.levels_from(nxt, (fuel - 1) as nat);
            assert(all == level + rest);
            assert forall|x: usize|
                all.contains(x) <==> (x < n && self.descends_from(x as int, s) && self.depth_of(
                    x as int,
                ) >= depth) by {
                if all.contains(x) {
                    let i = choose|i: int| 0 <= i < all.len() && all[i] == x;
                    if i < level.len() {
                        assert(all[i] == level[i]);
                        assert(level.contains(x));
                    } else {
                        assert(rest[i - level.len()] == x);
                        assert(rest.contains(x));
                    }
                }
                if x < n && self.descends_from(x as int, s) && self.depth_of(x as int) >= depth {
                    if self.depth_of(x as int) == depth {
                        assert(level.contains(x));
                        let i = choose|i: int| 0 <= i < level.len() && level[i] == x;
                        assert(all[i] == x);
                    } else {
                        assert(rest.contains(x));
                        let i = choose|i: int| 0 <= i < rest.len() && rest[i] == x;
                        assert(all[level.len() + i] == x);
                    }
                    assert(all.contains(x));
                }
            }
            assert forall|i: int| 0 <= i < all.len() implies self.depth_of(#[trigger] all[i] as int)
                >= depth by {
                if i < level.len() {
                    assert(level.contains(level[i]));
                } else {
                    assert(all[i] == rest[i - level.len()]);
                }
            }
            assert forall|i: int, j: int| 0 <= i < j < all.len() implies self.depth_of(
                #[trigger] all[i] as int,
            ) <= self.depth_of(#[trigger] all[j] as int) by {
                if j < level.len() {
                    assert(level.contains(level[i]));
                    assert(level.contains(level[j]));
                } else if i >= level.len() {
                    assert(all[i] == rest[i - level.len()]);
                    assert(all[j] == rest[j - level.len()]);
                } else {
                    assert(level.contains(level[i]));
                    assert(all[j] == rest[j - level.len()]);
                }
            }
            assert forall|i: int, j: int| 0 <= i < j < all.len() implies all[i] != all[j] by {
                if j < level.len() {
                } else if i >= level.len() {
                    assert(all[i] == rest[i - level.len()]);
                    assert(all[j] == rest[j - level.len()]);
                } else {
                    assert(level.contains(all[i]));
                    assert(all[j] == rest[j - level.len()]);
                    assert(rest.contains(all[j]));
                }
            }
        }
    }

    /// The breadth-first order from `start` begins with `start` and lists
    /// every node below `start` (itself included) exactly once, and nothing
    /// else.
    pub proof fn lemma_breadth_first_covers_subtree(&self, start: usize)
        requires
            self.wf(),
            start < self.node_seq().len(),
        ensures
            self.breadth_first_from(start as int).len() > 0,
            self.breadth_first_from(start as int)[0] == start,
            self.breadth_first_from(start as int).no_duplicates(),
            forall|x: usize|
                #[trigger] self.breadth_first_from(start as int).contains(x) <==> (x < self.node_seq().len()
                    && self.descends_from(x as int, start as int)),
            forall|i: int, j: int|
                0 <= i < j < self.breadth_first_from(start as int).len() ==> self.depth_of(
                    #[trigger] self.breadth_first_from(start as int)[i] as int,
                ) <= self.depth_of(#[trigger] self.breadth_first_from(start as int)[j] as int),
    {
        let s = start as int;
        let level = seq![start];
        assert forall|x: usize|
            level.contains(x) <==> (x < self.node_seq().len() && self.descends_from(x as int, s)
                && self.depth_of(x as int) == self.depth_of(s)) by {
            if x < self.node_seq().len() && self.descends_from(x as int, s) && self.depth_of(
                x as int,
            ) == self.depth_of(s) {
                self.lemma_descendant_depth(x as int, s);
                assert(level[0] == x);
            }
            if level.contains(x) {
                assert(level[0] == x);
            }
        }
        self.lemma_levels_from(s, level, self.depth_of(s), self.node_seq().len());
        assert forall|x: usize|
            x < self.node_seq().len() && self.descends_from(x as int, s) implies self.depth_of(
            x as int,
        ) >= self.depth_of(s) by {
            self.lemma_descendant_depth(x as int, s);
        }
        assert(self.breadth_first_from(s) == level + self.levels_from(
            self.next_level(level),
            (self.node_seq().len() - 1) as nat,
        ));
    }
}

} // verus!
