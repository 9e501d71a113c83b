//! Which steps wait for which.

use vstd::prelude::*;

verus! {

// ---------- waiting ----------

/// Every member of `s` is one of `n` steps and waits for a member of `s`. A
/// pair of `links` says that its second step waits for its first.
pub open spec fn is_waiting_set(n: int, links: Set<(int, int)>, s: Set<int>) -> bool {
    forall|t: int| #[trigger]
        s.contains(t) ==> 0 <= t < n && exists|f: int| #[trigger]
            s.contains(f) && links.contains((f, t))
}

/// Step `i` can never run: it belongs to steps that wait for each other.
pub open spec fn is_stuck(n: int, links: Set<(int, int)>, i: int) -> bool {
    exists|s: Set<int>| #[trigger] is_waiting_set(n, links, s) && s.contains(i)
}

/// Some step can never run.
pub open spec fn has_stuck(n: int, links: Set<(int, int)>) -> bool {
    exists|i: int| is_stuck(n, links, i)
}

/// `t` is among the children of `f`.
pub open spec fn is_child(children: Seq<Vec<usize>>, f: int, t: int) -> bool {
    exists|k: int| 0 <= k < children[f]@.len() && #[trigger] children[f]@[k] == t
}

/// How many of the first `k` steps have the child `t` and are not done.
pub open spec fn open_parents(children: Seq<Vec<usize>>, done: Seq<bool>, t: int, k: int) -> int
    decreases k,
{
    if k <= 0 {
        0
    } else {
        open_parents(children, done, t, k - 1) + if is_child(children, k - 1, t) && !done[k - 1] {
            1int
        } else {
            0int
        }
    }
}

/// How many steps are not done, among the first `k`.
pub open spec fn open_steps(done: Seq<bool>, k: int) -> int
    decreases k,
{
    if k <= 0 {
        0
    } else {
        open_steps(done, k - 1) + if !done[k - 1] {
            1int
        } else {
            0int
        }
    }
}

/// A count of parents is no more than there are steps; it is zero where every
/// parent is done, and only there.
pub proof fn lemma_open_parents(children: Seq<Vec<usize>>, done: Seq<bool>, t: int, k: int)
    requires
        0 <= k,
    ensures
        0 <= open_parents(children, done, t, k) <= k,
        open_parents(children, done, t, k) == 0 <==> (forall|f: int|
            0 <= f < k && #[trigger] is_child(children, f, t) ==> done[f]),
    decreases k,
{
    if k > 0 {
        lemma_open_parents(children, done, t, k - 1);
        if open_parents(children, done, t, k) == 0 {
            assert(forall|f: int|
                0 <= f < k - 1 && #[trigger] is_child(children, f, t) ==> done[f]);
        }
        if forall|f: int| 0 <= f < k && #[trigger] is_child(children, f, t) ==> done[f] {
            assert(is_child(children, k - 1, t) ==> done[k - 1]);
        }
    }
}

/// Finishing step `i` takes one off the count of each of its children.
proof fn lemma_parent_done(children: Seq<Vec<usize>>, done: Seq<bool>, i: int, t: int, k: int)
    requires
        0 <= i < done.len(),
        !done[i],
        0 <= k <= done.len(),
    ensures
        open_parents(children, done.update(i, true), t, k) == open_parents(children, done, t, k)
            - if i < k && is_child(children, i, t) {
            1int
        } else {
            0int
        },
    decreases k,
{
    if k > 0 {
        lemma_parent_done(children, done, i, t, k - 1);
    }
}

/// A count looks at the children of the first `k` steps only for `t`.
proof fn lemma_same_children(
    c1: Seq<Vec<usize>>,
    c2: Seq<Vec<usize>>,
    done: Seq<bool>,
    t: int,
    k: int,
)
    requires
        forall|f: int| 0 <= f < k ==> #[trigger] is_child(c1, f, t) == is_child(c2, f, t),
    ensures
        open_parents(c1, done, t, k) == open_parents(c2, done, t, k),
    decreases k,
{
    if k > 0 {
        lemma_same_children(c1, c2, done, t, k - 1);
        assert(is_child(c1, k - 1, t) == is_child(c2, k - 1, t));
    }
}

/// A new child of `f` adds one to its own count and to no other.
proof fn lemma_new_child(
    c1: Seq<Vec<usize>>,
    c2: Seq<Vec<usize>>,
    done: Seq<bool>,
    f: int,
    t: int,
    k: int,
)
    requires
        0 <= f,
        !is_child(c1, f, t),
        is_child(c2, f, t),
        !done[f],
        forall|g: int| 0 <= g < k && g != f ==> #[trigger] is_child(c1, g, t) == is_child(c2, g, t),
    ensures
        open_parents(c2, done, t, k) == open_parents(c1, done, t, k) + if f < k {
            1int
        } else {
            0int
        },
    decreases k,
{
    if k > 0 {
        lemma_new_child(c1, c2, done, f, t, k - 1);
        if k - 1 != f {
            assert(is_child(c1, k - 1, t) == is_child(c2, k - 1, t));
        }
    }
}

/// A count of open steps is not negative.
pub proof fn lemma_open_steps(done: Seq<bool>, k: int)
    ensures
        0 <= open_steps(done, k),
    decreases k,
{
    if k > 0 {
        lemma_open_steps(done, k - 1);
    }
}

/// Finishing one more step leaves one less open.
pub proof fn lemma_step_done(done: Seq<bool>, i: int, k: int)
    requires
        0 <= i < done.len(),
        !done[i],
        0 <= k <= done.len(),
    ensures
        open_steps(done.update(i, true), k) == open_steps(done, k) - if i < k {
            1int
        } else {
            0int
        },
        0 <= open_steps(done, k) <= k,
    decreases k,
{
    if k > 0 {
        lemma_step_done(done, i, k - 1);
    }
}

// ---------- the graph ----------

/// The steps of a batch, by number, with the steps that wait for each.
pub struct Graph {
    /// For each step, the steps that wait for it, each once.
    pub children: Vec<Vec<usize>>,
    /// For each step, how many steps it waits for.
    pub indegree: Vec<usize>,
}

/// The pairs of a list.
pub open spec fn pairs(v: Seq<(usize, usize)>) -> Set<(int, int)> {
    Set::new(
        |p: (int, int)|
            exists|k: int|
                0 <= k < v.len() && (#[trigger] v[k]).0 == p.0 && v[k].1 == p.1,
    )
}

impl Graph {
    /// How many steps there are.
    pub open spec fn size(self) -> int {
        self.children@.len() as int
    }

    /// Which step waits for which.
    pub open spec fn links(self) -> Set<(int, int)> {
        Set::new(|p: (int, int)| 0 <= p.0 < self.size() && is_child(self.children@, p.0, p.1))
    }

    /// Children are steps, named once each; the counts are those of the
    /// parents.
    pub open spec fn wf(self) -> bool {
        &&& self.indegree@.len() == self.size()
        &&& self.children_wf()
        &&& self.counts_wf(self.indegree@, Seq::new(self.size() as nat, |i: int| false))
    }

    /// Children are steps, named once each.
    pub open spec fn children_wf(self) -> bool {
        &&& forall|f: int, k: int|
            0 <= f < self.size() && 0 <= k < self.children@[f]@.len() ==> (
            #[trigger] self.children@[f]@[k]) < self.size()
        &&& forall|f: int, j: int, k: int|
            0 <= f < self.size() && 0 <= j < k < self.children@[f]@.len() ==> (
            #[trigger] self.children@[f]@[j]) != (#[trigger] self.children@[f]@[k])
    }

    /// `counts` are the numbers of parents that are not done.
    pub open spec fn counts_wf(self, counts: Seq<usize>, done: Seq<bool>) -> bool {
        &&& counts.len() == self.size()
        &&& done.len() == self.size()
        &&& forall|t: int|
            0 <= t < self.size() ==> #[trigger] counts[t] == open_parents(
                self.children@,
                done,
                t,
                self.size(),
            )
    }

    /// The graph of `n` steps with the given pairs, of which the second step
    /// waits for the first.
    pub fn build(n: usize, edges: &Vec<(usize, usize)>) -> (r: Graph)
        requires
            forall|k: int|
                0 <= k < edges@.len() ==> (#[trigger] edges@[k]).0 < n && edges@[k].1 < n,
        ensures
            r.wf(),
            r.size() == n,
            r.links() == pairs(edges@),
    {
        let mut g = Graph { children: Vec::new(), indegree: Vec::new() };
        let mut i: usize = 0;
        while i < n
            invariant
                i <= n,
                g.children@.len() == i,
                g.indegree@.len() == i,
                forall|f: int| 0 <= f < i ==> (#[trigger] g.children@[f])@.len() == 0,
                forall|f: int| 0 <= f < i ==> #[trigger] g.indegree@[f] == 0,
            decreases n - i,
        {
            g.children.push(Vec::new());
            g.indegree.push(0);
            i += 1;
        }
        let ghost none = Seq::new(n as nat, |i: int| false);
        proof {
            assert forall|t: int| 0 <= t < n implies #[trigger] g.indegree@[t] == open_parents(
                g.children@,
                none,
                t,
                n as int,
            ) by {
                lemma_open_parents(g.children@, none, t, n as int);
            }
        }
        let mut k: usize = 0;
        while k < edges.len()
            invariant
                k <= edges@.len(),
                forall|k: int|
                    0 <= k < edges@.len() ==> (#[trigger] edges@[k]).0 < n && edges@[k].1 < n,
                g.size() == n,
                g.children_wf(),
                none == Seq::new(n as nat, |i: int| false),
                g.counts_wf(g.indegree@, none),
                forall|f: int, t: int|
                    0 <= f < n ==> (#[trigger] is_child(g.children@, f, t) <==> pairs(
                        edges@.take(k as int),
                    ).contains((f, t))),
            decreases edges@.len() - k,
        {
            let f: usize = edges[k].0;
            let t: usize = edges[k].1;
            let ghost before = g;
            let known = lists(&g.children[f], t);
            proof {
                let now = edges@.take(k + 1);
                let past = edges@.take(k as int);
                assert forall|p: (int, int)|
                    pairs(now).contains(p) <==> pairs(past).contains(p) || p == (f as int, t as int) by {
                    if pairs(past).contains(p) {
                        let j = choose|j: int|
                            0 <= j < past.len() && (#[trigger] past[j]).0 == p.0 && past[j].1 == p.1;
                        assert(now[j] == past[j]);
                    }
                    if pairs(now).contains(p) && p != (f as int, t as int) {
                        let j = choose|j: int|
                            0 <= j < now.len() && (#[trigger] now[j]).0 == p.0 && now[j].1 == p.1;
                        assert(j != k);
                        assert(now[j] == past[j]);
                    }
                    assert(now[k as int] == edges@[k as int]);
                }
            }
            if !known {
                proof {
                    lemma_open_parents(g.children@, none, t as int, n as int);
                }
                let ghost c1 = g.children@;
                g.children[f].push(t);
                let ghost c2 = g.children@;
                proof {
                    assert(c2[f as int]@ == c1[f as int]@.push(t));
                    assert forall|h: int, u: int| 0 <= h < n implies (#[trigger] is_child(c2, h, u)
                        <==> is_child(c1, h, u) || (h == f && u == t)) by {
                        if is_child(c1, h, u) {
                            let j = choose|j: int|
                                0 <= j < c1[h]@.len() && #[trigger] c1[h]@[j] == u;
                            assert(c2[h]@[j] == u);
                        }
                        if h == f && u == t {
                            assert(c2[h]@[c1[h]@.len() as int] == u);
                        }
                        if is_child(c2, h, u) {
                            let j = choose|j: int|
                                0 <= j < c2[h]@.len() && #[trigger] c2[h]@[j] == u;
                            if j < c1[h]@.len() {
                                assert(c1[h]@[j] == u);
                            }
                        }
                    }
                    assert(is_child(c2, f as int, t as int));
                    assert(!is_child(c1, f as int, t as int));
                    lemma_new_child(c1, c2, none, f as int, t as int, n as int);
                    lemma_open_parents(c2, none, t as int, n as int);
                }
                g.indegree.set(t, g.indegree[t] + 1);
                proof {
                    assert forall|u: int| 0 <= u < n implies #[trigger] g.indegree@[u]
                        == open_parents(c2, none, u, n as int) by {
                        if u != t {
                            lemma_same_children(c1, c2, none, u, n as int);
                            assert(g.indegree@[u] == before.indegree@[u]);
                        }
                    }
                }
            }
            k += 1;
        }
        proof {
            assert(edges@.take(k as int) == edges@);
            assert forall|p: (int, int)| g.links().contains(p) <==> pairs(edges@).contains(p) by {
                if pairs(edges@).contains(p) {
                    let j = choose|j: int|
                        0 <= j < edges@.len() && (#[trigger] edges@[j]).0 == p.0 && edges@[j].1
                            == p.1;
                    assert(edges@[j].0 < n);
                }
                assert(0 <= p.0 < n ==> (is_child(g.children@, p.0, p.1) <==> pairs(
                    edges@,
                ).contains((p.0, p.1))));
            }
            assert(g.links() =~= pairs(edges@));
        }
        g
    }
}

impl Graph {
    /// Marks step `i` as done and takes it off the counts of the steps that
    /// wait for it.
    pub fn retire(&self, counts: &mut Vec<usize>, done: &mut Vec<bool>, i: usize)
        requires
            self.children_wf(),
            self.counts_wf(old(counts)@, old(done)@),
            i < self.size(),
            !old(done)@[i as int],
        ensures
            final(done)@ == old(done)@.update(i as int, true),
            self.counts_wf(final(counts)@, final(done)@),
    {
        let ghost was = done@;
        done.set(i, true);
        let ghost kids = self.children@[i as int]@;
        proof {
            assert forall|t: int| 0 <= t < self.size() implies #[trigger] counts@[t]
                == open_parents(self.children@, done@, t, self.size()) + if exists|j: int|
                0 <= j < kids.len() && #[trigger] kids[j] == t {
                1int
            } else {
                0int
            } by {
                lemma_parent_done(self.children@, was, i as int, t, self.size());
            }
        }
        let mut k: usize = 0;
        while k < self.children[i].len()
            invariant
                k <= kids.len(),
                i < self.size(),
                kids == self.children@[i as int]@,
                self.children_wf(),
                counts@.len() == self.size(),
                done@.len() == self.size(),
                forall|t: int|
                    0 <= t < self.size() ==> #[trigger] counts@[t] == open_parents(
                        self.children@,
                        done@,
                        t,
                        self.size(),
                    ) + if exists|j: int| k <= j < kids.len() && #[trigger] kids[j] == t {
                        1int
                    } else {
                        0int
                    },
            decreases kids.len() - k,
        {
            let c: usize = self.children[i][k];
            let ghost counts0 = counts@;
            proof {
                assert(kids[k as int] == c);
                lemma_open_parents(self.children@, done@, c as int, self.size());
            }
            counts.set(c, counts[c] - 1);
            k += 1;
            proof {
                assert forall|t: int| 0 <= t < self.size() implies #[trigger] counts@[t]
                    == open_parents(self.children@, done@, t, self.size()) + if exists|j: int|
                    k <= j < kids.len() && #[trigger] kids[j] == t {
                    1int
                } else {
                    0int
                } by {
                    if t == c {
                        assert(forall|j: int|
                            k <= j < kids.len() ==> #[trigger] kids[j] != kids[k - 1]);
                    } else {
                        assert(counts@[t] == counts0[t]);
                        assert(kids[k - 1] != t);
                        if exists|j: int| k - 1 <= j < kids.len() && #[trigger] kids[j] == t {
                            let j = choose|j: int|
                                k - 1 <= j < kids.len() && #[trigger] kids[j] == t;
                            assert(k <= j);
                        }
                    }
                }
            }
        }
    }

    /// For each step, whether it can never run because steps wait for each
    /// other.
    pub fn stuck(&self) -> (r: Vec<bool>)
        requires
            self.wf(),
        ensures
            r@.len() == self.size(),
            forall|i: int|
                0 <= i < self.size() ==> #[trigger] r@[i] == is_stuck(
                    self.size(),
                    self.links(),
                    i,
                ),
    {
        let n: usize = self.children.len();
        let mut counts: Vec<usize> = Vec::new();
        let mut done: Vec<bool> = Vec::new();
        let mut queued: Vec<bool> = Vec::new();
        let mut i: usize = 0;
        while i < n
            invariant
                i <= n,
                n == self.size(),
                self.wf(),
                counts@ == self.indegree@.take(i as int),
                done@ == Seq::new(i as nat, |j: int| false),
                queued@ == Seq::new(i as nat, |j: int| false),
            decreases n - i,
        {
            counts.push(self.indegree[i]);
            done.push(false);
            queued.push(false);
            i += 1;
            proof {
                assert(counts@ =~= self.indegree@.take(i as int));
                assert(done@ =~= Seq::new(i as nat, |j: int| false));
                assert(queued@ =~= Seq::new(i as nat, |j: int| false));
            }
        }
        assert(counts@ =~= self.indegree@);
        let mut queue: Vec<usize> = Vec::new();
        self.enqueue(&counts, &done, &mut queued, &mut queue, 0);
        let mut head: usize = 0;
        while head < queue.len()
            invariant
                n == self.size(),
                self.wf(),
                self.counts_wf(counts@, done@),
                self.queue_wf(done@, queued@, queue@, head as int),
                forall|j: int| 0 <= j < n ==> #[trigger] queued@[j] == (counts@[j] == 0),
            decreases open_steps(done@, n as int),
        {
            let node: usize = queue[head];
            let ghost done0 = done@;
            proof {
                assert(done@[queue@[head as int] as int] == (head < head));
                lemma_step_done(done@, node as int, n as int);
            }
            self.retire(&mut counts, &mut done, node);
            head += 1;
            proof {
                lemma_open_steps(done@, n as int);
                self.lemma_queue_head(done0, queued@, queue@, head - 1);
                assert forall|j: int| 0 <= j < n && #[trigger] queued@[j] implies counts@[j]
                    == 0 by {
                    self.lemma_stays_free(done0, node as int, j);
                }
            }
            self.enqueue(&counts, &done, &mut queued, &mut queue, head);
        }
        let mut out: Vec<bool> = Vec::new();
        let mut j: usize = 0;
        while j < n
            invariant
                j <= n,
                n == done@.len(),
                out@.len() == j,
                forall|i: int| 0 <= i < j ==> #[trigger] out@[i] == !done@[i],
            decreases n - j,
        {
            out.push(!done[j]);
            j += 1;
        }
        proof {
            assert forall|t: int| 0 <= t < n && #[trigger] counts@[t] == 0 implies done@[t] by {
                assert(queued@[t]);
                let k = choose|k: int| 0 <= k < queue@.len() && #[trigger] queue@[k] == t;
                assert(done@[queue@[k] as int] == (k < head));
            }
            assert forall|t: int| 0 <= t < n && #[trigger] done@[t] implies !is_stuck(
                self.size(),
                self.links(),
                t,
            ) by {
                assert(queued@[t]);
            }
            self.lemma_left(counts@, done@);
        }
        out
    }

    /// The queue holds each queued step once; the steps in front of `head` are
    /// done and no others; no queued step is stuck.
    spec fn queue_wf(
        self,
        done: Seq<bool>,
        queued: Seq<bool>,
        queue: Seq<usize>,
        head: int,
    ) -> bool {
        &&& done.len() == self.size()
        &&& queued.len() == self.size()
        &&& 0 <= head <= queue.len()
        &&& forall|k: int| 0 <= k < queue.len() ==> (#[trigger] queue[k]) < self.size()
        &&& forall|k: int| 0 <= k < queue.len() ==> queued[#[trigger] queue[k] as int]
        &&& forall|k: int| 0 <= k < queue.len() ==> done[#[trigger] queue[k] as int] == (k < head)
        &&& forall|j: int, k: int|
            0 <= j < k < queue.len() ==> #[trigger] queue[j] != #[trigger] queue[k]
        &&& forall|j: int|
            0 <= j < self.size() && #[trigger] queued[j] ==> exists|k: int|
                0 <= k < queue.len() && #[trigger] queue[k] == j
        &&& forall|j: int| 0 <= j < self.size() && #[trigger] done[j] ==> queued[j]
        &&& forall|j: int|
            0 <= j < self.size() && #[trigger] queued[j] ==> !is_stuck(
                self.size(),
                self.links(),
                j,
            )
    }

    /// Doing the step at the head moves the head on.
    proof fn lemma_queue_head(
        self,
        done: Seq<bool>,
        queued: Seq<bool>,
        queue: Seq<usize>,
        head: int,
    )
        requires
            self.queue_wf(done, queued, queue, head),
            head < queue.len(),
        ensures
            self.queue_wf(done.update(queue[head] as int, true), queued, queue, head + 1),
    {
        let next = done.update(queue[head] as int, true);
        assert(queued[queue[head] as int]);
        assert forall|k: int| 0 <= k < queue.len() implies next[#[trigger] queue[k] as int] == (k
            < head + 1) by {
            if k < head {
                assert(queue[k] != queue[head]);
            }
            if k > head {
                assert(queue[head] != queue[k]);
            }
        }
    }

    /// Queueing a step that is not stuck keeps the queue in order.
    proof fn lemma_queue_push(
        self,
        done: Seq<bool>,
        queued: Seq<bool>,
        queue: Seq<usize>,
        head: int,
        j: usize,
    )
        requires
            self.queue_wf(done, queued, queue, head),
            j < self.size(),
            !queued[j as int],
            !is_stuck(self.size(), self.links(), j as int),
        ensures
            self.queue_wf(done, queued.update(j as int, true), queue.push(j), head),
    {
        let q2 = queued.update(j as int, true);
        let u2 = queue.push(j);
        assert(u2[queue.len() as int] == j);
        assert forall|i: int| 0 <= i < self.size() && #[trigger] q2[i] implies exists|k: int|
            0 <= k < u2.len() && #[trigger] u2[k] == i by {
            if i != j {
                assert(queued[i]);
                let k = choose|k: int| 0 <= k < queue.len() && #[trigger] queue[k] == i;
                assert(u2[k] == i);
            }
        }
        assert forall|i: int| 0 <= i < self.size() && #[trigger] q2[i] implies !is_stuck(
            self.size(),
            self.links(),
            i,
        ) by {
            if i != j {
                assert(queued[i]);
            }
        }
        assert forall|k: int| 0 <= k < u2.len() implies done[#[trigger] u2[k] as int] == (k
            < head) by {
            if k == queue.len() {
                assert(!done[j as int]);
            } else {
                assert(u2[k] == queue[k]);
            }
        }
        assert forall|k: int| 0 <= k < u2.len() implies q2[#[trigger] u2[k] as int] by {
            if k < queue.len() {
                assert(u2[k] == queue[k]);
            }
        }
        assert forall|a: int, b: int| 0 <= a < b < u2.len() implies #[trigger] u2[a]
            != #[trigger] u2[b] by {
            assert(u2[a] == queue[a]);
            if b < queue.len() {
                assert(u2[b] == queue[b]);
            } else {
                assert(queued[queue[a] as int]);
            }
        }
    }

    /// Queues every step that waits for nothing more and is not queued yet.
    fn enqueue(
        &self,
        counts: &Vec<usize>,
        done: &Vec<bool>,
        queued: &mut Vec<bool>,
        queue: &mut Vec<usize>,
        head: usize,
    )
        requires
            self.wf(),
            self.counts_wf(counts@, done@),
            self.queue_wf(done@, old(queued)@, old(queue)@, head as int),
            forall|j: int| 0 <= j < self.size() && #[trigger] old(queued)@[j] ==> counts@[j] == 0,
        ensures
            self.queue_wf(done@, final(queued)@, final(queue)@, head as int),
            forall|j: int|
                0 <= j < self.size() ==> #[trigger] final(queued)@[j] == (counts@[j] == 0),
    {
        let n: usize = self.children.len();
        let mut j: usize = 0;
        while j < n
            invariant
                j <= n,
                n == self.size(),
                self.counts_wf(counts@, done@),
                self.queue_wf(done@, queued@, queue@, head as int),
                forall|i: int| 0 <= i < n && #[trigger] queued@[i] ==> counts@[i] == 0,
                forall|i: int| 0 <= i < j && counts@[i] == 0 ==> #[trigger] queued@[i],
            decreases n - j,
        {
            if counts[j] == 0 && !queued[j] {
                proof {
                    assert forall|i: int| 0 <= i < n && #[trigger] done@[i] implies !is_stuck(
                        self.size(),
                        self.links(),
                        i,
                    ) by {
                        assert(queued@[i]);
                    }
                    self.lemma_free(counts@, done@, j as int);
                    self.lemma_queue_push(done@, queued@, queue@, head as int, j);
                }
                queue.push(j);
                queued.set(j, true);
            }
            j += 1;
        }
    }

    /// A step that waits for nothing more does so after another step is done.
    proof fn lemma_stays_free(self, done: Seq<bool>, i: int, t: int)
        requires
            0 <= i < self.size(),
            done.len() == self.size(),
            0 <= t < self.size(),
            open_parents(self.children@, done, t, self.size()) == 0,
        ensures
            open_parents(self.children@, done.update(i, true), t, self.size()) == 0,
    {
        let next = done.update(i, true);
        lemma_open_parents(self.children@, done, t, self.size());
        lemma_open_parents(self.children@, next, t, self.size());
        assert forall|f: int| 0 <= f < self.size() && #[trigger] is_child(
            self.children@,
            f,
            t,
        ) implies next[f] by {
            assert(done[f]);
        }
    }

    /// Where every step that waits for nothing more is done, and no done step
    /// is stuck, the steps that are not done are the stuck ones.
    proof fn lemma_left(self, counts: Seq<usize>, done: Seq<bool>)
        requires
            self.counts_wf(counts, done),
            forall|t: int| 0 <= t < self.size() && #[trigger] counts[t] == 0 ==> done[t],
            forall|t: int|
                0 <= t < self.size() && #[trigger] done[t] ==> !is_stuck(
                    self.size(),
                    self.links(),
                    t,
                ),
        ensures
            forall|t: int|
                0 <= t < self.size() ==> #[trigger] done[t] == !is_stuck(
                    self.size(),
                    self.links(),
                    t,
                ),
    {
        let left = Set::new(|t: int| 0 <= t < self.size() && !done[t]);
        assert forall|t: int| #[trigger] left.contains(t) implies 0 <= t < self.size() && exists|f: int| #[trigger]
            left.contains(f) && self.links().contains((f, t)) by {
            assert(counts[t] != 0);
            lemma_open_parents(self.children@, done, t, self.size());
            let f = choose|f: int|
                0 <= f < self.size() && #[trigger] is_child(self.children@, f, t) && !done[f];
            assert(left.contains(f));
            assert(self.links().contains((f, t)));
        }
        assert(is_waiting_set(self.size(), self.links(), left));
        assert forall|t: int| 0 <= t < self.size() implies #[trigger] done[t] == !is_stuck(
            self.size(),
            self.links(),
            t,
        ) by {
            if !done[t] {
                assert(left.contains(t));
            }
        }
    }

    /// A step whose parents are all done, none of them stuck, is not stuck.
    proof fn lemma_free(self, counts: Seq<usize>, done: Seq<bool>, t: int)
        requires
            self.counts_wf(counts, done),
            0 <= t < self.size(),
            counts[t] == 0,
            forall|j: int|
                0 <= j < self.size() && #[trigger] done[j] ==> !is_stuck(
                    self.size(),
                    self.links(),
                    j,
                ),
        ensures
            !is_stuck(self.size(), self.links(), t),
    {
        if is_stuck(self.size(), self.links(), t) {
            let s = choose|s: Set<int>| #[trigger]
                is_waiting_set(self.size(), self.links(), s) && s.contains(t);
            let f = choose|f: int| #[trigger] s.contains(f) && self.links().contains((f, t));
            assert(is_stuck(self.size(), self.links(), f));
            lemma_open_parents(self.children@, done, t, self.size());
            assert(is_child(self.children@, f, t));
            assert(done[f]);
        }
    }
}

/// Whether `v` lists `x`.
fn lists(v: &Vec<usize>, x: usize) -> (r: bool)
    ensures
        r == exists|k: int| 0 <= k < v@.len() && #[trigger] v@[k] == x,
{
    let mut k: usize = 0;
    while k < v.len()
        invariant
            k <= v@.len(),
            forall|j: int| 0 <= j < k ==> #[trigger] v@[j] != x,
        decreases v@.len() - k,
    {
        if v[k] == x {
            return true;
        }
        k += 1;
    }
    false
}

// ---------- orders and cycles ----------

/// `order` names each of `n` steps once, each after all that it waits for.
pub open spec fn is_order(n: int, links: Set<(int, int)>, order: Seq<int>) -> bool {
    &&& order.len() == n
    &&& is_placing(n, order)
    &&& forall|i: int, j: int|
        0 <= i < n && 0 <= j < n && links.contains((#[trigger] order[i], #[trigger] order[j])) ==> i
            < j
}

/// `order` names steps below `n`, none twice.
pub open spec fn is_placing(n: int, order: Seq<int>) -> bool {
    &&& forall|k: int| 0 <= k < order.len() ==> 0 <= #[trigger] order[k] < n
    &&& order.no_duplicates()
}

/// `path` leads from step to waiting step and back to where it began.
pub open spec fn is_cycle(n: int, links: Set<(int, int)>, path: Seq<int>) -> bool {
    &&& path.len() > 0
    &&& forall|k: int| 0 <= k < path.len() ==> 0 <= #[trigger] path[k] < n
    &&& forall|j: int, k: int|
        0 <= j && j + 1 == k && k < path.len() ==> links.contains(
            (#[trigger] path[j], #[trigger] path[k]),
        )
    &&& links.contains((path.last(), path[0]))
}

/// At most `n` different numbers are below `n`.
pub proof fn lemma_placing_len(n: int, order: Seq<int>)
    requires
        0 <= n,
        is_placing(n, order),
    ensures
        order.len() <= n,
        order.len() == n ==> forall|x: int| 0 <= x < n ==> #[trigger] order.contains(x),
{
    let all = vstd::set_lib::set_int_range(0, n);
    vstd::set_lib::lemma_int_range(0, n);
    order.unique_seq_to_set();
    assert forall|x: int| order.to_set().contains(x) implies all.contains(x) by {
        let k = choose|k: int| 0 <= k < order.len() && order[k] == x;
        assert(0 <= order[k] < n);
    }
    vstd::set_lib::lemma_len_subset(order.to_set(), all);
    if order.len() == n {
        vstd::set_lib::lemma_subset_equality(order.to_set(), all);
        assert forall|x: int| 0 <= x < n implies #[trigger] order.contains(x) by {
            assert(order.to_set().contains(x));
        }
    }
}

/// Every step that one of `order` waits for stands in front of it.
spec fn is_begun(n: int, links: Set<(int, int)>, order: Seq<int>) -> bool {
    &&& is_placing(n, order)
    &&& forall|f: int, j: int|
        0 <= j < order.len() && 0 <= f < n && #[trigger] links.contains((f, order[j]))
            ==> exists|i: int| 0 <= i < j && #[trigger] order[i] == f
}

/// An order that is begun can be finished, where no step is stuck.
proof fn lemma_finish_order(n: int, links: Set<(int, int)>, order: Seq<int>) -> (r: Seq<int>)
    requires
        0 <= n,
        is_begun(n, links, order),
        !has_stuck(n, links),
    ensures
        is_order(n, links, r),
    decreases n - order.len(),
{
    lemma_placing_len(n, order);
    if order.len() == n {
        assert forall|i: int, j: int|
            0 <= i < n && 0 <= j < n && links.contains(
                (#[trigger] order[i], #[trigger] order[j]),
            ) implies i < j by {
            let h = choose|h: int| 0 <= h < j && #[trigger] order[h] == order[i];
            assert(order[h] == order[i]);
            assert(h == i);
        }
        order
    } else {
        let left = Set::new(|t: int| 0 <= t < n && !order.contains(t));
        if forall|t: int| #[trigger]
            left.contains(t) ==> exists|f: int| #[trigger]
                left.contains(f) && links.contains((f, t)) {
            assert(is_waiting_set(n, links, left));
            assert forall|x: int| 0 <= x < n implies #[trigger] order.contains(x) by {
                if left.contains(x) {
                    assert(is_stuck(n, links, x));
                }
            }
            let all = vstd::set_lib::set_int_range(0, n);
            vstd::set_lib::lemma_int_range(0, n);
            order.unique_seq_to_set();
            vstd::seq_lib::seq_to_set_is_finite(order);
            vstd::set_lib::lemma_len_subset(all, order.to_set());
            order
        } else {
            let t = choose|t: int| #[trigger]
                left.contains(t) && !(exists|f: int| #[trigger]
                    left.contains(f) && links.contains((f, t)));
            let next = order.push(t);
            assert forall|f: int, j: int|
                0 <= j < next.len() && 0 <= f < n && #[trigger] links.contains(
                    (f, next[j]),
                ) implies exists|i: int| 0 <= i < j && #[trigger] next[i] == f by {
                if j < order.len() {
                    assert(next[j] == order[j]);
                    let i = choose|i: int| 0 <= i < j && #[trigger] order[i] == f;
                    assert(next[i] == f);
                } else {
                    assert(!left.contains(f));
                    let i = choose|i: int| 0 <= i < order.len() && order[i] == f;
                    assert(next[i] == f);
                }
            }
            lemma_finish_order(n, links, next)
        }
    }
}

/// A step in an order belongs to no steps that wait for each other.
proof fn lemma_ordered_is_free(
    n: int,
    links: Set<(int, int)>,
    order: Seq<int>,
    s: Set<int>,
    k: int,
)
    requires
        0 <= n,
        is_order(n, links, order),
        is_waiting_set(n, links, s),
        0 <= k < n,
    ensures
        !s.contains(order[k]),
    decreases k,
{
    if s.contains(order[k]) {
        let f = choose|f: int| #[trigger] s.contains(f) && links.contains((f, order[k]));
        lemma_placing_len(n, order);
        assert(order.contains(f));
        let i = choose|i: int| 0 <= i < order.len() && order[i] == f;
        assert(links.contains((order[i], order[k])));
        lemma_ordered_is_free(n, links, order, s, i);
    }
}

/// No step is stuck exactly where the steps can be put in an order in which
/// each stands after all that it waits for.
pub proof fn law_free_is_ordered(n: int, links: Set<(int, int)>)
    requires
        0 <= n,
    ensures
        !has_stuck(n, links) <==> exists|order: Seq<int>| is_order(n, links, order),
{
    if !has_stuck(n, links) {
        let order = lemma_finish_order(n, links, Seq::empty());
        assert(is_order(n, links, order));
    }
    if exists|order: Seq<int>| is_order(n, links, order) {
        let order = choose|order: Seq<int>| is_order(n, links, order);
        if has_stuck(n, links) {
            let i = choose|i: int| is_stuck(n, links, i);
            let s = choose|s: Set<int>| #[trigger] is_waiting_set(n, links, s) && s.contains(i);
            lemma_placing_len(n, order);
            assert(order.contains(i));
            let k = choose|k: int| 0 <= k < order.len() && order[k] == i;
            lemma_ordered_is_free(n, links, order, s, k);
        }
    }
}

/// The steps of a cycle wait for each other.
proof fn lemma_cycle_is_stuck(n: int, links: Set<(int, int)>, path: Seq<int>)
    requires
        is_cycle(n, links, path),
    ensures
        forall|k: int| 0 <= k < path.len() ==> is_stuck(n, links, #[trigger] path[k]),
{
    let s = Set::new(|t: int| exists|k: int| 0 <= k < path.len() && #[trigger] path[k] == t);
    assert forall|t: int| #[trigger] s.contains(t) implies 0 <= t < n && exists|f: int| #[trigger]
        s.contains(f) && links.contains((f, t)) by {
        let k = choose|k: int| 0 <= k < path.len() && #[trigger] path[k] == t;
        if k == 0 {
            assert(path[path.len() - 1] == path.last());
            assert(s.contains(path.last()));
        } else {
            assert(s.contains(path[k - 1]));
            assert(links.contains((path[k - 1], path[k])));
        }
    }
    assert(is_waiting_set(n, links, s));
    assert forall|k: int| 0 <= k < path.len() implies is_stuck(n, links, #[trigger] path[k]) by {
        assert(s.contains(path[k]));
    }
}

/// Members of `s`, each waiting for the next one named.
proof fn lemma_walk_back(n: int, links: Set<(int, int)>, s: Set<int>, i: int, len: int) -> (r: Seq<
    int,
>)
    requires
        is_waiting_set(n, links, s),
        s.contains(i),
        len >= 1,
    ensures
        r.len() == len,
        forall|k: int| 0 <= k < len ==> s.contains(#[trigger] r[k]),
        forall|j: int, k: int|
            0 <= j && j + 1 == k && k < len ==> links.contains((#[trigger] r[k], #[trigger] r[j])),
    decreases len,
{
    if len == 1 {
        seq![i]
    } else {
        let w = lemma_walk_back(n, links, s, i, len - 1);
        let t = w[len - 2];
        assert(s.contains(t));
        let f = choose|f: int| #[trigger] s.contains(f) && links.contains((f, t));
        w.push(f)
    }
}

/// Some step is stuck exactly where there is a cycle.
pub proof fn law_stuck_is_cyclic(n: int, links: Set<(int, int)>)
    requires
        0 <= n,
    ensures
        has_stuck(n, links) <==> exists|path: Seq<int>| is_cycle(n, links, path),
{
    if has_stuck(n, links) {
        let i = choose|i: int| is_stuck(n, links, i);
        let s = choose|s: Set<int>| #[trigger] is_waiting_set(n, links, s) && s.contains(i);
        let w = lemma_walk_back(n, links, s, i, n + 1);
        assert forall|k: int| 0 <= k < w.len() implies 0 <= #[trigger] w[k] < n by {
            assert(s.contains(w[k]));
        }
        if w.no_duplicates() {
            lemma_placing_len(n, w);
        }
        let (a, b) = choose|a: int, b: int|
            0 <= a < w.len() && 0 <= b < w.len() && a != b && w[a] == w[b];
        let lo = if a < b {
            a
        } else {
            b
        };
        let hi = if a < b {
            b
        } else {
            a
        };
        let path = Seq::new((hi - lo) as nat, |k: int| w[hi - k]);
        assert forall|k: int| 0 <= k < path.len() implies 0 <= #[trigger] path[k] < n by {
            assert(0 <= w[hi - k] < n);
        }
        assert forall|j: int, k: int| 0 <= j && j + 1 == k && k < path.len() implies links.contains(
            (#[trigger] path[j], #[trigger] path[k]),
        ) by {
            assert(links.contains((w[hi - j], w[hi - k])));
        }
        assert(links.contains((w[lo + 1], w[lo])));
        assert(is_cycle(n, links, path));
    }
    if exists|path: Seq<int>| is_cycle(n, links, path) {
        let path = choose|path: Seq<int>| is_cycle(n, links, path);
        lemma_cycle_is_stuck(n, links, path);
        assert(is_stuck(n, links, path[0]));
    }
}

} // verus!
