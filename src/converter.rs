use vstd::prelude::*;
use crate::ops::{BackwardRecordedOps, ForwardRecordedOps, RecordedOpsParent};

verus! {

/// A forward node's links as the converter sees them: the identities of the
/// nodes its operation read, each smaller than its own.
pub open spec fn links_ordered(links: Seq<Vec<usize>>) -> bool {
    forall|i: int, q: int|
        0 <= i < links.len() && 0 <= q < links[i]@.len() ==> #[trigger] links[i]@[q] < i
}

/// Which forward nodes carry an operation.
pub open spec fn present<F>(ops: Seq<Option<F>>) -> Seq<bool> {
    ops.map_values(|o: Option<F>| o is Some)
}

/// One node of the backward graph: its creation order, its parents, and the
/// backward form of the operation that produced it (none for a tracked input).
pub struct BackwardNode<B> {
    pub order: usize,
    pub parents: Vec<usize>,
    pub op: Option<B>,
}

impl<B> RecordedOpsParent for BackwardNode<B> {
    open spec fn spec_order(&self) -> usize {
        self.order
    }

    open spec fn spec_parents(&self) -> Seq<usize> {
        self.parents@
    }

    fn order(&self) -> (r: usize) {
        self.order
    }

    fn id(&self) -> (r: usize) {
        self.order
    }

    fn backward_parents(&self) -> (r: Vec<usize>) {
        let mut r: Vec<usize> = Vec::new();
        let mut q: usize = 0;
        while q < self.parents.len()
            invariant
                q <= self.parents@.len(),
                r@ == self.parents@.subrange(0, q as int),
            decreases self.parents@.len() - q,
        {
            r.push(self.parents[q]);
            q = q + 1;
            assert(r@ =~= self.parents@.subrange(0, q as int));
        }
        assert(r@ =~= self.parents@);
        r
    }
}

/// The backward graph, built lazily from the forward links and memoized by
/// node identity: a node is converted at most once.
pub struct GraphConverter<B> {
    nodes: Vec<Option<BackwardNode<B>>>,
}

impl<B> GraphConverter<B> {
    pub closed spec fn len(&self) -> nat {
        self.nodes@.len()
    }

    /// Whether node `id` has a backward form.
    pub closed spec fn converted(&self, id: int) -> bool {
        0 <= id < self.nodes@.len() && self.nodes@[id] is Some
    }

    /// The parents of a converted node.
    pub closed spec fn parents_of(&self, id: int) -> Seq<usize> {
        self.nodes@[id]->Some_0.parents@
    }

    /// Whether a converted node has an operation.
    pub closed spec fn has_op(&self, id: int) -> bool {
        self.nodes@[id]->Some_0.op is Some
    }

    /// The backward operation of a converted node, if it has one.
    pub closed spec fn op_at(&self, id: int) -> Option<B> {
        self.nodes@[id]->Some_0.op
    }

    /// The creation order of a converted node.
    pub closed spec fn order_of(&self, id: int) -> usize {
        self.nodes@[id]->Some_0.order
    }

    /// Every converted node has its identity as order, and parents that are
    /// converted and older than itself.
    pub closed spec fn closed(&self) -> bool {
        forall|i: int|
            #[trigger] self.converted(i) ==> {
                &&& self.order_of(i) == i
                &&& forall|q: int|
                    0 <= q < self.parents_of(i).len() ==> {
                        &&& #[trigger] self.parents_of(i)[q] < i
                        &&& self.converted(self.parents_of(i)[q] as int)
                    }
            }
    }

    /// Every converted node has the parents that the forward links give it,
    /// and an operation where the forward node has one.
    pub closed spec fn mirrors(&self, links: Seq<Vec<usize>>, ops: Seq<bool>) -> bool {
        &&& self.nodes@.len() == links.len()
        &&& ops.len() == links.len()
        &&& forall|i: int| #[trigger] self.converted(i) ==> {
            &&& 0 <= i < links.len()
            &&& self.parents_of(i) == links[i]@
            &&& self.has_op(i) == ops[i]
        }
    }

    /// A converted node lies within the forward links, has their parents, and
    /// has an operation where the forward node has one.
    pub proof fn lemma_mirrored(&self, links: Seq<Vec<usize>>, ops: Seq<bool>, i: int)
        requires
            self.mirrors(links, ops),
            self.converted(i),
        ensures
            0 <= i < links.len(),
            self.parents_of(i) == links[i]@,
            self.has_op(i) == ops[i],
    {
    }

    /// In a closed converter a converted node's order is its identity.
    pub proof fn lemma_closed_order(&self, i: int)
        requires
            self.closed(),
            self.converted(i),
        ensures
            self.order_of(i) == i,
    {
    }

    /// The backward node of `id`, where it has been converted.
    pub fn get(&self, id: usize) -> (r: Option<&BackwardNode<B>>)
        ensures
            r is Some == self.converted(id as int),
            r is Some ==> r->Some_0.parents@ == self.parents_of(id as int) && r->Some_0.order == self.order_of(
                id as int,
            ) && (r->Some_0.op is Some) == self.has_op(id as int) && r->Some_0.op == self.op_at(id as int),
    {
        if id < self.nodes.len() {
            match &self.nodes[id] {
                Some(node) => Some(node),
                None => None,
            }
        } else {
            None
        }
    }

    /// The backward form of node `id`, if it has one.
    pub closed spec fn entry(&self, id: int) -> Option<BackwardNode<B>> {
        self.nodes@[id]
    }

    /// A converter with nothing converted yet.
    pub fn new() -> (r: Self)
        ensures
            r.len() == 0,
            r.closed(),
            r.mirrors(Seq::empty(), Seq::empty()),
    {
        GraphConverter { nodes: Vec::new() }
    }

    /// Makes room for one more forward node, converting nothing.
    pub(crate) fn grow(&mut self, Ghost(links): Ghost<Seq<Vec<usize>>>, Ghost(ops): Ghost<Seq<bool>>)
        requires
            links.len() > 0,
            ops.len() == links.len(),
            old(self).mirrors(links.drop_last(), ops.drop_last()),
        ensures
            final(self).mirrors(links, ops),
            final(self).len() == old(self).len() + 1,
            !final(self).converted(old(self).len() as int),
            forall|i: int| i != old(self).len() ==> #[trigger] final(self).converted(i) == old(self).converted(i),
            forall|i: int| #[trigger] old(self).converted(i) ==> final(self).converted(i)
                && final(self).entry(i) == old(self).entry(i),
            forall|i: int| #[trigger] final(self).converted(i) ==> old(self).converted(i)
                && final(self).parents_of(i) == old(self).parents_of(i),
            old(self).closed() ==> final(self).closed(),
    {
        self.nodes.push(None);
        assert forall|i: int| #[trigger] self.converted(i) implies old(self).converted(i)
            && self.parents_of(i) == old(self).parents_of(i) by {
            assert(self.nodes@[i] == old(self).nodes@[i]);
        }
        assert forall|i: int| #[trigger] self.converted(i) implies 0 <= i < links.len()
            && self.parents_of(i) == links[i]@ && self.has_op(i) == ops[i] by {
            assert(old(self).converted(i));
            assert(links.drop_last()[i] == links[i]);
            assert(ops.drop_last()[i] == ops[i]);
        }
    }

    /// Converts node `id` and, first, every node it was computed from.
    ///
    /// A node that is already converted is left as it is: converting it again
    /// changes nothing and hands back the same backward node.
    pub fn convert<T, F: ForwardRecordedOps<T, B>>(&mut self, links: &Vec<Vec<usize>>, ops: &Vec<Option<F>>, id: usize)
        where
            B: BackwardRecordedOps<T>,
        requires
            old(self).closed(),
            old(self).mirrors(links@, present(ops@)),
            links_ordered(links@),
            id < links@.len(),
        ensures
            final(self).closed(),
            final(self).mirrors(links@, present(ops@)),
            final(self).converted(id as int),
            forall|i: int| #[trigger] old(self).converted(i) ==> final(self).converted(i)
                && final(self).entry(i) == old(self).entry(i),
            forall|i: int| #[trigger] final(self).converted(i) && !old(self).converted(i) ==> i <= id,
            old(self).converted(id as int) ==> *final(self) == *old(self),
        decreases id,
    {
        if self.nodes[id].is_some() {
            return;
        }
        let ps = &links[id];
        let mut parents: Vec<usize> = Vec::new();
        let mut q: usize = 0;
        while q < ps.len()
            invariant
                self.closed(),
                self.mirrors(links@, present(ops@)),
                links_ordered(links@),
                id < links@.len(),
                ps == links@[id as int],
                !self.converted(id as int),
                q <= ps@.len(),
                parents@ == ps@.subrange(0, q as int),
                forall|k: int| 0 <= k < q ==> self.converted(#[trigger] ps@[k] as int),
                forall|i: int| #[trigger] old(self).converted(i) ==> self.converted(i)
                    && self.entry(i) == old(self).entry(i),
                forall|i: int| #[trigger] self.converted(i) && !old(self).converted(i) ==> i < id,
            decreases ps@.len() - q,
        {
            let p = ps[q];
            assert(p < id) by {
                assert(links@[id as int]@[q as int] < id);
            }
            self.convert(links, ops, p);
            parents.push(p);
            q = q + 1;
            assert(parents@ =~= ps@.subrange(0, q as int));
        }
        assert(parents@ =~= ps@);
        let op = match &ops[id] {
            Some(f) => Some(f.to_backward()),
            None => None,
        };
        let ghost pre = *self;
        self.nodes.set(id, Some(BackwardNode { order: id, parents, op }));
        assert forall|i: int| 0 <= i < self.nodes@.len() && i != id implies #[trigger] self.converted(i)
            == pre.converted(i) && self.entry(i) == pre.entry(i) by {
            assert(self.nodes@[i] == pre.nodes@[i]);
        }
        assert forall|i: int| #[trigger] self.converted(i) implies {
            &&& self.order_of(i) == i
            &&& forall|k: int|
                0 <= k < self.parents_of(i).len() ==> {
                    &&& #[trigger] self.parents_of(i)[k] < i
                    &&& self.converted(self.parents_of(i)[k] as int)
                }
        } by {
            if i == id {
                assert forall|k: int| 0 <= k < self.parents_of(i).len() implies {
                    &&& #[trigger] self.parents_of(i)[k] < i
                    &&& self.converted(self.parents_of(i)[k] as int)
                } by {
                    assert(links@[id as int]@[k] < id);
                }
            } else {
                assert(pre.converted(i));
                assert forall|k: int| 0 <= k < self.parents_of(i).len() implies {
                    &&& #[trigger] self.parents_of(i)[k] < i
                    &&& self.converted(self.parents_of(i)[k] as int)
                } by {
                    assert(pre.parents_of(i)[k] < i);
                    assert(pre.converted(pre.parents_of(i)[k] as int));
                }
            }
        }
    }

    /// `s` lists the operations that a traversal from `terminal` visits, in the
    /// order it visits them: the terminal first, every later one older than the
    /// one before (so none twice), every parent of a listed operation listed,
    /// and every listed operation but the terminal a parent of one listed
    /// before it.
    pub open spec fn is_backward_order(&self, terminal: usize, s: Seq<usize>) -> bool {
        &&& s.len() > 0
        &&& s[0] == terminal
        &&& forall|a: int, b: int| 0 <= a < b < s.len() ==> s[a] > s[b]
        &&& forall|k: int, q: int|
            0 <= k < s.len() && 0 <= q < self.parents_of(s[k] as int).len() ==> s.contains(
                #[trigger] self.parents_of(s[k] as int)[q],
            )
        &&& forall|k: int| 0 < k < s.len() ==> #[trigger] self.consumed_before(s, k)
    }

    /// An operation listed before position `k` of `s` has `s[k]` as a parent.
    pub open spec fn consumed_before(&self, s: Seq<usize>, k: int) -> bool {
        exists|m: int| 0 <= m < k && #[trigger] self.parents_of(s[m] as int).contains(s[k])
    }

    /// In a traversal order each operation appears once, every operation
    /// comes after each listed operation that consumes its output, and no
    /// node younger than the terminal is listed.
    pub proof fn backward_order_visits_once(&self, terminal: usize, s: Seq<usize>)
        requires
            self.closed(),
            self.is_backward_order(terminal, s),
            forall|k: int| 0 <= k < s.len() ==> self.converted(#[trigger] s[k] as int),
        ensures
            s.no_duplicates(),
            forall|k: int, j: int|
                0 <= k < s.len() && 0 <= j < s.len() && #[trigger] self.parents_of(s[k] as int).contains(s[j])
                    ==> k < j,
            forall|id: usize| id > terminal ==> !#[trigger] s.contains(id),
    {
        assert forall|a: int, b: int| 0 <= a < s.len() && 0 <= b < s.len() && a != b implies s[a] != s[b] by {
            if a < b {
                assert(s[a] > s[b]);
            } else {
                assert(s[b] > s[a]);
            }
        }
        assert forall|k: int, j: int|
            0 <= k < s.len() && 0 <= j < s.len() && #[trigger] self.parents_of(s[k] as int).contains(s[j]) implies k < j by {
            assert(self.converted(s[k] as int));
            let q = choose|q: int| 0 <= q < self.parents_of(s[k] as int).len() && self.parents_of(s[k] as int)[q] == s[j];
            assert(self.parents_of(s[k] as int)[q] < s[k]);
            if j <= k && j != k {
                assert(s[j] > s[k]);
            }
        }
        assert forall|id: usize| id > terminal implies !#[trigger] s.contains(id) by {
            if s.contains(id) {
                let k = choose|k: int| 0 <= k < s.len() && s[k] == id;
                if k > 0 {
                    assert(s[0] > s[k]);
                }
            }
        }
    }

    /// A node other than the terminal that no listed operation reads is not
    /// listed: the traversal never reaches it, and it gets no gradient.
    pub proof fn unconsumed_is_unreached(&self, terminal: usize, s: Seq<usize>, id: usize)
        requires
            self.is_backward_order(terminal, s),
            id != terminal,
            forall|k: int| 0 <= k < s.len() ==> !(#[trigger] self.parents_of(s[k] as int)).contains(id),
        ensures
            !s.contains(id),
    {
        if s.contains(id) {
            let k = choose|k: int| 0 <= k < s.len() && s[k] == id;
            assert(self.consumed_before(s, k));
            let m = choose|m: int| 0 <= m < k && #[trigger] self.parents_of(s[m] as int).contains(s[k]);
            assert(!self.parents_of(s[m] as int).contains(id));
        }
    }

    /// From a given terminal there is one traversal order: two sequences that
    /// both meet `is_backward_order` are the same.
    pub proof fn backward_order_is_unique(&self, terminal: usize, s1: Seq<usize>, s2: Seq<usize>)
        requires
            self.is_backward_order(terminal, s1),
            self.is_backward_order(terminal, s2),
        ensures
            s1 == s2,
    {
        assert forall|k: int| 0 <= k < s1.len() implies s2.contains(#[trigger] s1[k]) by {
            self.lemma_listed_in(terminal, s1, s2, k);
        }
        assert forall|k: int| 0 <= k < s2.len() implies s1.contains(#[trigger] s2[k]) by {
            self.lemma_listed_in(terminal, s2, s1, k);
        }
        lemma_descending_same_elements(s1, s2);
    }

    proof fn lemma_listed_in(&self, terminal: usize, s1: Seq<usize>, s2: Seq<usize>, k: int)
        requires
            self.is_backward_order(terminal, s1),
            self.is_backward_order(terminal, s2),
            0 <= k < s1.len(),
        ensures
            s2.contains(s1[k]),
        decreases k,
    {
        if k == 0 {
            assert(s2[0] == s1[k]);
        } else {
            assert(self.consumed_before(s1, k));
            let m = choose|m: int| 0 <= m < k && #[trigger] self.parents_of(s1[m] as int).contains(s1[k]);
            self.lemma_listed_in(terminal, s1, s2, m);
            let j = choose|j: int| 0 <= j < s2.len() && s2[j] == s1[m];
            let q = choose|q: int| 0 <= q < self.parents_of(s1[m] as int).len() && self.parents_of(s1[m] as int)[q] == s1[k];
            assert(s2.contains(self.parents_of(s2[j] as int)[q]));
        }
    }

    /// The order in which the backward pass from `terminal` runs the local
    /// steps: by descending creation order, each reached operation exactly once,
    /// and each one only after every operation that consumes its output.
    pub fn traversal_order(&self, terminal: usize) -> (r: Vec<usize>)
        requires
            self.closed(),
            self.converted(terminal as int),
        ensures
            self.is_backward_order(terminal, r@),
            forall|k: int| 0 <= k < r@.len() ==> self.converted(#[trigger] r@[k] as int),
    {
        let mut pending: Vec<bool> = Vec::new();
        while pending.len() <= terminal
            invariant
                pending@.len() <= terminal + 1,
                forall|j: int| 0 <= j < pending@.len() ==> !#[trigger] pending@[j],
            decreases terminal + 1 - pending.len(),
        {
            pending.push(false);
        }
        pending.set(terminal, true);
        let mut order: Vec<usize> = Vec::new();
        // `src[j]`: the position in `order` of an operation that made `j` pending;
        // `just[k]`: the position of an operation that consumes `order[k]`.
        let ghost mut src: Seq<int> = Seq::new((terminal + 1) as nat, |j: int| 0);
        let ghost mut just: Seq<int> = Seq::empty();
        let mut i: usize = terminal + 1;
        while i > 0
            invariant
                self.closed(),
                self.converted(terminal as int),
                pending@.len() == terminal + 1,
                src.len() == terminal + 1,
                just.len() == order@.len(),
                i <= terminal + 1,
                pending@[terminal as int],
                i > terminal ==> order@.len() == 0,
                i <= terminal ==> order@.len() > 0 && order@[0] == terminal,
                forall|a: int, b: int| 0 <= a < b < order@.len() ==> order@[a] > order@[b],
                forall|k: int| 0 <= k < order@.len() ==> i <= #[trigger] order@[k] <= terminal,
                forall|k: int| 0 <= k < order@.len() ==> self.converted(#[trigger] order@[k] as int),
                forall|j: int| i <= j <= terminal ==> (#[trigger] pending@[j] <==> order@.contains(j as usize)),
                forall|j: int| 0 <= j <= terminal && #[trigger] pending@[j] ==> self.converted(j),
                forall|j: int| 0 <= j < i && j != terminal && #[trigger] pending@[j] ==> {
                    &&& 0 <= src[j] < order@.len()
                    &&& self.parents_of(order@[src[j]] as int).contains(j as usize)
                },
                forall|k: int, q: int|
                    0 <= k < order@.len() && 0 <= q < self.parents_of(order@[k] as int).len() ==>
                        pending@[#[trigger] self.parents_of(order@[k] as int)[q] as int],
                forall|k: int| 0 < k < order@.len() ==> {
                    &&& 0 <= #[trigger] just[k] < k
                    &&& self.parents_of(order@[just[k]] as int).contains(order@[k])
                },
            decreases i,
        {
            i = i - 1;
            if pending[i] {
                let ghost pre_order = order@;
                let ghost pre_pending = pending@;
                let ghost pre_just = just;
                let ghost m_new = order@.len() as int;
                proof {
                    just = just.push(if i == terminal { 0 } else { src[i as int] });
                }
                order.push(i);
                assert forall|j: usize| #[trigger] order@.contains(j) <==> pre_order.contains(j) || j == i by {
                    if pre_order.contains(j) {
                        let k = choose|k: int| 0 <= k < pre_order.len() && pre_order[k] == j;
                        assert(order@[k] == j);
                    }
                    if j == i {
                        assert(order@[m_new] == j);
                    }
                }
                match &self.nodes[i] {
                    Some(node) => {
                        proof {
                            assert forall|q: int| 0 <= q < node.parents@.len() implies #[trigger] node.parents@[q] < i by {
                                assert(self.parents_of(i as int)[q] < i);
                            }
                        }
                        mark_all(&mut pending, &node.parents);
                        proof {
                            let pre_src = src;
                            src = Seq::new((terminal + 1) as nat, |j: int| if !pre_pending[j] && pending@[j] { m_new } else { pre_src[j] });
                        }
                        assert forall|j: int| i <= j <= terminal implies (#[trigger] pending@[j] <==> order@.contains(j as usize)) by {
                            if pending@[j] && !pre_pending[j] {
                                let p = choose|p: int| 0 <= p < node.parents@.len() && node.parents@[p] == j;
                                assert(node.parents@[p] < i);
                            }
                        }
                        assert forall|j: int| 0 <= j < i && j != terminal && #[trigger] pending@[j] implies {
                            &&& 0 <= src[j] < order@.len()
                            &&& self.parents_of(order@[src[j]] as int).contains(j as usize)
                        } by {
                            if pre_pending[j] {
                                assert(order@[src[j]] == pre_order[src[j]]);
                            } else {
                                let p = choose|p: int| 0 <= p < node.parents@.len() && node.parents@[p] == j;
                                assert(self.parents_of(order@[m_new] as int)[p] == j);
                            }
                        }
                        assert forall|j: int| 0 <= j <= terminal && #[trigger] pending@[j] implies self.converted(j) by {
                            if !pre_pending[j] {
                                let p = choose|p: int| 0 <= p < node.parents@.len() && node.parents@[p] == j;
                                assert(self.converted(self.parents_of(i as int)[p] as int));
                            }
                        }
                        assert forall|k: int, q: int|
                            0 <= k < order@.len() && 0 <= q < self.parents_of(order@[k] as int).len() implies
                                pending@[#[trigger] self.parents_of(order@[k] as int)[q] as int] by {
                            if k < m_new {
                                assert(order@[k] == pre_order[k]);
                                assert(self.converted(pre_order[k] as int));
                                assert(self.parents_of(pre_order[k] as int)[q] < pre_order[k]);
                                assert(pre_pending[self.parents_of(pre_order[k] as int)[q] as int]);
                            } else {
                                assert(node.parents@[q] == self.parents_of(order@[k] as int)[q]);
                            }
                        }
                    },
                    None => {},
                }
                assert forall|k: int| 0 < k < order@.len() implies {
                    &&& 0 <= #[trigger] just[k] < k
                    &&& self.parents_of(order@[just[k]] as int).contains(order@[k])
                } by {
                    if k < m_new {
                        assert(just[k] == pre_just[k]);
                        assert(order@[k] == pre_order[k]);
                        assert(order@[pre_just[k]] == pre_order[pre_just[k]]);
                    } else {
                        assert(i != terminal);
                        assert(pre_pending[i as int]);
                        assert(order@[src[i as int]] == pre_order[src[i as int]]);
                    }
                }
            } else {
                assert(!order@.contains(i));
            }
        }
        proof {
            assert forall|k: int, q: int|
                0 <= k < order@.len() && 0 <= q < self.parents_of(order@[k] as int).len() implies order@.contains(
                    #[trigger] self.parents_of(order@[k] as int)[q],
                ) by {
                assert(self.converted(order@[k] as int));
                assert(self.parents_of(order@[k] as int)[q] < order@[k]);
                assert(pending@[self.parents_of(order@[k] as int)[q] as int]);
            }
            assert forall|k: int| 0 < k < order@.len() implies #[trigger] self.consumed_before(order@, k) by {
                assert(0 <= just[k] < k);
            }
            assert(order@.len() > 0);
            assert(order@[0] == terminal);
        }
        order
    }
}

/// Two strictly descending sequences with the same elements are equal.
proof fn lemma_descending_same_elements(s1: Seq<usize>, s2: Seq<usize>)
    requires
        forall|a: int, b: int| 0 <= a < b < s1.len() ==> s1[a] > s1[b],
        forall|a: int, b: int| 0 <= a < b < s2.len() ==> s2[a] > s2[b],
        forall|k: int| 0 <= k < s1.len() ==> s2.contains(#[trigger] s1[k]),
        forall|k: int| 0 <= k < s2.len() ==> s1.contains(#[trigger] s2[k]),
    ensures
        s1 == s2,
    decreases s1.len(),
{
    if s1.len() == 0 {
        if s2.len() > 0 {
            assert(s1.contains(s2[0]));
        }
        assert(s1 =~= s2);
    } else {
        if s2.len() == 0 {
            assert(s2.contains(s1[0]));
        }
        let j = choose|j: int| 0 <= j < s2.len() && s2[j] == s1[0];
        let i = choose|i: int| 0 <= i < s1.len() && s1[i] == s2[0];
        if j > 0 {
            assert(s2[0] > s2[j]);
            if i > 0 {
                assert(s1[0] > s1[i]);
            }
        }
        assert(s1[0] == s2[0]);
        let t1 = s1.drop_first();
        let t2 = s2.drop_first();
        assert forall|k: int| 0 <= k < t1.len() implies t2.contains(#[trigger] t1[k]) by {
            assert(s2.contains(s1[k + 1]));
            let p = choose|p: int| 0 <= p < s2.len() && s2[p] == s1[k + 1];
            assert(s1[0] > s1[k + 1]);
            assert(p != 0);
            assert(t2[p - 1] == t1[k]);
        }
        assert forall|k: int| 0 <= k < t2.len() implies t1.contains(#[trigger] t2[k]) by {
            assert(s1.contains(s2[k + 1]));
            let p = choose|p: int| 0 <= p < s1.len() && s1[p] == s2[k + 1];
            assert(s2[0] > s2[k + 1]);
            assert(p != 0);
            assert(t1[p - 1] == t2[k]);
        }
        lemma_descending_same_elements(t1, t2);
        assert(s1 =~= s2) by {
            assert forall|k: int| 0 <= k < s1.len() implies s1[k] == s2[k] by {
                if k > 0 {
                    assert(s1[k] == t1[k - 1]);
                    assert(s2[k] == t2[k - 1]);
                }
            }
        }
    }
}

/// Sets the flag of every identity in `ps`.
fn mark_all(pending: &mut Vec<bool>, ps: &Vec<usize>)
    requires
        forall|q: int| 0 <= q < ps@.len() ==> #[trigger] ps@[q] < old(pending)@.len(),
    ensures
        final(pending)@.len() == old(pending)@.len(),
        forall|j: int|
            0 <= j < old(pending)@.len() ==> #[trigger] final(pending)@[j] == (old(pending)@[j] || exists|q: int|
                0 <= q < ps@.len() && ps@[q] == j),
{
    let mut q: usize = 0;
    while q < ps.len()
        invariant
            forall|k: int| 0 <= k < ps@.len() ==> #[trigger] ps@[k] < old(pending)@.len(),
            pending@.len() == old(pending)@.len(),
            q <= ps@.len(),
            forall|j: int|
                0 <= j < old(pending)@.len() ==> #[trigger] pending@[j] == (old(pending)@[j] || exists|k: int|
                    0 <= k < q && ps@[k] == j),
        decreases ps@.len() - q,
    {
        let p = ps[q];
        pending.set(p, true);
        q = q + 1;
        assert forall|j: int|
            0 <= j < old(pending)@.len() implies #[trigger] pending@[j] == (old(pending)@[j] || exists|k: int|
                0 <= k < q && ps@[k] == j) by {
            if j == p {
                assert(ps@[q - 1] == j);
            }
        }
    }
}

} // verus!
