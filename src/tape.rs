use vstd::prelude::*;
use crate::converter::{BackwardNode, GraphConverter, links_ordered, present};
use crate::grads::{Grads, accumulated};
use crate::ops::{BackwardRecordedOps, ForwardRecordedOps};
use crate::value::GradValue;

verus! {

/// Why a backward pass could not run.
#[derive(Debug, PartialEq, Eq)]
pub enum GraphError {
    /// The identity names no node of the graph.
    UnknownNode { id: usize },
    /// The operation that produced node `id` handed back a number of
    /// gradients other than its number of inputs.
    ArityMismatch { id: usize },
}

/// How many times `id` occurs in `ps`.
pub open spec fn uses(ps: Seq<usize>, id: usize) -> nat
    decreases ps.len(),
{
    if ps.len() == 0 {
        0
    } else {
        uses(ps.drop_last(), id) + if ps.last() == id { 1nat } else { 0nat }
    }
}

proof fn lemma_uses_contains(ps: Seq<usize>, id: usize)
    requires
        ps.contains(id),
    ensures
        uses(ps, id) >= 1,
    decreases ps.len(),
{
    if ps.last() != id {
        let q = choose|q: int| 0 <= q < ps.len() && ps[q] == id;
        assert(ps.drop_last()[q] == id);
        lemma_uses_contains(ps.drop_last(), id);
    }
}

/// What accumulating the contributions `cs` into the entries for `ps`,
/// pairwise and in order, leaves in the store.
pub open spec fn accumulated_all<T: GradValue>(m: Map<usize, T>, ps: Seq<usize>, cs: Seq<T>) -> Map<usize, T>
    decreases ps.len(),
{
    if ps.len() == 0 || cs.len() != ps.len() {
        m
    } else {
        accumulated(accumulated_all(m, ps.drop_last(), cs.drop_last()), ps.last(), cs.last())
    }
}

/// The forward graph: every node in creation order, each holding its value,
/// the operation that produced it (none for a tracked input) and the
/// identities of that operation's inputs.
///
/// A node's identity is its creation order: the position at which it was
/// added, so that every operation is younger than its inputs.
pub struct Tape<T, F, B> {
    values: Vec<T>,
    ops: Vec<Option<F>>,
    links: Vec<Vec<usize>>,
    converter: GraphConverter<B>,
}

impl<T: GradValue, F: ForwardRecordedOps<T, B>, B: BackwardRecordedOps<T>> Tape<T, F, B> {
    pub closed spec fn num_nodes(&self) -> nat {
        self.values@.len()
    }

    /// The value of node `id`.
    pub closed spec fn value_of(&self, id: int) -> T {
        self.values@[id]
    }

    /// The operation that produced node `id`, if any.
    pub closed spec fn op_of(&self, id: int) -> Option<F> {
        self.ops@[id]
    }

    /// The inputs of the operation that produced node `id`.
    pub closed spec fn inputs_of(&self, id: int) -> Seq<usize> {
        self.links@[id]@
    }

    /// The converter that holds the backward form of this graph.
    pub closed spec fn backward_form(&self) -> GraphConverter<B> {
        self.converter
    }

    /// One operation and one input list per node, inputs older than the node,
    /// none for a tracked input, and a backward form that agrees with them.
    pub closed spec fn wf(&self) -> bool {
        &&& self.ops@.len() == self.values@.len()
        &&& self.links@.len() == self.values@.len()
        &&& links_ordered(self.links@)
        &&& forall|i: int| 0 <= i < self.num_nodes() && #[trigger] self.ops@[i] is None ==> self.links@[i]@.len() == 0
        &&& self.converter.closed()
        &&& self.converter.mirrors(self.links@, present(self.ops@))
    }

    /// How many inputs of the operations at the first `k` positions of `s`
    /// are node `id`: the contributions that those operations make to it.
    pub open spec fn edges_into(&self, s: Seq<usize>, k: nat, id: usize) -> nat
        decreases k,
    {
        if k == 0 || k > s.len() {
            0
        } else {
            self.edges_into(s, (k - 1) as nat, id) + uses(self.inputs_of(s[k - 1] as int), id)
        }
    }

    /// What running the local step of node `id` does to the store `g`: the
    /// step gets the accumulated gradient of `id` and its contributions are
    /// summed into the entries of the inputs of `id`, in order.
    pub open spec fn step(&self, g: Map<usize, T>, id: usize) -> Map<usize, T> {
        match self.backward_form().op_at(id as int) {
            None => g,
            Some(op) => accumulated_all(g, self.inputs_of(id as int), op.spec_step(g[id])@),
        }
    }

    /// Whether the local step of node `id`, run on the store `g`, hands back
    /// one contribution per input.
    pub open spec fn step_fits(&self, g: Map<usize, T>, id: usize) -> bool {
        match self.backward_form().op_at(id as int) {
            None => true,
            Some(op) => op.spec_step(g[id])@.len() == self.inputs_of(id as int).len(),
        }
    }

    /// The store after the first `k` steps of the traversal `s` from
    /// `terminal`, which starts with the seed at the terminal.
    pub open spec fn run(&self, terminal: usize, s: Seq<usize>, k: nat) -> Map<usize, T>
        decreases k,
    {
        if k == 0 || k > s.len() {
            map![terminal => self.value_of(terminal as int).spec_ones()]
        } else {
            self.step(self.run(terminal, s, (k - 1) as nat), s[k - 1])
        }
    }

    /// The first `k` steps of the traversal `s` each hand back one
    /// contribution per input.
    pub open spec fn fits_upto(&self, terminal: usize, s: Seq<usize>, k: nat) -> bool {
        forall|j: nat| j < k ==> #[trigger] self.step_fits(self.run(terminal, s, j), s[j as int])
    }

    /// An empty graph.
    pub fn new() -> (r: Self)
        ensures
            r.wf(),
            r.num_nodes() == 0,
    {
        let r = Tape { values: Vec::new(), ops: Vec::new(), links: Vec::new(), converter: GraphConverter::new() };
        assert(present(r.ops@) =~= Seq::<bool>::empty());
        assert(r.links@ =~= Seq::<Vec<usize>>::empty());
        r
    }

    /// The number of nodes.
    pub fn len(&self) -> (r: usize)
        ensures
            r == self.num_nodes(),
    {
        self.values.len()
    }

    /// The value of node `id`.
    pub fn value(&self, id: usize) -> (r: &T)
        requires
            id < self.num_nodes(),
        ensures
            *r == self.value_of(id as int),
    {
        &self.values[id]
    }

    fn push_node(&mut self, value: T, op: Option<F>, parents: Vec<usize>) -> (id: usize)
        requires
            old(self).wf(),
            forall|q: int| 0 <= q < parents@.len() ==> #[trigger] parents@[q] < old(self).num_nodes(),
            op is None ==> parents@.len() == 0,
        ensures
            final(self).wf(),
            id == old(self).num_nodes(),
            final(self).num_nodes() == old(self).num_nodes() + 1,
            final(self).value_of(id as int) == value,
            final(self).op_of(id as int) == op,
            final(self).inputs_of(id as int) == parents@,
            forall|i: int| 0 <= i < old(self).num_nodes() ==> final(self).value_of(i) == old(self).value_of(i)
                && final(self).op_of(i) == old(self).op_of(i) && final(self).inputs_of(i) == old(self).inputs_of(i),
            forall|i: int| #[trigger] old(self).backward_form().converted(i) ==> final(self).backward_form().converted(i)
                && final(self).backward_form().entry(i) == old(self).backward_form().entry(i),
    {
        let id = self.values.len();
        self.values.push(value);
        self.ops.push(op);
        self.links.push(parents);
        assert(self.links@.drop_last() =~= old(self).links@);
        assert(present(self.ops@).drop_last() =~= present(old(self).ops@));
        self.converter.grow(Ghost(self.links@), Ghost(present(self.ops@)));
        assert forall|i: int, q: int|
            0 <= i < self.links@.len() && 0 <= q < self.links@[i]@.len() implies #[trigger] self.links@[i]@[q] < i by {
            if i < id {
                assert(self.links@[i] == old(self).links@[i]);
            }
        }
        assert forall|i: int| 0 <= i < self.num_nodes() && #[trigger] self.ops@[i] is None implies self.links@[i]@.len() == 0 by {
            if i < id {
                assert(self.links@[i] == old(self).links@[i]);
                assert(self.ops@[i] == old(self).ops@[i]);
            }
        }
        id
    }

    /// Adds a tracked input holding `value`; its identity is returned.
    pub fn track(&mut self, value: T) -> (id: usize)
        requires
            old(self).wf(),
        ensures
            final(self).wf(),
            id == old(self).num_nodes(),
            final(self).num_nodes() == old(self).num_nodes() + 1,
            final(self).value_of(id as int) == value,
            final(self).op_of(id as int) is None,
            forall|i: int| 0 <= i < old(self).num_nodes() ==> final(self).value_of(i) == old(self).value_of(i)
                && final(self).op_of(i) == old(self).op_of(i) && final(self).inputs_of(i) == old(self).inputs_of(i),
    {
        self.push_node(value, None, Vec::new())
    }

    /// Adds the node `value` that `op` computed from the nodes `inputs`; its
    /// identity is returned. An input that names no node is refused, and the
    /// graph is left as it was.
    pub fn record(&mut self, value: T, op: F, inputs: Vec<usize>) -> (r: Result<usize, GraphError>)
        requires
            old(self).wf(),
        ensures
            final(self).wf(),
            (forall|q: int| 0 <= q < inputs@.len() ==> #[trigger] inputs@[q] < old(self).num_nodes()) <==> r is Ok,
            r is Err ==> *final(self) == *old(self) && exists|q: int|
                0 <= q < inputs@.len() && r == Err::<usize, GraphError>(GraphError::UnknownNode { id: #[trigger] inputs@[q] })
                && inputs@[q] >= old(self).num_nodes(),
            r is Ok ==> {
                &&& r->Ok_0 == old(self).num_nodes()
                &&& final(self).num_nodes() == old(self).num_nodes() + 1
                &&& final(self).value_of(r->Ok_0 as int) == value
                &&& final(self).op_of(r->Ok_0 as int) == Some(op)
                &&& final(self).inputs_of(r->Ok_0 as int) == inputs@
                &&& forall|i: int| 0 <= i < old(self).num_nodes() ==> final(self).value_of(i) == old(self).value_of(i)
                    && final(self).op_of(i) == old(self).op_of(i) && final(self).inputs_of(i) == old(self).inputs_of(i)
            },
    {
        let mut q: usize = 0;
        while q < inputs.len()
            invariant
                self.wf(),
                *self == *old(self),
                q <= inputs@.len(),
                forall|k: int| 0 <= k < q ==> #[trigger] inputs@[k] < self.num_nodes(),
            decreases inputs@.len() - q,
        {
            if inputs[q] >= self.values.len() {
                return Err(GraphError::UnknownNode { id: inputs[q] });
            }
            q = q + 1;
        }
        let id = self.push_node(value, Some(op), inputs);
        Ok(id)
    }

    /// `self` and `other` hold the same nodes, whatever each has converted.
    pub open spec fn same_nodes(&self, other: &Self) -> bool {
        &&& self.num_nodes() == other.num_nodes()
        &&& forall|i: int|
            #![trigger self.value_of(i)]
            #![trigger self.op_of(i)]
            #![trigger self.inputs_of(i)]
            0 <= i < self.num_nodes() ==> self.value_of(i) == other.value_of(i) && self.op_of(i) == other.op_of(i)
                && self.inputs_of(i) == other.inputs_of(i)
    }

    /// A converted node's backward form has the inputs of its operation as
    /// parents, its identity as order, and an operation where it has one.
    pub proof fn backward_parents_are_inputs(&self, i: int)
        requires
            self.wf(),
            self.backward_form().converted(i),
        ensures
            0 <= i < self.num_nodes(),
            self.backward_form().parents_of(i) == self.inputs_of(i),
            self.backward_form().order_of(i) == i,
            self.backward_form().has_op(i) == self.op_of(i) is Some,
    {
        self.converter.lemma_mirrored(self.links@, present(self.ops@), i);
        self.converter.lemma_closed_order(i);
    }

    /// Converts node `id`, and every node it was computed from, to backward form.
    ///
    /// Conversion is memoized: a node converted before keeps its backward node,
    /// and converting a converted node again changes nothing.
    pub fn convert(&mut self, id: usize)
        requires
            old(self).wf(),
            id < old(self).num_nodes(),
        ensures
            final(self).wf(),
            final(self).same_nodes(old(self)),
            final(self).backward_form().converted(id as int),
            forall|i: int| #[trigger] old(self).backward_form().converted(i) ==> final(self).backward_form().converted(i)
                && final(self).backward_form().entry(i) == old(self).backward_form().entry(i),
            old(self).backward_form().converted(id as int) ==> *final(self) == *old(self),
    {
        self.converter.convert(&self.links, &self.ops, id);
    }

    /// The backward node of `id`, where it has been converted: its order is
    /// `id` and its parents are the inputs of the operation that produced it.
    pub fn backward_node(&self, id: usize) -> (r: Option<&BackwardNode<B>>)
        requires
            self.wf(),
        ensures
            r is Some == self.backward_form().converted(id as int),
            r is Some ==> r->Some_0.order == id && r->Some_0.parents@ == self.inputs_of(id as int)
                && (r->Some_0.op is Some == self.op_of(id as int) is Some),
    {
        let r = self.converter.get(id);
        proof {
            if r is Some {
                self.converter.lemma_mirrored(self.links@, present(self.ops@), id as int);
                self.converter.lemma_closed_order(id as int);
            }
        }
        r
    }

    /// The operations that a backward pass from `terminal` runs, in the order
    /// it runs them (see `is_backward_order`).
    pub fn backward_order(&mut self, terminal: usize) -> (r: Result<Vec<usize>, GraphError>)
        requires
            old(self).wf(),
        ensures
            final(self).wf(),
            final(self).same_nodes(old(self)),
            terminal >= old(self).num_nodes() <==> r == Err::<Vec<usize>, GraphError>(
                GraphError::UnknownNode { id: terminal },
            ),
            r is Ok ==> final(self).backward_form().is_backward_order(terminal, r->Ok_0@),
    {
        if terminal >= self.values.len() {
            return Err(GraphError::UnknownNode { id: terminal });
        }
        self.convert(terminal);
        Ok(self.converter.traversal_order(terminal))
    }

    /// Runs the backward pass from node `terminal`.
    ///
    /// The terminal's gradient is seeded with "ones" in the shape of its value;
    /// then every operation reached from it runs its local step once, youngest
    /// first, and its contributions are summed into the entries of its inputs.
    /// The store that comes back holds an entry for exactly the nodes reached.
    pub fn backward(&mut self, terminal: usize) -> (r: Result<Grads<T>, GraphError>)
        requires
            old(self).wf(),
        ensures
            final(self).wf(),
            final(self).same_nodes(old(self)),
            terminal >= old(self).num_nodes() ==> r == Err::<Grads<T>, GraphError>(GraphError::UnknownNode { id: terminal }),
            terminal < old(self).num_nodes() ==> final(self).backward_form().converted(terminal as int),
            r is Err && terminal < old(self).num_nodes() ==> exists|s: Seq<usize>, k: nat|
                final(self).backward_form().is_backward_order(terminal, s) && k < s.len()
                && #[trigger] final(self).fits_upto(terminal, s, k)
                && !final(self).step_fits(final(self).run(terminal, s, k), s[k as int])
                && r == Err::<Grads<T>, GraphError>(GraphError::ArityMismatch { id: s[k as int] }),
            terminal < old(self).num_nodes() && (forall|s: Seq<usize>|
                #[trigger] final(self).backward_form().is_backward_order(terminal, s) ==> final(self).fits_upto(
                    terminal,
                    s,
                    s.len(),
                )) ==> r is Ok,
            r is Ok ==> exists|s: Seq<usize>|
                #[trigger] final(self).backward_form().is_backward_order(terminal, s)
                && final(self).fits_upto(terminal, s, s.len())
                && r->Ok_0@ == final(self).run(terminal, s, s.len())
                && (forall|id: usize| r->Ok_0@.contains_key(id) <==> #[trigger] s.contains(id))
                && forall|id: usize| #[trigger] r->Ok_0.count(id) == final(self).edges_into(s, s.len(), id)
                    + if id == terminal { 1nat } else { 0nat },
    {
        if terminal >= self.values.len() {
            return Err(GraphError::UnknownNode { id: terminal });
        }
        self.convert(terminal);
        let order = self.converter.traversal_order(terminal);
        let seed = self.values[terminal].ones_like();
        let mut grads: Grads<T> = Grads::new();
        grads.register(terminal, seed);
        assert(grads@ =~= self.run(terminal, order@, 0));
        let mut k: usize = 0;
        while k < order.len()
            invariant
                self.wf(),
                self.same_nodes(old(self)),
                terminal < old(self).num_nodes(),
                self.converter.is_backward_order(terminal, order@),
                forall|j: int| 0 <= j < order@.len() ==> self.converter.converted(#[trigger] order@[j] as int),
                k <= order@.len(),
                grads@ == self.run(terminal, order@, k as nat),
                self.fits_upto(terminal, order@, k as nat),
                forall|x: usize| #[trigger] grads.count(x) == self.edges_into(order@, k as nat, x)
                    + if x == terminal { 1nat } else { 0nat },
                grads@.contains_key(terminal),
                forall|id: usize| #[trigger] grads@.contains_key(id) ==> order@.contains(id),
                forall|m: int, q: int|
                    0 <= m < k && 0 <= q < self.inputs_of(order@[m] as int).len() ==> grads@.contains_key(
                        #[trigger] self.inputs_of(order@[m] as int)[q],
                    ),
            decreases order@.len() - k,
        {
            let id = order[k];
            proof {
                assert(self.converter.converted(id as int));
                self.converter.lemma_mirrored(self.links@, present(self.ops@), id as int);
                if k > 0 {
                    assert(self.converter.consumed_before(order@, k as int));
                    let m = choose|m: int| 0 <= m < k && #[trigger] self.converter.parents_of(order@[m] as int).contains(order@[k as int]);
                    assert(self.converter.converted(order@[m] as int));
                    self.converter.lemma_mirrored(self.links@, present(self.ops@), order@[m] as int);
                    let q = choose|q: int| 0 <= q < self.converter.parents_of(order@[m] as int).len()
                        && self.converter.parents_of(order@[m] as int)[q] == id;
                    assert(self.inputs_of(order@[m] as int)[q] == id);
                }
            }
            let ghost g_before = grads@;
            let node = self.converter.get(id).unwrap();
            match &node.op {
                None => {
                    assert(self.step(grads@, id) == grads@);
                    assert(self.run(terminal, order@, (k + 1) as nat) == grads@);
                    assert forall|j: nat| j < k + 1 implies #[trigger] self.step_fits(self.run(terminal, order@, j), order@[j as int]) by {
                        if j < k {
                            assert(self.fits_upto(terminal, order@, k as nat));
                        }
                    }
                    assert(self.ops@[id as int] is None);
                    assert(self.links@[id as int]@.len() == 0);
                    assert forall|x: usize| #[trigger] grads.count(x) == self.edges_into(order@, (k + 1) as nat, x)
                        + if x == terminal { 1nat } else { 0nat } by {
                        assert(uses(self.inputs_of(order@[k as int] as int), x) == 0);
                    }
                },
                Some(op) => {
                    let mut parts = op.backward_step(grads.get(id).unwrap());
                    let ghost cs = parts@;
                    let ps = &node.parents;
                    if parts.len() != ps.len() {
                        assert(!self.step_fits(self.run(terminal, order@, k as nat), order@[k as int]));
                        assert(present(self.ops@)[id as int]);
                        assert(self.op_of(id as int) is Some);
                        assert(old(self).op_of(id as int) is Some);
                        return Err(GraphError::ArityMismatch { id });
                    }
                    let mut q: usize = 0;
                    assert(ps@.subrange(0, 0) =~= Seq::<usize>::empty());
                    while q < ps.len()
                        invariant
                            q <= ps@.len(),
                            parts@.len() == ps@.len() - q,
                            cs.len() == ps@.len(),
                            parts@ == cs.subrange(q as int, cs.len() as int),
                            grads@ == accumulated_all(g_before, ps@.subrange(0, q as int), cs.subrange(0, q as int)),
                            id < self.links@.len(),
                            ps@ == self.links@[id as int]@,
                            forall|x: usize| #[trigger] grads.count(x) == self.edges_into(order@, k as nat, x)
                                + (if x == terminal { 1nat } else { 0nat }) + uses(ps@.subrange(0, q as int), x),
                            forall|j: int| 0 <= j < q ==> grads@.contains_key(#[trigger] ps@[j]),
                            forall|key: usize| #[trigger] g_before.contains_key(key) ==> grads@.contains_key(key),
                            forall|key: usize| #[trigger] grads@.contains_key(key) ==> g_before.contains_key(key)
                                || ps@.contains(key),
                        decreases ps@.len() - q,
                    {
                        let c = parts.remove(0);
                        let p = ps[q];
                        grads.accumulate(p, c);
                        q = q + 1;
                        assert(ps@.subrange(0, q as int).drop_last() =~= ps@.subrange(0, q as int - 1));
                        assert(cs.subrange(0, q as int).drop_last() =~= cs.subrange(0, q as int - 1));
                        assert(parts@ =~= cs.subrange(q as int, cs.len() as int));
                        assert forall|key: usize| #[trigger] grads@.contains_key(key) implies g_before.contains_key(key)
                            || ps@.contains(key) by {
                            if key == p {
                                assert(ps@[q - 1] == key);
                            }
                        }
                    }
                    assert(ps@.subrange(0, ps@.len() as int) =~= ps@);
                    assert(cs.subrange(0, cs.len() as int) =~= cs);
                    assert(grads@ == self.run(terminal, order@, (k + 1) as nat));
                    assert forall|j: nat| j < k + 1 implies #[trigger] self.step_fits(self.run(terminal, order@, j), order@[j as int]) by {
                        if j < k {
                            assert(self.fits_upto(terminal, order@, k as nat));
                        }
                    }
                    assert forall|x: usize| #[trigger] grads.count(x) == self.edges_into(order@, (k + 1) as nat, x)
                        + if x == terminal { 1nat } else { 0nat } by {
                        assert(self.inputs_of(order@[k as int] as int) == ps@);
                    }
                },
            }
            k = k + 1;
            assert forall|key: usize| #[trigger] grads@.contains_key(key) implies order@.contains(key) by {
                if !g_before.contains_key(key) {
                    let q = choose|q: int| 0 <= q < self.links@[id as int]@.len() && self.links@[id as int]@[q] == key;
                    assert(self.converter.parents_of(order@[k - 1] as int)[q] == key);
                }
            }
            assert forall|m: int, q: int|
                0 <= m < k && 0 <= q < self.inputs_of(order@[m] as int).len() implies grads@.contains_key(
                    #[trigger] self.inputs_of(order@[m] as int)[q],
                ) by {
                if m < k - 1 {
                    assert(g_before.contains_key(self.inputs_of(order@[m] as int)[q]));
                }
            }
        }
        proof {
            assert forall|id: usize| grads@.contains_key(id) <==> #[trigger] order@.contains(id) by {
                if order@.contains(id) {
                    let j = choose|j: int| 0 <= j < order@.len() && order@[j] == id;
                    if j > 0 {
                        assert(self.converter.consumed_before(order@, j));
                        let m = choose|m: int| 0 <= m < j && #[trigger] self.converter.parents_of(order@[m] as int).contains(order@[j]);
                        assert(self.converter.converted(order@[m] as int));
                        self.converter.lemma_mirrored(self.links@, present(self.ops@), order@[m] as int);
                        let q = choose|q: int| 0 <= q < self.converter.parents_of(order@[m] as int).len()
                            && self.converter.parents_of(order@[m] as int)[q] == id;
                        assert(self.inputs_of(order@[m] as int)[q] == id);
                    }
                }
            }
            assert(self.backward_form().is_backward_order(terminal, order@));
        }
        Ok(grads)
    }

    /// Every listed operation that reads node `id` adds to what it receives:
    /// a node read by two operations of a traversal gets at least two
    /// contributions, one through each of them, summed into its entry.
    pub proof fn fan_out_contributions(&self, s: Seq<usize>, id: usize, m1: int, m2: int)
        requires
            0 <= m1 < m2 < s.len(),
            self.inputs_of(s[m1] as int).contains(id),
            self.inputs_of(s[m2] as int).contains(id),
        ensures
            self.edges_into(s, s.len(), id) >= 2,
    {
        lemma_uses_contains(self.inputs_of(s[m1] as int), id);
        lemma_uses_contains(self.inputs_of(s[m2] as int), id);
        self.lemma_edges_monotone(s, id, (m1 + 1) as nat, m2 as nat);
        self.lemma_edges_monotone(s, id, (m2 + 1) as nat, s.len());
    }

    proof fn lemma_edges_monotone(&self, s: Seq<usize>, id: usize, j: nat, k: nat)
        requires
            j <= k <= s.len(),
        ensures
            self.edges_into(s, j, id) <= self.edges_into(s, k, id),
        decreases k,
    {
        if j < k {
            self.lemma_edges_monotone(s, id, j, (k - 1) as nat);
        }
    }
}

} // verus!
