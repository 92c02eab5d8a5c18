//! Orders: requests made by one part of the program and completed by another,
//! matched up again by a typed id.
use std::marker::PhantomData;
use vstd::prelude::*;

verus! {

/// Identifies an order of kind `T`. Ids are never zero.
pub struct OrderId<T> {
    id: u32,
    phantom: PhantomData<T>,
}

impl<T> OrderId<T> {
    /// The number behind this id.
    pub closed spec fn value(&self) -> u32 {
        self.id
    }

    #[verifier::type_invariant]
    spec fn nonzero(self) -> bool {
        self.id > 0
    }

    /// A copy of this id.
    pub fn duplicate(&self) -> (r: OrderId<T>)
        ensures
            r.value() == self.value(),
    {
        proof {
            use_type_invariant(self);
        }
        OrderId { id: self.id, phantom: PhantomData }
    }

    /// Whether two ids are the same.
    pub fn same(&self, other: &OrderId<T>) -> (r: bool)
        ensures
            r == (self.value() == other.value()),
    {
        self.id == other.id
    }
}

/// An order of kind `T`, with the data it carries.
pub struct Order<T> {
    id: OrderId<T>,
    data: T,
}

impl<T> Order<T> {
    pub closed spec fn id_value(&self) -> u32 {
        self.id.value()
    }

    pub closed spec fn data_value(&self) -> T {
        self.data
    }

    pub fn id(&self) -> (r: OrderId<T>)
        ensures
            r.value() == self.id_value(),
    {
        self.id.duplicate()
    }

    pub fn data(&self) -> (r: &T)
        ensures
            *r == self.data_value(),
    {
        &self.data
    }

    pub fn data_mut(&mut self) -> (r: &mut T)
        ensures
            *r == old(self).data_value(),
            final(self).data_value() == *final(r),
            final(self).id_value() == old(self).id_value(),
    {
        &mut self.data
    }

    /// Returns an order result for this order. It must be sent on to actually signal completion.
    pub fn complete<R>(&self, result: R) -> (r: OrderResult<T, R>)
        ensures
            r.id.value() == self.id_value(),
            r.data == result,
    {
        OrderResult::new(self.id.duplicate(), result)
    }
}

/// Hands out the ids of the orders of kind `T`, counting up from 1.
pub struct InternalOrderRes<T> {
    next_id: u32,
    phantom: PhantomData<T>,
}

impl<T> InternalOrderRes<T> {
    /// The id the next order will get.
    pub closed spec fn next_value(&self) -> u32 {
        self.next_id
    }

    #[verifier::type_invariant]
    spec fn nonzero(self) -> bool {
        self.next_id > 0
    }

    /// The ids handed out so far: 1 up to the one before the next.
    pub open spec fn issued(&self) -> Set<u32> {
        Set::new(|v: u32| 1 <= v < self.next_value())
    }

    pub fn new() -> (r: Self)
        ensures
            r.next_value() == 1,
            r.issued() == Set::<u32>::empty(),
    {
        let r = InternalOrderRes { next_id: 1, phantom: PhantomData };
        assert(r.issued() =~= Set::<u32>::empty());
        r
    }

    /// Takes the next id, one that was never handed out before. The counter may not run
    /// past `u32::MAX`.
    pub fn next_id(&mut self) -> (r: OrderId<T>)
        requires
            old(self).next_value() < u32::MAX,
        ensures
            r.value() == old(self).next_value(),
            final(self).next_value() == old(self).next_value() + 1,
            !old(self).issued().contains(r.value()),
            final(self).issued() == old(self).issued().insert(r.value()),
    {
        proof {
            use_type_invariant(&*self);
        }
        let id = OrderId { id: self.next_id, phantom: PhantomData };
        self.next_id = self.next_id + 1;
        assert(self.issued() =~= old(self).issued().insert(id.value()));
        id
    }
}

impl<T> Default for InternalOrderRes<T> {
    /// A counter that has handed out nothing; the first id is 1.
    fn default() -> (r: Self)
        ensures
            r.next_value() == 1,
            r.issued() == Set::<u32>::empty(),
    {
        InternalOrderRes::new()
    }
}

/// The result of the order with id `id`.
pub struct OrderResult<O, R> {
    pub id: OrderId<O>,
    pub data: R,
}

impl<O, R> OrderResult<O, R> {
    pub fn new(id: OrderId<O>, data: R) -> (r: Self)
        ensures
            r.id.value() == id.value(),
            r.data == data,
    {
        OrderResult { id, data }
    }
}

/// Creates orders of kind `T`, each with a fresh id, and queues them for the system
/// that completes them.
pub struct Orderer<T> {
    res: InternalOrderRes<T>,
    orders: Vec<Order<T>>,
}

impl<T> Orderer<T> {
    /// The queued orders: their ids and data, in the order they were made.
    pub closed spec fn orders_view(&self) -> Seq<(u32, T)> {
        Seq::new(self.orders@.len(), |i: int| (self.orders@[i].id_value(), self.orders@[i].data_value()))
    }

    /// The id the next order will get.
    pub closed spec fn next_value(&self) -> u32 {
        self.res.next_value()
    }

    /// The ids of all orders created so far.
    pub closed spec fn issued(&self) -> Set<u32> {
        self.res.issued()
    }

    /// Nothing ordered yet.
    pub fn new() -> (r: Self)
        ensures
            r.orders_view() == Seq::<(u32, T)>::empty(),
            r.next_value() == 1,
            r.issued() == Set::<u32>::empty(),
    {
        let r = Orderer { res: InternalOrderRes::new(), orders: Vec::new() };
        assert(r.orders_view() =~= Seq::<(u32, T)>::empty());
        r
    }

    /// Creates an order and gives back the id its result will carry. Ids may not run
    /// past `u32::MAX`.
    pub fn create(&mut self, order: T) -> (r: OrderId<T>)
        requires
            old(self).next_value() < u32::MAX,
        ensures
            r.value() == old(self).next_value(),
            final(self).next_value() == old(self).next_value() + 1,
            !old(self).issued().contains(r.value()),
            final(self).issued() == old(self).issued().insert(r.value()),
            final(self).orders_view() == old(self).orders_view().push((r.value(), order)),
    {
        let id = self.res.next_id();
        let ghost before = self.orders_view();
        self.orders.push(Order { id: id.duplicate(), data: order });
        assert(self.orders_view() =~= before.push((id.value(), order)));
        id
    }

    /// Hands over the queued orders, leaving none.
    pub fn take_orders(&mut self) -> (r: Vec<Order<T>>)
        ensures
            Seq::new(r@.len(), |i: int| (r@[i].id_value(), r@[i].data_value())) == old(self).orders_view(),
            final(self).orders_view() == Seq::<(u32, T)>::empty(),
            final(self).next_value() == old(self).next_value(),
            final(self).issued() == old(self).issued(),
    {
        let mut taken: Vec<Order<T>> = Vec::new();
        std::mem::swap(&mut taken, &mut self.orders);
        assert(self.orders_view() =~= Seq::<(u32, T)>::empty());
        assert(Seq::new(taken@.len(), |i: int| (taken@[i].id_value(), taken@[i].data_value())) =~= old(self).orders_view());
        taken
    }
}

/// The results sent for orders of kind `O`.
pub struct Results<O, R> {
    results: Vec<OrderResult<O, R>>,
}

impl<O, R> Results<O, R> {
    /// The results: order id and data, in the order they were sent.
    pub closed spec fn results_view(&self) -> Seq<(u32, R)> {
        Seq::new(self.results@.len(), |i: int| (self.results@[i].id.value(), self.results@[i].data))
    }

    pub fn new(results: Vec<OrderResult<O, R>>) -> (r: Self)
        ensures
            r.results_view() == Seq::new(results@.len(), |i: int| (results@[i].id.value(), results@[i].data)),
    {
        Results { results }
    }

    /// The first result for the order with id `id`.
    ///
    /// Note: with several pending orders, results for other orders are passed over.
    pub fn get(&self, id: &OrderId<O>) -> (r: Option<&R>)
        ensures
            match r {
                Some(d) => exists|i: int| 0 <= i < self.results_view().len() && self.results_view()[i] == (id.value(), *d)
                    && forall|j: int| 0 <= j < i ==> self.results_view()[j].0 != id.value(),
                None => forall|j: int| 0 <= j < self.results_view().len() ==> self.results_view()[j].0 != id.value(),
            },
    {
        let mut i: usize = 0;
        while i < self.results.len()
            invariant
                i <= self.results.len(),
                forall|j: int| 0 <= j < i ==> self.results_view()[j].0 != id.value(),
            decreases self.results.len() - i,
        {
            if self.results[i].id.same(id) {
                assert(self.results_view()[i as int] == (id.value(), self.results@[i as int].data));
                return Some(&self.results[i].data);
            }
            i = i + 1;
        }
        None
    }

    /// All results, in the order they were sent.
    pub fn iter(&self) -> (r: &Vec<OrderResult<O, R>>)
        ensures
            Seq::new(r@.len(), |i: int| (r@[i].id.value(), r@[i].data)) == self.results_view(),
    {
        &self.results
    }
}

/// Orders created one after the other by the same orderer get different ids.
pub proof fn lemma_consecutive_orders_differ<T>(first: OrderId<T>, second: OrderId<T>, before: Orderer<T>, between: Orderer<T>)
    requires
        first.value() == before.next_value(),
        between.next_value() == before.next_value() + 1,
        second.value() == between.next_value(),
    ensures
        first.value() != second.value(),
{
}

/// `states` are the successive states of an id source from `new` (or `default`) on, and `ids[i]` is
/// what the `i`-th call of `next_id` gave (as its contract states).
pub open spec fn handed_out<T>(states: Seq<InternalOrderRes<T>>, ids: Seq<OrderId<T>>) -> bool {
    &&& states.len() == ids.len() + 1
    &&& states[0].next_value() == 1
    &&& forall|i: int| 0 <= i < ids.len() ==> {
        &&& (#[trigger] ids[i]).value() == states[i].next_value()
        &&& states[i + 1].next_value() == states[i].next_value() + 1
    }
}

/// Successive calls of `next_id` on a new id source give 1, 2, 3, ...: call `i`
/// (from 0) gives `i + 1`, so no two calls give the same id.
pub proof fn lemma_successive_ids<T>(states: Seq<InternalOrderRes<T>>, ids: Seq<OrderId<T>>)
    requires
        handed_out(states, ids),
    ensures
        forall|i: int| 0 <= i < ids.len() ==> #[trigger] ids[i].value() == i + 1,
        forall|i: int, j: int| 0 <= i < j < ids.len() ==> ids[i].value() != ids[j].value(),
{
    assert forall|i: int| 0 <= i < ids.len() implies #[trigger] ids[i].value() == i + 1 by {
        lemma_counter(states, ids, i);
    }
    assert forall|i: int, j: int| 0 <= i < j < ids.len() implies ids[i].value() != ids[j].value() by {
        lemma_counter(states, ids, i);
        lemma_counter(states, ids, j);
    }
}

proof fn lemma_counter<T>(states: Seq<InternalOrderRes<T>>, ids: Seq<OrderId<T>>, i: int)
    requires
        handed_out(states, ids),
        0 <= i <= ids.len(),
    ensures
        states[i].next_value() == i + 1,
        i < ids.len() ==> ids[i].value() == i + 1,
    decreases i,
{
    if i > 0 {
        lemma_counter(states, ids, i - 1);
        assert(states[i].next_value() == states[i - 1].next_value() + 1);
    }
    if i < ids.len() {
        assert(ids[i].value() == states[i].next_value());
    }
}

} // verus!
