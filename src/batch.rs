use vstd::prelude::*;

verus! {

/// Bound on the parameters of one bulk write to the store.
pub const SINK_PARAMETER_LIMIT: usize = 65535;

/// The batches `bs` laid end to end.
pub open spec fn joined<T>(bs: Seq<Seq<T>>) -> Seq<T>
    decreases bs.len(),
{
    if bs.len() == 0 {
        Seq::empty()
    } else {
        joined(bs.drop_last()) + bs.last()
    }
}

/// `bs` cuts a stream into batches of `capacity` items, but for the last one,
/// which holds at least one and at most `capacity` items.
pub open spec fn well_cut<T>(bs: Seq<Seq<T>>, capacity: int) -> bool {
    &&& forall|k: int| 0 <= k < bs.len() ==> 0 < #[trigger] bs[k].len() <= capacity
    &&& forall|k: int| 0 <= k < bs.len() - 1 ==> #[trigger] bs[k].len() == capacity
}

/// How many items one bulk write can take when each item binds `fields`
/// parameters and a write may bind at most `limit`: `None` where not even one
/// item fits.
pub fn batch_capacity(limit: usize, fields: usize) -> (r: Option<usize>)
    ensures
        r == if fields > 0 && limit / fields > 0 {
            Some((limit / fields) as usize)
        } else {
            None::<usize>
        },
{
    if fields == 0 {
        return None;
    }
    let c = limit / fields;
    if c == 0 {
        None
    } else {
        Some(c)
    }
}

/// Cuts `logs` into runs of at most `SINK_PARAMETER_LIMIT / parameters`
/// items, each of which fits one bulk write of `parameters` fields per item.
pub fn split_logs<T>(logs: &Vec<T>, parameters: usize) -> (r: Vec<&[T]>)
    requires
        0 < parameters <= SINK_PARAMETER_LIMIT,
    ensures
        ({
            let m = SINK_PARAMETER_LIMIT / parameters;
            let n = logs@.len();
            &&& forall|k: int|
                0 <= k < r@.len() ==> (#[trigger] r@[k])@ == logs@.subrange(
                    k * m,
                    if (k + 1) * m < n {
                        (k + 1) * m
                    } else {
                        n as int
                    },
                )
            &&& r@.len() * m >= n
            &&& r@.len() > 0 ==> (r@.len() - 1) * m < n
        }),
{
    let m = SINK_PARAMETER_LIMIT / parameters;
    let n = logs.len();
    let all = logs.as_slice();
    let mut r: Vec<&[T]> = Vec::new();
    let mut start: usize = 0;
    assert(m > 0) by (nonlinear_arith)
        requires
            m == SINK_PARAMETER_LIMIT / parameters,
            0 < parameters <= SINK_PARAMETER_LIMIT,
    ;
    assert(r@.len() == 0);
    assert(r@.len() * m == 0) by (nonlinear_arith)
        requires
            r@.len() == 0,
    ;
    while start < n
        invariant
            m == SINK_PARAMETER_LIMIT / parameters,
            m > 0,
            n == logs@.len(),
            all@ == logs@,
            start <= n,
            start < n ==> start == r@.len() * m,
            start == n ==> r@.len() * m >= n,
            r@.len() > 0 ==> (r@.len() - 1) * m < n,
            forall|k: int|
                0 <= k < r@.len() ==> (#[trigger] r@[k])@ == logs@.subrange(
                    k * m,
                    if (k + 1) * m < n {
                        (k + 1) * m
                    } else {
                        n as int
                    },
                ),
        decreases n - start,
    {
        let ghost k = r@.len() as int;
        assert((k + 1) * m == k * m + m) by (nonlinear_arith);
        let end = if n - start > m {
            start + m
        } else {
            n
        };
        r.push(vstd::slice::slice_subrange(all, start, end));
        start = end;
    }
    r
}

/// Deals batches of at most `capacity` items to `workers` writers in turn.
pub struct Dispatcher<T> {
    capacity: usize,
    workers: usize,
    cursor: usize,
    batch: Vec<T>,
    pushed: Ghost<Seq<T>>,
    sent: Ghost<Seq<Seq<T>>>,
}

impl<T> Dispatcher<T> {
    pub closed spec fn capacity(&self) -> int {
        self.capacity as int
    }

    pub closed spec fn workers(&self) -> int {
        self.workers as int
    }

    /// The writer that the next batch goes to.
    pub closed spec fn cursor(&self) -> int {
        self.cursor as int
    }

    /// The items of the batch being filled.
    pub closed spec fn pending(&self) -> Seq<T> {
        self.batch@
    }

    /// Every item pushed so far, in order.
    pub closed spec fn pushed(&self) -> Seq<T> {
        self.pushed@
    }

    /// Every batch dispatched so far, in order.
    pub closed spec fn sent(&self) -> Seq<Seq<T>> {
        self.sent@
    }

    pub closed spec fn wf(&self) -> bool {
        &&& 0 < self.capacity
        &&& 0 < self.workers
        &&& self.batch@.len() < self.capacity
        &&& self.cursor as int == (self.sent@.len() as int) % (self.workers as int)
        &&& self.pushed@ == joined(self.sent@) + self.batch@
        &&& forall|k: int| 0 <= k < self.sent@.len() ==> #[trigger] self.sent@[k].len() == self.capacity
    }

    /// What well-formedness says in terms of the dispatcher's views.
    pub proof fn lemma_wf(&self)
        requires
            self.wf(),
        ensures
            0 < self.capacity(),
            0 < self.workers(),
            self.pending().len() < self.capacity(),
            self.cursor() == self.sent().len() as int % self.workers(),
            self.pushed() == joined(self.sent()) + self.pending(),
            forall|k: int| 0 <= k < self.sent().len() ==> #[trigger] self.sent()[k].len() == self.capacity(),
    {
    }

    pub fn new(capacity: usize, workers: usize) -> (d: Dispatcher<T>)
        requires
            capacity > 0,
            workers > 0,
        ensures
            d.wf(),
            d.capacity() == capacity,
            d.workers() == workers,
            d.cursor() == 0,
            d.pending() == Seq::<T>::empty(),
            d.pushed() == Seq::<T>::empty(),
            d.sent() == Seq::<Seq<T>>::empty(),
    {
        let d = Dispatcher {
            capacity,
            workers,
            cursor: 0,
            batch: Vec::new(),
            pushed: Ghost(Seq::empty()),
            sent: Ghost(Seq::empty()),
        };
        assert(joined(d.sent@) + d.batch@ == Seq::<T>::empty());
        d
    }

    /// Adds one item. When the batch becomes full it is handed out, with the
    /// writer it goes to, and the cursor moves on to the next writer.
    pub fn push(&mut self, item: T) -> (r: Option<(usize, Vec<T>)>)
        requires
            old(self).wf(),
        ensures
            final(self).wf(),
            final(self).capacity() == old(self).capacity(),
            final(self).workers() == old(self).workers(),
            final(self).pushed() == old(self).pushed().push(item),
            if old(self).pending().len() + 1 == old(self).capacity() {
                &&& r matches Some((w, b))
                &&& w == old(self).cursor()
                &&& b@ == old(self).pending().push(item)
                &&& final(self).sent() == old(self).sent().push(b@)
                &&& final(self).pending() == Seq::<T>::empty()
                &&& final(self).cursor() == if old(self).cursor() + 1 == old(self).workers() {
                    0
                } else {
                    old(self).cursor() + 1
                }
            } else {
                &&& r is None
                &&& final(self).sent() == old(self).sent()
                &&& final(self).pending() == old(self).pending().push(item)
                &&& final(self).cursor() == old(self).cursor()
            },
    {
        let ghost before = self.batch@;
        self.batch.push(item);
        self.pushed = Ghost(self.pushed@.push(item));
        assert(self.pushed@ == joined(self.sent@) + self.batch@);
        if self.batch.len() == self.capacity {
            let mut full: Vec<T> = Vec::new();
            std::mem::swap(&mut full, &mut self.batch);
            let w = self.cursor;
            let ghost old_sent = self.sent@;
            self.sent = Ghost(self.sent@.push(full@));
            proof {
                assert(self.sent@.drop_last() == old_sent);
                assert(joined(self.sent@) == joined(old_sent) + full@);
                assert(self.pushed@ == joined(self.sent@) + self.batch@);
                lemma_mod_next(old_sent.len() as int, self.workers as int);
            }
            self.cursor = if self.cursor + 1 == self.workers {
                0
            } else {
                self.cursor + 1
            };
            assert(full@ == before.push(item));
            assert(self.cursor as int == (self.sent@.len() as int) % (self.workers as int));
            Some((w, full))
        } else {
            proof {
                assert(self.pushed@ == joined(self.sent@) + self.batch@);
            }
            None
        }
    }

    /// Ends the stream: the partial batch, if it holds anything, goes to the
    /// writer whose turn it is.
    pub fn finish(self) -> (r: Option<(usize, Vec<T>)>)
        requires
            self.wf(),
        ensures
            if self.pending().len() == 0 {
                r is None
            } else {
                &&& r matches Some((w, b))
                &&& w == self.cursor()
                &&& b@ == self.pending()
            },
    {
        if self.batch.len() == 0 {
            None
        } else {
            Some((self.cursor, self.batch))
        }
    }
}

proof fn lemma_mod_next(k: int, w: int)
    requires
        k >= 0,
        w > 0,
    ensures
        (k + 1) % w == if k % w + 1 == w {
            0
        } else {
            k % w + 1
        },
{
    assert((k + 1) % w == if k % w + 1 == w {
        0
    } else {
        k % w + 1
    }) by (nonlinear_arith)
        requires
            k >= 0,
            w > 0,
    ;
}

} // verus!
