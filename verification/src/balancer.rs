//! The router's load-balancing decision: every client is pinned to one
//! worker for the whole run, new clients take workers round-robin. The
//! channels and threads that act on these decisions live outside the
//! library; the decision itself is total and proved stable.
use vstd::prelude::*;

use vstd::hash_map::HashMapWithView;

verus! {

pub struct Balancer {
    worker_map: HashMapWithView<u16, u16>,
    worker_id_ptr: u16,
    num_workers: u16,
}

impl Balancer {
    /// Which worker each seen client is pinned to.
    pub closed spec fn assignments(&self) -> Map<u16, u16> {
        self.worker_map@
    }

    pub closed spec fn workers(&self) -> u16 {
        self.num_workers
    }

    /// The worker the next unseen client will get.
    pub closed spec fn next_worker(&self) -> u16 {
        self.worker_id_ptr
    }

    /// Every assignment names a real worker and the round-robin pointer
    /// stays in range.
    pub closed spec fn inv(&self) -> bool {
        &&& self.num_workers >= 1
        &&& self.worker_id_ptr < self.num_workers
        &&& (forall|c: u16|
            #[trigger] self.worker_map@.contains_key(c) ==> self.worker_map@[c]
                < self.num_workers)
    }

    pub fn new(num_workers: u16) -> (r: Balancer)
        requires
            num_workers >= 1,
        ensures
            r.inv(),
            r.workers() == num_workers,
            r.next_worker() == 0,
            forall|c: u16| !(#[trigger] r.assignments().contains_key(c)),
    {
        Balancer { worker_map: HashMapWithView::new(), worker_id_ptr: 0, num_workers }
    }

    /// The worker that owns this client. A client seen before keeps its
    /// worker; an unseen one is bound to the next worker in round-robin
    /// order. No other binding ever changes.
    pub fn route(&mut self, client_id: u16) -> (w: u16)
        requires
            old(self).inv(),
        ensures
            final(self).inv(),
            final(self).workers() == old(self).workers(),
            w < old(self).workers(),
            old(self).assignments().contains_key(client_id) ==> w == old(
                self,
            ).assignments().index(client_id) && *final(self) == *old(self),
            !old(self).assignments().contains_key(client_id) ==> {
                &&& w == old(self).next_worker()
                &&& final(self).assignments() == old(self).assignments().insert(client_id, w)
                &&& final(self).next_worker() as int == (old(self).next_worker() + 1) % (
                old(self).workers() as int)
            },
            forall|c: u16|
                #[trigger] old(self).assignments().contains_key(c) ==> final(
                self).assignments().contains_key(c) && final(self).assignments().index(c) == old(
                self).assignments().index(c),
    {
        match self.worker_map.get(&client_id) {
            Some(w) => *w,
            None => {
                let w = self.worker_id_ptr;
                self.worker_map.insert(client_id, w);
                if self.worker_id_ptr == self.num_workers - 1 {
                    self.worker_id_ptr = 0;
                } else {
                    self.worker_id_ptr = self.worker_id_ptr + 1;
                }
                proof {
                    let p = old(self).worker_id_ptr as int;
                    let n = old(self).num_workers as int;
                    assert((p + 1) % n == if p == n - 1 {
                        0int
                    } else {
                        p + 1
                    }) by (nonlinear_arith)
                        requires
                            0 <= p < n,
                    ;
                }
                w
            },
        }
    }
}

} // verus!
