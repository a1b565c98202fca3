//! The splitter's block: rows grouped by client, each client's rows in
//! input order, and the clients themselves in first-seen order.
use vstd::prelude::*;

use crate::tx_row::TxRow;
use vstd::hash_map::HashMapWithView;

verus! {

/// Rows grouped by owner, one pass from the left: each row is appended
/// to its client's run.
pub open spec fn spec_group(rows: Seq<TxRow>) -> Map<u16, Seq<TxRow>>
    decreases rows.len(),
{
    if rows.len() == 0 {
        Map::empty()
    } else {
        let m = spec_group(rows.drop_last());
        let c = rows.last().client_id;
        if m.contains_key(c) {
            m.insert(c, m[c].push(rows.last()))
        } else {
            m.insert(c, seq![rows.last()])
        }
    }
}

/// The clients of a row sequence, in order of first appearance.
pub open spec fn spec_clients(rows: Seq<TxRow>) -> Seq<u16>
    decreases rows.len(),
{
    if rows.len() == 0 {
        Seq::empty()
    } else {
        let p = spec_clients(rows.drop_last());
        if p.contains(rows.last().client_id) {
            p
        } else {
            p.push(rows.last().client_id)
        }
    }
}

/// Grouping keeps input order per client: a client's run is exactly the
/// input filtered to that client, and a client appears in the grouping
/// exactly when it owns some row.
pub proof fn lemma_group_is_filter(rows: Seq<TxRow>, c: u16)
    ensures
        spec_group(rows).contains_key(c) ==> spec_group(rows)[c] == rows.filter(
            |r: TxRow| r.client_id == c,
        ),
        !spec_group(rows).contains_key(c) ==> rows.filter(|r: TxRow| r.client_id == c)
            == Seq::<TxRow>::empty(),
    decreases rows.len(),
{
    reveal(Seq::filter);
    if rows.len() == 0 {
        assert(rows.filter(|r: TxRow| r.client_id == c) =~= Seq::<TxRow>::empty());
    } else {
        lemma_group_is_filter(rows.drop_last(), c);
        let pred = |r: TxRow| r.client_id == c;
        assert(rows.filter(pred) == if pred(rows.last()) {
            rows.drop_last().filter(pred).push(rows.last())
        } else {
            rows.drop_last().filter(pred)
        });
        if !spec_group(rows).contains_key(c) {
            assert(rows.last().client_id != c);
            assert(!spec_group(rows.drop_last()).contains_key(c));
        } else if rows.last().client_id == c {
            if spec_group(rows.drop_last()).contains_key(c) {
                assert(spec_group(rows)[c] == spec_group(rows.drop_last())[c].push(rows.last()));
            } else {
                assert(rows.drop_last().filter(pred) =~= Seq::<TxRow>::empty());
                assert(spec_group(rows)[c] =~= seq![rows.last()]);
                assert(rows.filter(pred) =~= seq![rows.last()]);
            }
        } else {
            assert(spec_group(rows)[c] == spec_group(rows.drop_last())[c]);
        }
    }
}

/// The grouping and the first-seen client list name the same clients.
pub proof fn lemma_clients_complete(rows: Seq<TxRow>, c: u16)
    ensures
        spec_group(rows).contains_key(c) == spec_clients(rows).contains(c),
    decreases rows.len(),
{
    if rows.len() > 0 {
        lemma_clients_complete(rows.drop_last(), c);
        let p = spec_clients(rows.drop_last());
        if rows.last().client_id == c {
            if !p.contains(c) {
                assert(spec_clients(rows)[spec_clients(rows).len() - 1] == c);
            }
        } else {
            if p.contains(c) {
                let i = choose|i: int| 0 <= i < p.len() && p[i] == c;
                if !p.contains(rows.last().client_id) {
                    assert(spec_clients(rows)[i] == c);
                }
            } else {
                assert forall|i: int|
                    0 <= i < spec_clients(rows).len() implies spec_clients(rows)[i] != c by {
                    if i < p.len() {
                        assert(p[i] == spec_clients(rows)[i]);
                        assert(p.contains(p[i])) by {
                            assert(p[i] == p[i]);
                        }
                    }
                }
            }
        }
    }
}

/// Order is kept across blocks: a client's rows in two successive
/// blocks, grouped block by block, line up exactly as grouping the whole
/// stream at once would put them.
pub proof fn lemma_group_across_blocks(r1: Seq<TxRow>, r2: Seq<TxRow>, c: u16)
    ensures
        (r1 + r2).filter(|r: TxRow| r.client_id == c) == r1.filter(|r: TxRow| r.client_id == c)
            + r2.filter(|r: TxRow| r.client_id == c),
{
    Seq::<TxRow>::filter_distributes_over_add(r1, r2, |r: TxRow| r.client_id == c);
}

/// One block of grouped rows.
pub struct TxCluster {
    tx_row_map: HashMapWithView<u16, Vec<TxRow>>,
    clients: Vec<u16>,
}

impl TxCluster {
    /// The grouped rows.
    pub closed spec fn contents(&self) -> Map<u16, Seq<TxRow>> {
        Map::new(
            |c: u16| self.tx_row_map@.contains_key(c),
            |c: u16| self.tx_row_map@[c]@,
        )
    }

    /// The clients, in order of first appearance.
    pub closed spec fn client_list(&self) -> Seq<u16> {
        self.clients@
    }

    /// The client list and the grouping name the same clients, each once.
    pub closed spec fn inv(&self) -> bool {
        &&& (forall|i: int|
            0 <= i < self.clients@.len() ==> self.tx_row_map@.contains_key(
                #[trigger] self.clients@[i],
            ))
        &&& (forall|c: u16|
            #[trigger] self.tx_row_map@.contains_key(c) ==> self.clients@.contains(c))
        &&& (forall|i: int, j: int|
            0 <= i < j < self.clients@.len() ==> #[trigger] self.clients@[i] != #[trigger] self.clients@[j])
        &&& (forall|c: u16, i: int|
            #![trigger self.tx_row_map@[c]@[i]]
            self.tx_row_map@.contains_key(c) && 0 <= i < self.tx_row_map@[c]@.len()
                ==> self.tx_row_map@[c]@[i].client_id == c)
    }

    /// Every row in a client's run belongs to that client.
    pub proof fn lemma_rows_owned(&self, c: u16)
        requires
            self.inv(),
            self.contents().contains_key(c),
        ensures
            forall|i: int|
                0 <= i < self.contents()[c].len() ==> (#[trigger] self.contents()[c][i]).client_id
                    == c,
    {
        assert forall|i: int|
            0 <= i < self.contents()[c].len() implies (#[trigger] self.contents()[c][i]).client_id
            == c by {
            assert(self.tx_row_map@[c]@[i].client_id == c);
        }
    }

    pub fn new() -> (r: TxCluster)
        ensures
            r.inv(),
            r.contents() == spec_group(Seq::<TxRow>::empty()),
            r.client_list() == spec_clients(Seq::<TxRow>::empty()),
    {
        let r = TxCluster { tx_row_map: HashMapWithView::new(), clients: Vec::new() };
        proof {
            assert(r.contents() =~= spec_group(Seq::<TxRow>::empty()));
            assert(r.client_list() =~= spec_clients(Seq::<TxRow>::empty()));
        }
        r
    }

    /// Appends one row to its client's run, keeping arrival order.
    pub fn add(&mut self, tx_row: TxRow)
        requires
            old(self).inv(),
        ensures
            final(self).inv(),
            final(self).contents() == ({
                let m = old(self).contents();
                let c = tx_row.client_id;
                if m.contains_key(c) {
                    m.insert(c, m[c].push(tx_row))
                } else {
                    m.insert(c, seq![tx_row])
                }
            }),
            final(self).client_list() == (if old(self).client_list().contains(tx_row.client_id) {
                old(self).client_list()
            } else {
                old(self).client_list().push(tx_row.client_id)
            }),
    {
        let c = tx_row.client_id;
        let ghost old_contents = self.contents();
        match self.tx_row_map.remove(&c) {
            Some(mut v) => {
                proof {
                    assert(self.clients@.contains(c));
                }
                v.push(tx_row);
                self.tx_row_map.insert(c, v);
                proof {
                    assert(self.contents() =~= old_contents.insert(
                        c,
                        old_contents[c].push(tx_row),
                    ));
                }
            },
            None => {
                let mut v: Vec<TxRow> = Vec::new();
                v.push(tx_row);
                self.tx_row_map.insert(c, v);
                self.clients.push(c);
                proof {
                    assert(v@ =~= seq![tx_row]);
                    assert(self.contents() =~= old_contents.insert(c, seq![tx_row]));
                    assert(forall|i: int|
                        0 <= i < old(self).clients@.len() ==> old(self).clients@[i]
                            == #[trigger] self.clients@[i]);
                    assert(!old(self).client_list().contains(c));
                    assert(self.clients@[self.clients@.len() - 1] == c);
                    assert forall|c2: u16| #[trigger]
                        self.tx_row_map@.contains_key(c2) implies self.clients@.contains(c2) by {
                        if c2 == c {
                            assert(self.clients@[self.clients@.len() - 1] == c2);
                        } else {
                            assert(old(self).tx_row_map@.contains_key(c2));
                            let i = choose|i: int|
                                0 <= i < old(self).clients@.len() && old(self).clients@[i] == c2;
                            assert(self.clients@[i] == c2);
                        }
                    }
                    assert forall|i: int|
                        0 <= i < self.clients@.len() implies self.tx_row_map@.contains_key(
                        #[trigger] self.clients@[i],
                    ) by {
                        if i < self.clients@.len() - 1 {
                            assert(old(self).tx_row_map@.contains_key(old(self).clients@[i]));
                        }
                    }
                }
            },
        }
    }

    /// The rows of one client, in arrival order; `None` for a client
    /// that owns none.
    pub fn rows_for(&self, client_id: &u16) -> (r: Option<&Vec<TxRow>>)
        ensures
            match r {
                Some(v) => self.contents().contains_key(*client_id) && v@ == self.contents().index(
                    *client_id,
                ),
                None => !self.contents().contains_key(*client_id),
            },
    {
        self.tx_row_map.get(client_id)
    }

    /// The clients of this block, in first-seen order.
    pub fn client_ids(&self) -> (r: &Vec<u16>)
        ensures
            r@ == self.client_list(),
    {
        &self.clients
    }

    /// How many clients the block holds.
    pub fn len(&self) -> (r: usize)
        ensures
            r == self.client_list().len(),
    {
        self.clients.len()
    }
}

} // verus!
