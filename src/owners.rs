//! Which live connection holds each client identifier: a new CONNECT for an
//! identifier displaces the connection that held it.
use vstd::prelude::*;

verus! {

/// The holders, as (client identifier, connection token) pairs.
pub type OwnersView = Seq<(Seq<char>, u64)>;

pub open spec fn holder_of(v: OwnersView, id: Seq<char>) -> Option<u64> {
    if exists|i: int| 0 <= i < v.len() && v[i].0 == id {
        Some(v[choose|i: int| 0 <= i < v.len() && v[i].0 == id].1)
    } else {
        None
    }
}

pub open spec fn unique_holders(v: OwnersView) -> bool {
    forall|i: int, j: int| 0 <= i < j < v.len() ==> v[i].0 != v[j].0
}

pub struct Owners {
    holders: Vec<(String, u64)>,
}

impl View for Owners {
    type V = OwnersView;

    closed spec fn view(&self) -> OwnersView {
        self.holders@.map_values(|e: (String, u64)| (e.0@, e.1))
    }
}

proof fn lemma_holder_at(v: OwnersView, id: Seq<char>, i: int)
    requires
        unique_holders(v),
        0 <= i < v.len(),
        v[i].0 == id,
    ensures
        holder_of(v, id) == Some(v[i].1),
{
    let k = choose|k: int| 0 <= k < v.len() && v[k].0 == id;
    assert(k == i);
}

proof fn lemma_remove_holder(v: OwnersView, i: int)
    requires
        unique_holders(v),
        0 <= i < v.len(),
    ensures
        unique_holders(v.remove(i)),
        holder_of(v.remove(i), v[i].0) is None,
        forall|u: Seq<char>| u != v[i].0 ==> holder_of(v.remove(i), u) == holder_of(v, u),
{
    let w = v.remove(i);
    assert forall|a: int, b: int| 0 <= a < b < w.len() implies w[a].0 != w[b].0 by {
        let a2 = if a < i { a } else { a + 1 };
        let b2 = if b < i { b } else { b + 1 };
        assert(v[a2].0 != v[b2].0);
    }
    if exists|j: int| 0 <= j < w.len() && w[j].0 == v[i].0 {
        let j = choose|j: int| 0 <= j < w.len() && w[j].0 == v[i].0;
        let j2 = if j < i { j } else { j + 1 };
        assert(v[j2].0 == v[i].0 && j2 != i);
    }
    assert forall|u: Seq<char>| u != v[i].0 implies holder_of(w, u) == holder_of(v, u) by {
        if exists|k: int| 0 <= k < v.len() && v[k].0 == u {
            let k = choose|k: int| 0 <= k < v.len() && v[k].0 == u;
            lemma_holder_at(v, u, k);
            let k2 = if k < i { k } else { k - 1 };
            assert(w[k2] == v[k]);
            lemma_holder_at(w, u, k2);
        } else if exists|k: int| 0 <= k < w.len() && w[k].0 == u {
            let k = choose|k: int| 0 <= k < w.len() && w[k].0 == u;
            let k2 = if k < i { k } else { k + 1 };
            assert(v[k2].0 == u);
        }
    }
}

proof fn lemma_push_holder(v: OwnersView, id: Seq<char>, c: u64)
    requires
        unique_holders(v),
        holder_of(v, id) is None,
    ensures
        unique_holders(v.push((id, c))),
        holder_of(v.push((id, c)), id) == Some(c),
        forall|u: Seq<char>| u != id ==> holder_of(v.push((id, c)), u) == holder_of(v, u),
{
    let w = v.push((id, c));
    assert forall|a: int, b: int| 0 <= a < b < w.len() implies w[a].0 != w[b].0 by {
        if b == v.len() {
            assert(w[a] == v[a]);
        }
    }
    lemma_holder_at(w, id, v.len() as int);
    assert forall|u: Seq<char>| u != id implies holder_of(w, u) == holder_of(v, u) by {
        if exists|k: int| 0 <= k < v.len() && v[k].0 == u {
            let k = choose|k: int| 0 <= k < v.len() && v[k].0 == u;
            lemma_holder_at(v, u, k);
            assert(w[k] == v[k]);
            lemma_holder_at(w, u, k);
        } else if exists|k: int| 0 <= k < w.len() && w[k].0 == u {
            let k = choose|k: int| 0 <= k < w.len() && w[k].0 == u;
            assert(k < v.len());
            assert(v[k].0 == u);
        }
    }
}

impl Owners {
    pub open spec fn wf(&self) -> bool {
        unique_holders(self@)
    }

    pub fn new() -> (r: Owners)
        ensures
            r.wf(),
            r@ == OwnersView::empty(),
    {
        let r = Owners { holders: Vec::new() };
        assert(r@ =~= OwnersView::empty());
        r
    }

    fn find(&self, client_id: &String) -> (r: Option<usize>)
        requires
            self.wf(),
        ensures
            match r {
                Some(i) => i < self@.len() && self@[i as int].0 == client_id@ && holder_of(
                    self@,
                    client_id@,
                ) == Some(self@[i as int].1),
                None => holder_of(self@, client_id@) is None,
            },
    {
        let mut i: usize = 0;
        while i < self.holders.len()
            invariant
                i <= self@.len(),
                self.wf(),
                self@.len() == self.holders@.len(),
                forall|j: int| 0 <= j < i ==> self@[j].0 != client_id@,
            decreases self@.len() - i,
        {
            if self.holders[i].0 == *client_id {
                proof {
                    lemma_holder_at(self@, client_id@, i as int);
                }
                return Some(i);
            }
            i = i + 1;
        }
        None
    }

    /// The connection that holds `client_id`, if any.
    pub fn holder(&self, client_id: &str) -> (r: Option<u64>)
        requires
            self.wf(),
        ensures
            r == holder_of(self@, client_id@),
    {
        let key = client_id.to_owned();
        match self.find(&key) {
            Some(i) => Some(self.holders[i].1),
            None => None,
        }
    }

    /// Gives `client_id` to `connection`; returns the connection it is taken
    /// from, if another held it.
    pub fn claim(&mut self, client_id: &str, connection: u64) -> (r: Option<u64>)
        requires
            old(self).wf(),
        ensures
            final(self).wf(),
            r == holder_of(old(self)@, client_id@),
            holder_of(final(self)@, client_id@) == Some(connection),
            forall|u: Seq<char>| u != client_id@ ==> holder_of(final(self)@, u) == holder_of(
                old(self)@,
                u,
            ),
    {
        let key = client_id.to_owned();
        let previous = match self.find(&key) {
            Some(i) => {
                let (_, token) = self.holders.remove(i);
                proof {
                    assert(self@ =~= old(self)@.remove(i as int));
                    lemma_remove_holder(old(self)@, i as int);
                }
                Some(token)
            },
            None => None,
        };
        let ghost mid = self@;
        self.holders.push((key, connection));
        proof {
            assert(self@ =~= mid.push((client_id@, connection)));
            lemma_push_holder(mid, client_id@, connection);
        }
        previous
    }

    /// Gives up `client_id`, where `connection` still holds it.
    pub fn release(&mut self, client_id: &str, connection: u64)
        requires
            old(self).wf(),
        ensures
            final(self).wf(),
            holder_of(old(self)@, client_id@) == Some(connection) ==> holder_of(
                final(self)@,
                client_id@,
            ) is None,
            holder_of(old(self)@, client_id@) != Some(connection) ==> final(self)@ == old(self)@,
            forall|u: Seq<char>| u != client_id@ ==> holder_of(final(self)@, u) == holder_of(
                old(self)@,
                u,
            ),
    {
        let key = client_id.to_owned();
        match self.find(&key) {
            Some(i) => {
                if self.holders[i].1 == connection {
                    self.holders.remove(i);
                    proof {
                        assert(self@ =~= old(self)@.remove(i as int));
                        lemma_remove_holder(old(self)@, i as int);
                    }
                }
            },
            None => {},
        }
    }
}

} // verus!
