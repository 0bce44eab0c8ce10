//! Recommendation of products to a client.
//!
//! A product is a candidate for a client when the client has not bought it.
//! The neighbours of a client are the other clients that share at least one
//! product with it (distance below 1). A candidate's rank is the product of
//! the distances to the neighbours, one factor per purchase of the candidate
//! by a neighbour; the best candidates have the smallest rank. The ranking
//! itself is floating-point arithmetic and stays with the caller; this module
//! selects the neighbours and the candidates.
use vstd::prelude::*;

use crate::shopping::ShoppingList;
use crate::similarity::{bought, Similarity};

verus! {

/// The numbers below `n` that satisfy `p`, in increasing order.
pub open spec fn indices_below(n: int, p: spec_fn(int) -> bool) -> Seq<usize>
    decreases n,
{
    if n <= 0 {
        seq![]
    } else {
        let r = indices_below(n - 1, p);
        if p(n - 1) {
            r.push((n - 1) as usize)
        } else {
            r
        }
    }
}

/// `indices_below(n, p)` lists each number below `n` that satisfies `p`,
/// and nothing else, in strictly increasing order.
pub proof fn law_indices_below(n: int, p: spec_fn(int) -> bool)
    requires
        n <= usize::MAX,
    ensures
        forall|s: int| 0 <= s < n ==> (p(s) <==> #[trigger] indices_below(n, p).contains(s as usize)),
        forall|i: int|
            0 <= i < indices_below(n, p).len() ==> {
                &&& (#[trigger] indices_below(n, p)[i]) < n
                &&& p(indices_below(n, p)[i] as int)
            },
        forall|i: int, j: int|
            0 <= i < j < indices_below(n, p).len() ==> #[trigger] indices_below(n, p)[i]
                < #[trigger] indices_below(n, p)[j],
    decreases n,
{
    if n > 0 {
        law_indices_below(n - 1, p);
        let r = indices_below(n - 1, p);
        let r2 = indices_below(n, p);
        assert(((n - 1) as usize) as int == n - 1);
        assert forall|s: int| 0 <= s < n implies (p(s) <==> #[trigger] r2.contains(s as usize)) by {
            if s < n - 1 {
                if r.contains(s as usize) {
                    let i = choose|i: int| 0 <= i < r.len() && r[i] == s as usize;
                    if p(n - 1) {
                        assert(r2[i] == r[i]);
                    }
                }
                if r2.contains(s as usize) {
                    let i = choose|i: int| 0 <= i < r2.len() && r2[i] == s as usize;
                    if p(n - 1) && i == r.len() {
                        assert(r2[i] == (n - 1) as usize);
                    } else {
                        assert(r2[i] == r[i]);
                    }
                }
            } else {
                if p(n - 1) {
                    assert(r2[r.len() as int] == (n - 1) as usize);
                } else if r2.contains(s as usize) {
                    let i = choose|i: int| 0 <= i < r2.len() && r2[i] == s as usize;
                    assert(r[i] < n - 1);
                }
            }
        }
        assert forall|i: int| 0 <= i < r2.len() implies {
            &&& (#[trigger] r2[i]) < n
            &&& p(r2[i] as int)
        } by {
            if i < r.len() {
                assert(r2[i] == r[i]);
            }
        }
        assert forall|i: int, j: int| 0 <= i < j < r2.len() implies #[trigger] r2[i] < #[trigger] r2[j] by {
            assert(r2[i] == r[i]);
            if j < r.len() {
                assert(r2[j] == r[j]);
            }
        }
    }
}

/// Recommends products from a similarity matrix and the list it was built from.
pub struct Recommendation<'l> {
    matrix: Similarity,
    list: &'l ShoppingList<'l>,
}

impl<'l> Recommendation<'l> {
    /// The similarity matrix.
    pub closed spec fn spec_matrix(&self) -> Similarity {
        self.matrix
    }

    /// The shopping list.
    pub closed spec fn spec_list(&self) -> ShoppingList<'l> {
        *self.list
    }

    /// Both parts are well formed and the matrix has a row and a column per
    /// client of the list.
    pub open spec fn wf(&self) -> bool {
        &&& self.spec_matrix().wf()
        &&& self.spec_list().wf()
        &&& self.spec_matrix()@.len() == self.spec_list()@.clients.len()
    }

    pub fn new(matrix: Similarity, list: &'l ShoppingList<'l>) -> (r: Self)
        ensures
            r.spec_matrix() == matrix,
            r.spec_list() == *list,
    {
        Recommendation { matrix, list }
    }

    /// The similarity matrix.
    pub fn matrix(&self) -> (r: &Similarity)
        ensures
            *r == self.spec_matrix(),
    {
        &self.matrix
    }

    /// The shopping list.
    pub fn list(&self) -> (r: &'l ShoppingList<'l>)
        ensures
            *r == self.spec_list(),
    {
        self.list
    }

    /// The other clients that share at least one product with `client`, in
    /// increasing order: those whose distance from `client` is below 1.
    pub fn neighbours(&self, client: usize) -> (r: Vec<usize>)
        requires
            self.wf(),
            client < self.spec_list()@.clients.len(),
        ensures
            r@ == indices_below(
                self.spec_matrix()@.len() as int,
                |s: int| s != client && self.spec_matrix()@[client as int][s] > 0,
            ),
    {
        let n = self.list.client_count();
        let ghost p = |s: int| s != client && self.spec_matrix()@[client as int][s] > 0;
        let mut r: Vec<usize> = Vec::new();
        let mut s: usize = 0;
        while s < n
            invariant
                self.wf(),
                client < n,
                n == self.spec_matrix()@.len(),
                p == (|s: int| s != client && self.spec_matrix()@[client as int][s] > 0),
                s <= n,
                r@ == indices_below(s as int, p),
            decreases n - s,
        {
            if s != client {
                let overlap = self.matrix.similarity(client, s);
                if overlap.shared > 0 {
                    r.push(s);
                }
            }
            s += 1;
        }
        r
    }

    /// The products that `client` has not bought, in increasing order.
    pub fn candidates(&self, client: usize) -> (r: Vec<usize>)
        requires
            self.wf(),
            client < self.spec_list()@.clients.len(),
        ensures
            r@ == indices_below(
                self.spec_list()@.product_codes.len() as int,
                |k: int| !bought(self.spec_list()@, client as int, k),
            ),
    {
        let list = self.list;
        let products = list.product_count();
        let purchases = list.purchases();
        proof {
            list.lemma_wf();
            assert(purchases@[client as int]@ == list@.purchases[client as int]);
        }
        let mine = purchases[client].as_slice();
        // the purchases of the client as a dense vector of flags
        let mut bought_flags: Vec<bool> = Vec::new();
        let mut k: usize = 0;
        while k < products
            invariant
                k <= products,
                bought_flags@.len() == k,
                forall|kk: int| 0 <= kk < k ==> !#[trigger] bought_flags@[kk],
            decreases products - k,
        {
            bought_flags.push(false);
            k += 1;
        }
        let mut t: usize = 0;
        while t < mine.len()
            invariant
                mine@ == list@.purchases[client as int],
                products == list@.product_codes.len(),
                forall|q: int| 0 <= q < mine@.len() ==> #[trigger] mine@[q] < products,
                t <= mine@.len(),
                bought_flags@.len() == products,
                forall|kk: int| 0 <= kk < products ==> #[trigger] bought_flags@[kk] == mine@.take(t as int).contains(kk as usize),
            decreases mine@.len() - t,
        {
            let q = mine[t];
            bought_flags.set(q, true);
            proof {
                assert(mine@.take(t + 1) =~= mine@.take(t as int).push(q));
                assert forall|kk: int| 0 <= kk < products implies #[trigger] bought_flags@[kk] == mine@.take(t + 1).contains(kk as usize) by {
                    if mine@.take(t as int).contains(kk as usize) {
                        let w = choose|w: int| 0 <= w < t && #[trigger] mine@.take(t as int)[w] == kk as usize;
                        assert(mine@.take(t + 1)[w] == kk as usize);
                    }
                    if kk as usize == q {
                        assert(mine@.take(t + 1)[t as int] == q);
                    } else if mine@.take(t + 1).contains(kk as usize) {
                        let w = choose|w: int| 0 <= w < t + 1 && #[trigger] mine@.take(t + 1)[w] == kk as usize;
                        assert(mine@.take(t as int)[w] == kk as usize);
                    }
                }
            }
            t += 1;
        }
        proof {
            assert(mine@.take(mine@.len() as int) =~= mine@);
        }
        let ghost p = |k: int| !bought(self.spec_list()@, client as int, k);
        let mut r: Vec<usize> = Vec::new();
        let mut k: usize = 0;
        while k < products
            invariant
                products == list@.product_codes.len(),
                *list == self.spec_list(),
                mine@ == list@.purchases[client as int],
                p == (|k: int| !bought(self.spec_list()@, client as int, k)),
                bought_flags@.len() == products,
                forall|kk: int| 0 <= kk < products ==> #[trigger] bought_flags@[kk] == mine@.contains(kk as usize),
                k <= products,
                r@ == indices_below(k as int, p),
            decreases products - k,
        {
            if !bought_flags[k] {
                r.push(k);
            }
            k += 1;
        }
        r
    }
}

} // verus!
