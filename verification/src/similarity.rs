//! Similarity between clients.
//!
//! From a [`ShoppingList`] it builds the dense purchase matrix `A` (clients
//! by products, 1 where the client bought the product), its transpose, and
//! the intersection matrix `A * Aᵀ`: entry `(i, j)` is the number of distinct
//! products that clients `i` and `j` both bought, and entry `(i, i)` the
//! number of distinct products of client `i`. The asymmetric Jaccard distance
//! from `i` to `j` is `1 - shared(i, j) / shared(i, i)`, or `1` when client
//! `i` bought nothing; this module keeps the two counts, exactly.
use vstd::prelude::*;

use crate::shopping::{ShoppingList, ShoppingListView};

verus! {

/// Client `c` bought product `k`.
pub open spec fn bought(list: ShoppingListView, c: int, k: int) -> bool {
    list.purchases[c].contains(k as usize)
}

/// The number of products below `k` that clients `i` and `j` both bought.
pub open spec fn common_below(list: ShoppingListView, i: int, j: int, k: int) -> nat
    decreases k,
{
    if k <= 0 {
        0
    } else {
        common_below(list, i, j, k - 1) + (if bought(list, i, k - 1) && bought(list, j, k - 1) {
            1nat
        } else {
            0nat
        })
    }
}

/// The number of distinct products that clients `i` and `j` both bought.
pub open spec fn common(list: ShoppingListView, i: int, j: int) -> nat {
    common_below(list, i, j, list.product_codes.len() as int)
}

/// `sum over t < k of row[t] * m[t][j]`.
pub open spec fn dot(row: Seq<u64>, m: Seq<Vec<u64>>, j: int, k: int) -> nat
    decreases k,
{
    if k <= 0 {
        0
    } else {
        dot(row, m, j, k - 1) + (row[k - 1] as nat) * (m[k - 1]@[j] as nat)
    }
}

/// A matrix of `rows` rows of `cols` entries each.
pub open spec fn is_matrix<T>(a: Seq<Vec<T>>, rows: nat, cols: nat) -> bool {
    &&& a.len() == rows
    &&& forall|i: int| 0 <= i < rows ==> (#[trigger] a[i])@.len() == cols
}

/// A matrix of `rows` rows of `cols` entries, each 0 or 1.
pub open spec fn is_01_matrix(a: Seq<Vec<u64>>, rows: nat, cols: nat) -> bool {
    &&& is_matrix(a, rows, cols)
    &&& forall|i: int, j: int| 0 <= i < rows && 0 <= j < cols ==> #[trigger] a[i]@[j] <= 1
}

proof fn lemma_dot_grows(row: Seq<u64>, m: Seq<Vec<u64>>, j: int, k: int, n: int)
    requires
        0 <= k <= n,
    ensures
        dot(row, m, j, k) <= dot(row, m, j, n),
    decreases n - k,
{
    if k < n {
        lemma_dot_grows(row, m, j, k + 1, n);
    }
}

proof fn lemma_dot_bound(row: Seq<u64>, m: Seq<Vec<u64>>, j: int, k: int)
    requires
        0 <= k <= row.len(),
        k <= m.len(),
        forall|t: int| 0 <= t < k ==> #[trigger] row[t] <= 1,
        forall|t: int| 0 <= t < k ==> (#[trigger] m[t])@.len() > j && m[t]@[j] <= 1,
    ensures
        dot(row, m, j, k) <= k,
    decreases k,
{
    if k > 0 {
        lemma_dot_bound(row, m, j, k - 1);
        let x = row[k - 1] as nat;
        let y = m[k - 1]@[j] as nat;
        assert(x * y <= 1) by (nonlinear_arith)
            requires
                x <= 1,
                y <= 1,
        ;
    }
}

proof fn lemma_common_below_bound(list: ShoppingListView, i: int, j: int, k: int)
    ensures
        common_below(list, i, j, k) <= common_below(list, i, i, k),
        common_below(list, i, j, k) == common_below(list, j, i, k),
    decreases k,
{
    if k > 0 {
        lemma_common_below_bound(list, i, j, k - 1);
    }
}

/// The transpose of the rectangular matrix `a`.
fn transpose<T: Copy>(a: &Vec<Vec<T>>) -> (t: Vec<Vec<T>>)
    requires
        a@.len() > 0,
        is_matrix(a@, a@.len(), a@[0]@.len()),
    ensures
        is_matrix(t@, a@[0]@.len(), a@.len()),
        forall|i: int, j: int|
            0 <= i < a@.len() && 0 <= j < a@[0]@.len() ==> #[trigger] t@[j]@[i] == a@[i]@[j],
{
    let m = a.len();
    let n = a[0].len();
    let mut t: Vec<Vec<T>> = Vec::new();
    let mut j: usize = 0;
    while j < n
        invariant
            m == a@.len(),
            n == a@[0]@.len(),
            is_matrix(a@, m as nat, n as nat),
            j <= n,
            is_matrix(t@, j as nat, m as nat),
            forall|i: int, jj: int| 0 <= i < m && 0 <= jj < j ==> #[trigger] t@[jj]@[i] == a@[i]@[jj],
        decreases n - j,
    {
        let mut row: Vec<T> = Vec::new();
        let mut i: usize = 0;
        while i < m
            invariant
                m == a@.len(),
                n == a@[0]@.len(),
                is_matrix(a@, m as nat, n as nat),
                j < n,
                i <= m,
                row@.len() == i,
                forall|ii: int| 0 <= ii < i ==> #[trigger] row@[ii] == a@[ii]@[j as int],
            decreases m - i,
        {
            row.push(a[i][j]);
            i += 1;
        }
        let ghost before = t@;
        t.push(row);
        proof {
            assert forall|i: int, jj: int| 0 <= i < m && 0 <= jj < j + 1 implies #[trigger] t@[jj]@[i]
                == a@[i]@[jj] by {
                if jj < j {
                    assert(t@[jj] == before[jj]);
                }
            }
            assert forall|ii: int| 0 <= ii < j + 1 implies (#[trigger] t@[ii])@.len() == m by {
                if ii < j {
                    assert(t@[ii] == before[ii]);
                }
            }
        }
        j += 1;
    }
    t
}

/// The product of the matrices `a` (`m` by `n`) and `b` (`n` by `p`), whose
/// entries must fit in a `u64`.
fn multiply(a: &Vec<Vec<u64>>, b: &Vec<Vec<u64>>) -> (c: Vec<Vec<u64>>)
    requires
        a@.len() > 0,
        b@.len() > 0,
        is_matrix(a@, a@.len(), b@.len()),
        is_matrix(b@, b@.len(), b@[0]@.len()),
        forall|i: int, j: int|
            0 <= i < a@.len() && 0 <= j < b@[0]@.len() ==> #[trigger] dot(a@[i]@, b@, j, b@.len() as int)
                <= u64::MAX,
    ensures
        is_matrix(c@, a@.len(), b@[0]@.len()),
        forall|i: int, j: int|
            0 <= i < a@.len() && 0 <= j < b@[0]@.len() ==> #[trigger] c@[i]@[j] == dot(a@[i]@, b@, j, b@.len() as int),
{
    let m = a.len();
    let n = a[0].len();
    let p = b[0].len();
    let mut c: Vec<Vec<u64>> = Vec::new();
    let mut i: usize = 0;
    while i < m
        invariant
            m == a@.len(),
            n == b@.len(),
            p == b@[0]@.len(),
            is_matrix(a@, m as nat, n as nat),
            is_matrix(b@, n as nat, p as nat),
            forall|i: int, j: int|
                0 <= i < m && 0 <= j < p ==> #[trigger] dot(a@[i]@, b@, j, n as int) <= u64::MAX,
            i <= m,
            is_matrix(c@, i as nat, p as nat),
            forall|ii: int, j: int| 0 <= ii < i && 0 <= j < p ==> #[trigger] c@[ii]@[j] == dot(a@[ii]@, b@, j, n as int),
        decreases m - i,
    {
        let mut row: Vec<u64> = Vec::new();
        let mut j: usize = 0;
        while j < p
            invariant
                m == a@.len(),
                n == b@.len(),
                p == b@[0]@.len(),
                is_matrix(a@, m as nat, n as nat),
                is_matrix(b@, n as nat, p as nat),
                forall|i: int, j: int|
                    0 <= i < m && 0 <= j < p ==> #[trigger] dot(a@[i]@, b@, j, n as int) <= u64::MAX,
                i < m,
                j <= p,
                row@.len() == j,
                forall|jj: int| 0 <= jj < j ==> #[trigger] row@[jj] == dot(a@[i as int]@, b@, jj, n as int),
            decreases p - j,
        {
            let mut sum: u64 = 0;
            let mut k: usize = 0;
            while k < n
                invariant
                    m == a@.len(),
                    n == b@.len(),
                    p == b@[0]@.len(),
                    is_matrix(a@, m as nat, n as nat),
                    is_matrix(b@, n as nat, p as nat),
                    dot(a@[i as int]@, b@, j as int, n as int) <= u64::MAX,
                    i < m,
                    j < p,
                    k <= n,
                    sum == dot(a@[i as int]@, b@, j as int, k as int),
                decreases n - k,
            {
                let x = a[i][k];
                let y = b[k][j];
                proof {
                    lemma_dot_grows(a@[i as int]@, b@, j as int, k + 1, n as int);
                    assert(dot(a@[i as int]@, b@, j as int, k + 1) == sum + (x as nat) * (y as nat));
                }
                sum = sum + x * y;
                k += 1;
            }
            row.push(sum);
            j += 1;
        }
        let ghost before = c@;
        c.push(row);
        proof {
            assert forall|ii: int, jj: int| 0 <= ii < i + 1 && 0 <= jj < p implies #[trigger] c@[ii]@[jj]
                == dot(a@[ii]@, b@, jj, n as int) by {
                if ii < i {
                    assert(c@[ii] == before[ii]);
                }
            }
            assert forall|ii: int| 0 <= ii < i + 1 implies (#[trigger] c@[ii])@.len() == p by {
                if ii < i {
                    assert(c@[ii] == before[ii]);
                }
            }
        }
        i += 1;
    }
    c
}

/// The purchase row of client `c` for `m` products: 1 where it bought the
/// product.
fn purchase_row(products: &[usize], m: usize) -> (row: Vec<u64>)
    ensures
        row@.len() == m,
        forall|k: int| 0 <= k < m ==> #[trigger] row@[k] == (if products@.contains(k as usize) {
            1u64
        } else {
            0u64
        }),
{
    let mut row: Vec<u64> = Vec::new();
    let mut k: usize = 0;
    while k < m
        invariant
            k <= m,
            row@.len() == k,
            forall|kk: int| 0 <= kk < k ==> #[trigger] row@[kk] == 0,
        decreases m - k,
    {
        row.push(0);
        k += 1;
    }
    let mut t: usize = 0;
    while t < products.len()
        invariant
            t <= products@.len(),
            row@.len() == m,
            forall|kk: int| 0 <= kk < m ==> #[trigger] row@[kk] == (if products@.take(t as int).contains(kk as usize) {
                1u64
            } else {
                0u64
            }),
        decreases products@.len() - t,
    {
        let k = products[t];
        let ghost before = row@;
        if k < m {
            row.set(k, 1);
        }
        proof {
            assert forall|kk: int| 0 <= kk < m implies #[trigger] row@[kk] == (if products@.take(t + 1).contains(kk as usize) {
                1u64
            } else {
                0u64
            }) by {
                assert(products@.take(t + 1) =~= products@.take(t as int).push(k));
                if products@.take(t as int).contains(kk as usize) {
                    let w = choose|w: int| 0 <= w < t && #[trigger] products@.take(t as int)[w] == kk as usize;
                    assert(products@.take(t + 1)[w] == kk as usize);
                }
                if products@.take(t + 1).contains(kk as usize) && kk as usize != k {
                    let w = choose|w: int| 0 <= w < t + 1 && #[trigger] products@.take(t + 1)[w] == kk as usize;
                    assert(products@.take(t as int)[w] == kk as usize);
                }
                if kk as usize == k {
                    assert(products@.take(t + 1)[t as int] == k);
                }
            }
        }
        t += 1;
    }
    assert(products@.take(products@.len() as int) =~= products@);
    row
}

proof fn lemma_dot_common(list: ShoppingListView, a: Seq<Vec<u64>>, at: Seq<Vec<u64>>, i: int, j: int, k: int)
    requires
        0 <= i < a.len(),
        0 <= j < a.len(),
        0 <= k <= a[i]@.len(),
        k <= at.len(),
        a[i]@.len() == a[j]@.len(),
        forall|c: int, q: int|
            0 <= c < a.len() && 0 <= q < a[c]@.len() ==> #[trigger] a[c]@[q] == (if bought(list, c, q) {
                1u64
            } else {
                0u64
            }),
        forall|q: int| 0 <= q < k ==> (#[trigger] at[q])@.len() > j && at[q]@[j] == a[j]@[q],
    ensures
        dot(a[i]@, at, j, k) == common_below(list, i, j, k),
    decreases k,
{
    if k > 0 {
        lemma_dot_common(list, a, at, i, j, k - 1);
        let q = k - 1;
        assert(a[i]@[q] == (if bought(list, i, q) { 1u64 } else { 0u64 }));
        assert(at[q]@[j] == (if bought(list, j, q) { 1u64 } else { 0u64 }));
    }
}

/// The products below `k` bought by both clients `i` and `j`.
pub open spec fn shared_products(list: ShoppingListView, i: int, j: int, k: int) -> Set<int> {
    Set::new(|q: int| 0 <= q < k && bought(list, i, q) && bought(list, j, q))
}

/// The intersection count is the size of the set of products that both
/// clients bought (each product counted once, however often it was bought).
pub proof fn law_common_counts_shared(list: ShoppingListView, i: int, j: int, k: int)
    ensures
        shared_products(list, i, j, k).finite(),
        common_below(list, i, j, k) == shared_products(list, i, j, k).len(),
    decreases k,
{
    if k <= 0 {
        assert(shared_products(list, i, j, k) =~= Set::<int>::empty());
    } else {
        law_common_counts_shared(list, i, j, k - 1);
        let prev = shared_products(list, i, j, k - 1);
        let cur = shared_products(list, i, j, k);
        if bought(list, i, k - 1) && bought(list, j, k - 1) {
            assert(cur =~= prev.insert(k - 1));
            assert(!prev.contains(k - 1));
        } else {
            assert(cur =~= prev);
        }
    }
}

/// The two counts behind the distance from one client to another: the
/// distance is `1 - shared / total`, or `1` when `total` is 0.
#[derive(Debug, Clone, Copy, PartialEq, Eq)]
pub struct Overlap {
    /// Distinct products bought by both clients.
    pub shared: u64,
    /// Distinct products bought by the first client.
    pub total: u64,
}

/// The intersection matrix of a shopping list.
pub struct Similarity {
    /// `shared[i][j]`: the number of distinct products bought by both `i` and `j`.
    shared: Vec<Vec<u64>>,
}

impl View for Similarity {
    type V = Seq<Seq<u64>>;

    closed spec fn view(&self) -> Seq<Seq<u64>> {
        self.shared@.map_values(|r: Vec<u64>| r@)
    }
}

impl Similarity {
    /// The matrix is square.
    pub closed spec fn wf(&self) -> bool {
        forall|i: int| 0 <= i < self.shared@.len() ==> (#[trigger] self.shared@[i])@.len() == self.shared@.len()
    }

    /// Builds the intersection matrix of `list`.
    pub fn new(list: &ShoppingList) -> (sim: Self)
        requires
            list.wf(),
            list@.clients.len() > 0,
            list@.product_codes.len() > 0,
        ensures
            sim.wf(),
            sim@.len() == list@.clients.len(),
            forall|i: int, j: int|
                0 <= i < sim@.len() && 0 <= j < sim@.len() ==> #[trigger] sim@[i][j] == common(list@, i, j),
    {
        let n = list.client_count();
        let m = list.product_count();
        let purchases = list.purchases();
        proof {
            list.lemma_wf();
        }
        // 1: dense purchase matrix
        let mut a: Vec<Vec<u64>> = Vec::new();
        let mut c: usize = 0;
        while c < n
            invariant
                n == list@.clients.len(),
                m == list@.product_codes.len(),
                purchases@.map_values(|p: Vec<usize>| p@) == list@.purchases,
                list@.purchases.len() == n,
                c <= n,
                is_01_matrix(a@, c as nat, m as nat),
                forall|cc: int, q: int|
                    0 <= cc < c && 0 <= q < m ==> #[trigger] a@[cc]@[q] == (if bought(list@, cc, q) {
                        1u64
                    } else {
                        0u64
                    }),
            decreases n - c,
        {
            let row = purchase_row(purchases[c].as_slice(), m);
            let ghost before = a@;
            proof {
                assert(list@.purchases[c as int] == purchases@[c as int]@);
            }
            a.push(row);
            proof {
                assert forall|cc: int, q: int| 0 <= cc < c + 1 && 0 <= q < m implies #[trigger] a@[cc]@[q]
                    == (if bought(list@, cc, q) {
                    1u64
                } else {
                    0u64
                }) by {
                    if cc < c {
                        assert(a@[cc] == before[cc]);
                    }
                }
                assert forall|cc: int, q: int| 0 <= cc < c + 1 && 0 <= q < m implies #[trigger] a@[cc]@[q]
                    <= 1 by {
                    if cc < c {
                        assert(a@[cc] == before[cc]);
                    }
                }
                assert forall|cc: int| 0 <= cc < c + 1 implies (#[trigger] a@[cc])@.len() == m by {
                    if cc < c {
                        assert(a@[cc] == before[cc]);
                    }
                }
            }
            c += 1;
        }
        // 2: its transpose
        let a_transposed = transpose(&a);
        // 3: the intersection matrix
        proof {
            assert forall|i: int, j: int| 0 <= i < n && 0 <= j < n implies #[trigger] dot(
                a@[i]@,
                a_transposed@,
                j,
                m as int,
            ) <= u64::MAX by {
                lemma_dot_bound(a@[i]@, a_transposed@, j, m as int);
            }
        }
        let shared = multiply(&a, &a_transposed);
        proof {
            assert forall|i: int, j: int| 0 <= i < n && 0 <= j < n implies #[trigger] shared@[i]@[j] == common(
                list@,
                i,
                j,
            ) by {
                lemma_dot_common(list@, a@, a_transposed@, i, j, m as int);
            }
        }
        let sim = Similarity { shared };
        proof {
            assert forall|i: int| 0 <= i < n implies #[trigger] sim@[i] == sim.shared@[i]@ by {}
        }
        sim
    }

    /// The number of clients (rows and columns of the matrix).
    pub fn size(&self) -> (r: usize)
        ensures
            r == self@.len(),
    {
        self.shared.len()
    }

    /// The overlap of client `from` with client `to`.
    pub fn similarity(&self, from: usize, to: usize) -> (r: Overlap)
        requires
            self.wf(),
            from < self@.len(),
            to < self@.len(),
        ensures
            r.shared == self@[from as int][to as int],
            r.total == self@[from as int][from as int],
    {
        proof {
            assert(self@[from as int] == self.shared@[from as int]@);
        }
        Overlap { shared: self.shared[from][to], total: self.shared[from][from] }
    }

    /// The client nearest to `client`: among the other clients, the first
    /// one sharing the most products with it (so the smallest distance from
    /// it); `client` itself when there is no other client.
    pub fn most_similar(&self, client: usize) -> (r: usize)
        requires
            self.wf(),
            client < self@.len(),
        ensures
            r < self@.len(),
            self@.len() == 1 ==> r == client,
            self@.len() > 1 ==> {
                &&& r != client
                &&& forall|j: int| 0 <= j < self@.len() && j != client ==> #[trigger] self@[client as int][j]
                    <= self@[client as int][r as int]
                &&& forall|j: int| 0 <= j < r && j != client ==> #[trigger] self@[client as int][j]
                    < self@[client as int][r as int]
            },
    {
        let row = &self.shared[client];
        let ghost rv = self@[client as int];
        proof {
            assert(rv == row@);
        }
        let mut best: usize = client;
        let mut found = false;
        let mut j: usize = 0;
        while j < row.len()
            invariant
                rv == row@,
                row@.len() == self@.len(),
                client < row@.len(),
                j <= row@.len(),
                best < row@.len(),
                found == (j >= 2 || (j == 1 && client != 0)),
                !found ==> best == client,
                found ==> {
                    &&& best != client
                    &&& best < j
                    &&& forall|jj: int| 0 <= jj < j && jj != client ==> #[trigger] rv[jj] <= rv[best as int]
                    &&& forall|jj: int| 0 <= jj < best && jj != client ==> #[trigger] rv[jj] < rv[best as int]
                },
            decreases row@.len() - j,
        {
            if j != client {
                if !found || row[j] > row[best] {
                    best = j;
                    found = true;
                }
            }
            j += 1;
        }
        best
    }

    /// Laws of the intersection matrix: it is symmetric, and no client
    /// shares more products with another than it bought, so the distance
    /// `1 - shared / total` lies between 0 and 1.
    pub proof fn lemma_overlap_bounds(list: ShoppingListView, i: int, j: int)
        ensures
            common(list, i, j) == common(list, j, i),
            common(list, i, j) <= common(list, i, i),
    {
        lemma_common_below_bound(list, i, j, list.product_codes.len() as int);
    }
}

} // verus!
