//! The purchases of the parsed records, indexed for lookup.
//!
//! Clients and products get internal indices in the order in which they
//! first appear in the records; each client has the list of the internal
//! indices of the products it bought, one per record, in record order.
use vstd::prelude::*;

use crate::map::HashMap;
use crate::parsing::Record;

verus! {

/// The distinct elements of `s`, in the order of their first occurrence.
pub open spec fn first_seen<T>(s: Seq<T>) -> Seq<T>
    decreases s.len(),
{
    if s.len() == 0 {
        seq![]
    } else {
        let p = first_seen(s.drop_last());
        if p.contains(s.last()) {
            p
        } else {
            p.push(s.last())
        }
    }
}

/// `first_seen(s)` holds every element of `s`, nothing else, and none twice.
pub proof fn lemma_first_seen<T>(s: Seq<T>)
    ensures
        first_seen(s).no_duplicates(),
        forall|j: int| 0 <= j < s.len() ==> first_seen(s).contains(#[trigger] s[j]),
        forall|x: T| #[trigger] first_seen(s).contains(x) ==> s.contains(x),
        first_seen(s).len() <= s.len(),
    decreases s.len(),
{
    if s.len() > 0 {
        let q = s.drop_last();
        lemma_first_seen(q);
        let p = first_seen(q);
        assert forall|j: int| 0 <= j < s.len() implies first_seen(s).contains(#[trigger] s[j]) by {
            if j < s.len() - 1 {
                assert(q[j] == s[j]);
                assert(p.contains(q[j]));
                if !p.contains(s.last()) {
                    let k = choose|k: int| 0 <= k < p.len() && p[k] == s[j];
                    assert(p.push(s.last())[k] == s[j]);
                }
            } else {
                if !p.contains(s.last()) {
                    assert(p.push(s.last())[p.len() as int] == s.last());
                }
            }
        }
        assert forall|x: T| #[trigger] first_seen(s).contains(x) implies s.contains(x) by {
            if p.contains(x) {
                assert(q.contains(x));
                let k = choose|k: int| 0 <= k < q.len() && q[k] == x;
                assert(s[k] == x);
            } else {
                assert(s[s.len() - 1] == x);
            }
        }
        if !p.contains(s.last()) {
            assert forall|i: int, j: int| 0 <= i < j < p.push(s.last()).len() implies p.push(s.last())[i]
                != p.push(s.last())[j] by {
                if j == p.len() {
                    assert(p.push(s.last())[i] == p[i]);
                }
            }
        }
    }
}

/// The client codes of the records.
pub open spec fn user_ids<'l>(rs: Seq<Record<'l>>) -> Seq<Seq<char>> {
    rs.map_values(|r: Record<'l>| r.user_id@)
}

/// The product codes of the records.
pub open spec fn item_ids<'l>(rs: Seq<Record<'l>>) -> Seq<u32> {
    rs.map_values(|r: Record<'l>| r.item_id)
}

/// The clients of the records, in order of first appearance.
pub open spec fn clients_of<'l>(rs: Seq<Record<'l>>) -> Seq<Seq<char>> {
    first_seen(user_ids(rs))
}

/// The product codes of the records, in order of first appearance.
pub open spec fn products_of<'l>(rs: Seq<Record<'l>>) -> Seq<u32> {
    first_seen(item_ids(rs))
}

/// The names of the products of `products_of(rs)`: each product is named by
/// the first record that has its code.
pub open spec fn product_names_of<'l>(rs: Seq<Record<'l>>) -> Seq<Seq<char>>
    decreases rs.len(),
{
    if rs.len() == 0 {
        seq![]
    } else {
        let p = product_names_of(rs.drop_last());
        if products_of(rs.drop_last()).contains(rs.last().item_id) {
            p
        } else {
            p.push(rs.last().name@)
        }
    }
}

/// The product codes of the records of client `who`, in record order.
pub open spec fn bought_by<'l>(rs: Seq<Record<'l>>, who: Seq<char>) -> Seq<u32>
    decreases rs.len(),
{
    if rs.len() == 0 {
        seq![]
    } else {
        let p = bought_by(rs.drop_last(), who);
        if rs.last().user_id@ == who {
            p.push(rs.last().item_id)
        } else {
            p
        }
    }
}

/// What a shopping list holds: the clients by internal index, the products
/// (code and name) by internal index, and for each client the internal
/// indices of the products it bought.
pub struct ShoppingListView {
    pub clients: Seq<Seq<char>>,
    pub product_codes: Seq<u32>,
    pub product_names: Seq<Seq<char>>,
    pub purchases: Seq<Seq<usize>>,
}

/// Holds the purchase data indexed for fast lookup.
pub struct ShoppingList<'l> {
    /// The position inside this vector is the internal client index.
    clients: Vec<&'l str>,
    /// Reverse lookup from client code to internal index.
    client_map: HashMap<&'l str, usize>,
    /// The position inside this vector is the internal product index.
    products: Vec<&'l str>,
    /// Reverse lookup from product code to internal index.
    product_map: HashMap<u32, usize>,
    /// The product codes by internal index.
    product_codes: Ghost<Seq<u32>>,
    /// List of internal product indices that the client has purchased.
    purchases: Vec<Vec<usize>>,
}

/// `keys` has no element twice and `map` sends each of them to its position.
pub open spec fn indexes<K>(map: Map<K, usize>, keys: Seq<K>) -> bool {
    &&& keys.no_duplicates()
    &&& forall|k: K| #[trigger] map.contains_key(k) <==> keys.contains(k)
    &&& forall|i: int| 0 <= i < keys.len() ==> map[#[trigger] keys[i]] == i
}

impl<'l> View for ShoppingList<'l> {
    type V = ShoppingListView;

    closed spec fn view(&self) -> ShoppingListView {
        ShoppingListView {
            clients: self.clients@.map_values(|c: &'l str| c@),
            product_codes: self.product_codes@,
            product_names: self.products@.map_values(|p: &'l str| p@),
            purchases: self.purchases@.map_values(|p: Vec<usize>| p@),
        }
    }
}

impl<'l> ShoppingList<'l> {
    /// The list's internal invariant.
    pub closed spec fn wf(&self) -> bool {
        &&& self.client_map.wf()
        &&& self.product_map.wf()
        &&& indexes(self.client_map@, self@.clients)
        &&& indexes(self.product_map@, self@.product_codes)
        &&& self@.product_names.len() == self@.product_codes.len()
        &&& self@.purchases.len() == self@.clients.len()
        &&& forall|c: int, t: int|
            0 <= c < self@.purchases.len() && 0 <= t < self@.purchases[c].len()
                ==> #[trigger] self@.purchases[c][t] < self@.product_codes.len()
    }
    /// Indexes the purchases of `records`.
    pub fn new(records: &[Record<'l>]) -> (list: Self)
        ensures
            list.wf(),
            list@.clients == clients_of(records@),
            list@.product_codes == products_of(records@),
            list@.product_names == product_names_of(records@),
            forall|c: int|
                #![trigger list@.purchases[c]]
                0 <= c < list@.clients.len() ==> {
                    &&& list@.purchases[c].len() == bought_by(records@, list@.clients[c]).len()
                    &&& forall|t: int|
                        0 <= t < list@.purchases[c].len() ==> list@.product_codes[#[trigger] list@.purchases[c][t] as int]
                            == bought_by(records@, list@.clients[c])[t]
                },
    {
        let ghost rs = records@;
        let mut clients: Vec<&'l str> = Vec::new();
        let mut client_map: HashMap<&'l str, usize> = HashMap::new();
        let mut products: Vec<&'l str> = Vec::new();
        let mut product_map: HashMap<u32, usize> = HashMap::new();
        let ghost mut codes: Seq<u32> = Seq::empty();
        let mut i: usize = 0;
        // first pass: every distinct client and product, in order of appearance
        while i < records.len()
            invariant
                rs == records@,
                i <= rs.len(),
                client_map.wf(),
                product_map.wf(),
                clients@.map_values(|c: &'l str| c@) == first_seen(user_ids(rs.take(i as int))),
                codes == first_seen(item_ids(rs.take(i as int))),
                products@.map_values(|p: &'l str| p@) == product_names_of(rs.take(i as int)),
                indexes(client_map@, clients@.map_values(|c: &'l str| c@)),
                indexes(product_map@, codes),
                client_map@.dom().len() == clients@.len(),
                product_map@.dom().len() == codes.len(),
                clients@.len() <= i,
                codes.len() <= i,
                products@.len() == codes.len(),
            decreases rs.len() - i,
        {
            let record = &records[i];
            proof {
                assert(user_ids(rs.take(i + 1)) =~= user_ids(rs.take(i as int)).push(record.user_id@));
                assert(item_ids(rs.take(i + 1)) =~= item_ids(rs.take(i as int)).push(record.item_id));
                assert(user_ids(rs.take(i + 1)).drop_last() =~= user_ids(rs.take(i as int)));
                assert(item_ids(rs.take(i + 1)).drop_last() =~= item_ids(rs.take(i as int)));
                assert(rs.take(i + 1).drop_last() =~= rs.take(i as int));
                lemma_first_seen(user_ids(rs.take(i as int)));
                lemma_first_seen(item_ids(rs.take(i as int)));
            }
            if client_map.get(record.user_id).is_none() {
                let idx = clients.len();
                let ghost before = clients@.map_values(|c: &'l str| c@);
                clients.push(record.user_id);
                client_map.insert(record.user_id, idx);
                proof {
                    assert(clients@.map_values(|c: &'l str| c@) =~= before.push(record.user_id@));
                    assert forall|k: Seq<char>| #[trigger] client_map@.contains_key(k) <==> before.push(
                        record.user_id@,
                    ).contains(k) by {
                        if k == record.user_id@ {
                            assert(before.push(record.user_id@)[before.len() as int] == k);
                        } else if before.contains(k) {
                            let j = choose|j: int| 0 <= j < before.len() && before[j] == k;
                            assert(before.push(record.user_id@)[j] == k);
                        } else if before.push(record.user_id@).contains(k) {
                            let j = choose|j: int|
                                0 <= j < before.len() + 1 && before.push(record.user_id@)[j] == k;
                            assert(before[j] == k);
                        }
                    }
                    assert(!before.contains(record.user_id@));
                    assert forall|j: int| 0 <= j < before.len() + 1 implies client_map@[#[trigger] before.push(
                        record.user_id@,
                    )[j]] == j by {
                        if j < before.len() {
                            assert(before.push(record.user_id@)[j] == before[j]);
                        }
                    }
                }
            }
            if product_map.get(&record.item_id).is_none() {
                let idx = products.len();
                let ghost before = products@.map_values(|p: &'l str| p@);
                let ghost before_codes = codes;
                products.push(record.name);
                product_map.insert(record.item_id, idx);
                proof {
                    assert(!before_codes.contains(record.item_id));
                    codes = codes.push(record.item_id);
                    assert forall|j: int| 0 <= j < codes.len() implies product_map@[#[trigger] codes[j]] == j by {
                        if j < before_codes.len() {
                            assert(codes[j] == before_codes[j]);
                        }
                    }
                    assert(products@.map_values(|p: &'l str| p@) =~= before.push(record.name@));
                    assert forall|k: u32| #[trigger] product_map@.contains_key(k) <==> codes.contains(k) by {
                        if k == record.item_id {
                            assert(codes[before_codes.len() as int] == k);
                        } else if before_codes.contains(k) {
                            let j = choose|j: int| 0 <= j < before_codes.len() && before_codes[j] == k;
                            assert(codes[j] == k);
                        } else if codes.contains(k) {
                            let j = choose|j: int| 0 <= j < codes.len() && codes[j] == k;
                            assert(before_codes[j] == k);
                        }
                    }
                }
            }
            i += 1;
        }
        proof {
            assert(rs.take(rs.len() as int) =~= rs);
            lemma_first_seen(user_ids(rs));
            lemma_first_seen(item_ids(rs));
        }
        let ghost client_view = clients@.map_values(|c: &'l str| c@);
        // second pass: each purchase goes to its client, by internal indices
        let mut purchases: Vec<Vec<usize>> = Vec::new();
        let mut c: usize = 0;
        while c < clients.len()
            invariant
                c <= clients@.len(),
                purchases@.len() == c,
                forall|k: int| 0 <= k < c ==> (#[trigger] purchases@[k])@.len() == 0,
            decreases clients@.len() - c,
        {
            purchases.push(Vec::new());
            c += 1;
        }
        let mut i: usize = 0;
        while i < records.len()
            invariant
                rs == records@,
                i <= rs.len(),
                client_map.wf(),
                product_map.wf(),
                client_view == clients@.map_values(|c: &'l str| c@),
                client_view == first_seen(user_ids(rs)),
                codes == first_seen(item_ids(rs)),
                indexes(client_map@, client_view),
                indexes(product_map@, codes),
                forall|j: int| 0 <= j < rs.len() ==> client_view.contains(#[trigger] user_ids(rs)[j]),
                forall|j: int| 0 <= j < rs.len() ==> codes.contains(#[trigger] item_ids(rs)[j]),
                purchases@.len() == client_view.len(),
                forall|c: int|
                    #![trigger purchases@[c]]
                    0 <= c < client_view.len() ==> {
                        &&& purchases@[c]@.len() == bought_by(rs.take(i as int), client_view[c]).len()
                        &&& forall|t: int|
                            0 <= t < purchases@[c]@.len() ==> #[trigger] purchases@[c]@[t] < codes.len()
                                && codes[purchases@[c]@[t] as int] == bought_by(rs.take(i as int), client_view[c])[t]
                    },
            decreases rs.len() - i,
        {
            let record = &records[i];
            proof {
                assert(user_ids(rs)[i as int] == record.user_id@);
                assert(item_ids(rs)[i as int] == record.item_id);
                assert(rs.take(i + 1).drop_last() =~= rs.take(i as int));
            }
            let client_idx = *client_map.index(record.user_id);
            let product_idx = *product_map.index(&record.item_id);
            let ghost before = purchases@;
            purchases[client_idx].push(product_idx);
            proof {
                assert forall|c: int|
                    #![trigger purchases@[c]]
                    0 <= c < client_view.len() implies {
                        &&& purchases@[c]@.len() == bought_by(rs.take(i + 1), client_view[c]).len()
                        &&& forall|t: int|
                            0 <= t < purchases@[c]@.len() ==> #[trigger] purchases@[c]@[t] < codes.len()
                                && codes[purchases@[c]@[t] as int] == bought_by(rs.take(i + 1), client_view[c])[t]
                    } by {
                    if c == client_idx {
                        assert(client_view[c] == record.user_id@);
                        assert(purchases@[c]@ =~= before[c]@.push(product_idx));
                    } else {
                        assert(client_view[c] != record.user_id@);
                        assert(purchases@[c] == before[c]);
                    }
                }
            }
            i += 1;
        }
        proof {
            assert(rs.take(rs.len() as int) =~= rs);
        }
        let list = ShoppingList {
            clients,
            client_map,
            products,
            product_map,
            product_codes: Ghost(codes),
            purchases,
        };
        proof {
            assert(list@.clients == client_view);
            assert forall|c: int| 0 <= c < list@.purchases.len() implies #[trigger] list@.purchases[c] == list.purchases@[c]@ by {}
        }
        list
    }


    /// The internal index of the client with code `code`, if there is one.
    pub fn client_index(&self, code: &str) -> (r: Option<usize>)
        requires
            self.wf(),
        ensures
            match r {
                Some(i) => i < self@.clients.len() && self@.clients[i as int] == code@,
                None => !self@.clients.contains(code@),
            },
    {
        match self.client_map.get(code) {
            Some(i) => {
                proof {
                    let j = choose|j: int| 0 <= j < self@.clients.len() && self@.clients[j] == code@;
                    assert(self.client_map@[self@.clients[j]] == j);
                }
                Some(*i)
            },
            None => None,
        }
    }

    /// The internal indices of the products that the client with code
    /// `client` bought, if there is such a client.
    pub fn client_products(&self, client: &str) -> (r: Option<&[usize]>)
        requires
            self.wf(),
        ensures
            match r {
                Some(p) => exists|i: int|
                    0 <= i < self@.clients.len() && self@.clients[i] == client@ && p@
                        == #[trigger] self@.purchases[i],
                None => !self@.clients.contains(client@),
            },
    {
        let idx = self.client_index(client)?;
        proof {
            assert(self@.purchases[idx as int] == self.purchases@[idx as int]@);
        }
        Some(self.purchases[idx].as_slice())
    }

    /// The name of the product with internal index `index`, if there is one.
    pub fn product_name(&self, index: usize) -> (r: Option<&str>)
        requires
            self.wf(),
        ensures
            match r {
                Some(name) => index < self@.product_names.len() && name@ == self@.product_names[index as int],
                None => index >= self@.product_names.len(),
            },
    {
        if index < self.products.len() {
            Some(self.products[index])
        } else {
            None
        }
    }

    /// The number of distinct clients.
    pub fn client_count(&self) -> (r: usize)
        ensures
            r == self@.clients.len(),
    {
        self.clients.len()
    }

    /// The number of distinct products.
    pub fn product_count(&self) -> (r: usize)
        requires
            self.wf(),
        ensures
            r == self@.product_codes.len(),
            r == self@.product_names.len(),
    {
        self.products.len()
    }

    /// For each client (by internal index), the internal indices of the
    /// products it bought.
    pub fn purchases(&self) -> (r: &[Vec<usize>])
        ensures
            r@.map_values(|p: Vec<usize>| p@) == self@.purchases,
    {
        self.purchases.as_slice()
    }

    /// The facts that `wf` holds for users of the list: clients and product
    /// codes are distinct, every client has a purchase list, and each
    /// purchase is the index of a product.
    pub proof fn lemma_wf(&self)
        requires
            self.wf(),
        ensures
            self@.clients.no_duplicates(),
            self@.product_codes.no_duplicates(),
            self@.product_names.len() == self@.product_codes.len(),
            self@.purchases.len() == self@.clients.len(),
            forall|c: int, t: int|
                0 <= c < self@.purchases.len() && 0 <= t < self@.purchases[c].len()
                    ==> #[trigger] self@.purchases[c][t] < self@.product_codes.len(),
    {
    }
}

/// Every record's client and product are known to the list built from the
/// records, and every client of the list bought at least one product.
pub proof fn law_records_are_indexed<'l>(rs: Seq<Record<'l>>, j: int, c: int)
    ensures
        0 <= j < rs.len() ==> clients_of(rs).contains(rs[j].user_id@) && products_of(rs).contains(
            rs[j].item_id,
        ),
        0 <= c < clients_of(rs).len() ==> bought_by(rs, clients_of(rs)[c]).len() > 0,
{
    lemma_first_seen(user_ids(rs));
    lemma_first_seen(item_ids(rs));
    if 0 <= j < rs.len() {
        assert(user_ids(rs)[j] == rs[j].user_id@);
        assert(item_ids(rs)[j] == rs[j].item_id);
    }
    if 0 <= c < clients_of(rs).len() {
        let who = clients_of(rs)[c];
        assert(clients_of(rs).contains(who));
        assert(user_ids(rs).contains(who));
        let w = choose|w: int| 0 <= w < user_ids(rs).len() && user_ids(rs)[w] == who;
        lemma_bought_by_nonempty(rs, who, w);
    }
}

proof fn lemma_bought_by_nonempty<'l>(rs: Seq<Record<'l>>, who: Seq<char>, w: int)
    requires
        0 <= w < rs.len(),
        rs[w].user_id@ == who,
    ensures
        bought_by(rs, who).len() > 0,
    decreases rs.len(),
{
    if w < rs.len() - 1 {
        lemma_bought_by_nonempty(rs.drop_last(), who, w);
    }
}

/// The number of purchases of the clients `cs`.
pub open spec fn total_bought<'l>(rs: Seq<Record<'l>>, cs: Seq<Seq<char>>) -> nat
    decreases cs.len(),
{
    if cs.len() == 0 {
        0
    } else {
        total_bought(rs, cs.drop_last()) + bought_by(rs, cs.last()).len()
    }
}

/// How many times `x` occurs in `s`.
pub open spec fn occurrences<T>(s: Seq<T>, x: T) -> nat
    decreases s.len(),
{
    if s.len() == 0 {
        0
    } else {
        occurrences(s.drop_last(), x) + (if s.last() == x {
            1nat
        } else {
            0nat
        })
    }
}

proof fn lemma_occurrences<T>(s: Seq<T>, x: T)
    requires
        s.no_duplicates(),
    ensures
        occurrences(s, x) == (if s.contains(x) {
            1nat
        } else {
            0nat
        }),
    decreases s.len(),
{
    if s.len() > 0 {
        let p = s.drop_last();
        assert(p.no_duplicates());
        lemma_occurrences(p, x);
        if s.last() == x {
            if p.contains(x) {
                let i = choose|i: int| 0 <= i < p.len() && p[i] == x;
                assert(s[i] == s[s.len() - 1]);
            }
            assert(s[s.len() - 1] == x);
        } else {
            if s.contains(x) {
                let i = choose|i: int| 0 <= i < s.len() && s[i] == x;
                assert(p[i] == x);
            }
            if p.contains(x) {
                let i = choose|i: int| 0 <= i < p.len() && p[i] == x;
                assert(s[i] == x);
            }
        }
    }
}

proof fn lemma_total_bought_step<'l>(rs: Seq<Record<'l>>, cs: Seq<Seq<char>>)
    requires
        rs.len() > 0,
    ensures
        total_bought(rs, cs) == total_bought(rs.drop_last(), cs) + occurrences(cs, rs.last().user_id@),
    decreases cs.len(),
{
    if cs.len() > 0 {
        lemma_total_bought_step(rs, cs.drop_last());
    }
}

proof fn lemma_bought_by_stranger<'l>(rs: Seq<Record<'l>>, who: Seq<char>)
    requires
        !user_ids(rs).contains(who),
    ensures
        bought_by(rs, who).len() == 0,
    decreases rs.len(),
{
    if rs.len() > 0 {
        let p = rs.drop_last();
        assert(user_ids(rs)[rs.len() - 1] == rs.last().user_id@);
        assert forall|i: int| 0 <= i < user_ids(p).len() implies user_ids(p)[i] != who by {
            assert(user_ids(p)[i] == user_ids(rs)[i]);
        }
        lemma_bought_by_stranger(p, who);
    }
}

/// Every record is one purchase: over all clients, the purchase lists hold
/// as many entries as there are records.
pub proof fn law_one_purchase_per_record<'l>(rs: Seq<Record<'l>>)
    ensures
        total_bought(rs, clients_of(rs)) == rs.len(),
    decreases rs.len(),
{
    if rs.len() > 0 {
        let p = rs.drop_last();
        let u = rs.last().user_id@;
        law_one_purchase_per_record(p);
        assert(user_ids(rs).drop_last() =~= user_ids(p));
        assert(user_ids(rs).last() == u);
        lemma_first_seen(user_ids(p));
        lemma_first_seen(user_ids(rs));
        let cp = clients_of(p);
        lemma_total_bought_step(rs, cp);
        lemma_occurrences(cp, u);
        if !cp.contains(u) {
            assert(clients_of(rs) == cp.push(u));
            assert(cp.push(u).drop_last() =~= cp);
            assert(!user_ids(p).contains(u));
            lemma_bought_by_stranger(p, u);
        }
    }
}

/// `first_seen` keeps the order of first appearance: an element listed
/// before another occurs in `s` before every occurrence of the other.
pub proof fn law_first_seen_order<T>(s: Seq<T>)
    ensures
        forall|a: int, c: int, q: int|
            #![trigger first_seen(s)[a], first_seen(s)[c], s[q]]
            0 <= a < c < first_seen(s).len() && 0 <= q < s.len() && s[q] == first_seen(s)[c]
                ==> exists|p: int| #![trigger s[p]] 0 <= p < q && s[p] == first_seen(s)[a],
    decreases s.len(),
{
    if s.len() > 0 {
        let p0 = s.drop_last();
        law_first_seen_order(p0);
        lemma_first_seen(p0);
        lemma_first_seen(s);
        let fp = first_seen(p0);
        let fs = first_seen(s);
        assert forall|a: int, c: int, q: int|
            #![trigger fs[a], fs[c], s[q]]
            0 <= a < c < fs.len() && 0 <= q < s.len() && s[q] == fs[c] implies exists|p: int|
            #![trigger s[p]] 0 <= p < q && s[p] == fs[a] by {
            if fp.contains(s.last()) {
                if q < s.len() - 1 {
                    assert(p0[q] == s[q]);
                    let p = choose|p: int| #![trigger p0[p]] 0 <= p < q && p0[p] == fp[a];
                    assert(s[p] == p0[p]);
                } else {
                    assert(p0.contains(fs[c]));
                    let q2 = choose|q2: int| 0 <= q2 < p0.len() && p0[q2] == fs[c];
                    assert(p0[q2] == fp[c]);
                    let p = choose|p: int| #![trigger p0[p]] 0 <= p < q2 && p0[p] == fp[a];
                    assert(s[p] == p0[p]);
                }
            } else {
                assert(fs == fp.push(s.last()));
                if c < fp.len() {
                    assert(fs[c] == fp[c]);
                    assert(fs[a] == fp[a]);
                    if q == s.len() - 1 {
                        assert(fp.contains(fp[c]));
                    }
                    assert(q < s.len() - 1);
                    assert(p0[q] == s[q]);
                    let p = choose|p: int| #![trigger p0[p]] 0 <= p < q && p0[p] == fp[a];
                    assert(s[p] == p0[p]);
                } else {
                    assert(fs[a] == fp[a]);
                    assert(fp.contains(fp[a]));
                    assert(p0.contains(fp[a]));
                    let p = choose|p: int| 0 <= p < p0.len() && p0[p] == fp[a];
                    if q < s.len() - 1 {
                        assert(p0[q] == s.last());
                        assert(p0.contains(s.last()));
                        assert(fp.contains(s.last()));
                    }
                    assert(s[p] == p0[p]);
                }
            }
        }
    }
}

/// The first record with product code `code` is named `name`.
pub open spec fn named_first<'l>(rs: Seq<Record<'l>>, code: u32, name: Seq<char>) -> bool {
    exists|j: int|
        #![trigger rs[j]]
        0 <= j < rs.len() && rs[j].item_id == code && rs[j].name@ == name && forall|j2: int|
            0 <= j2 < j ==> #[trigger] rs[j2].item_id != code
}

/// Each product is named by the first record that has its code.
pub proof fn law_product_names<'l>(rs: Seq<Record<'l>>)
    ensures
        product_names_of(rs).len() == products_of(rs).len(),
        forall|k: int|
            0 <= k < products_of(rs).len() ==> named_first(rs, products_of(rs)[k], #[trigger] product_names_of(rs)[k]),
    decreases rs.len(),
{
    if rs.len() > 0 {
        let p0 = rs.drop_last();
        law_product_names(p0);
        assert(item_ids(rs).drop_last() =~= item_ids(p0));
        assert(item_ids(rs).last() == rs.last().item_id);
        lemma_first_seen(item_ids(p0));
        let cp = products_of(p0);
        let np = product_names_of(p0);
        let c = products_of(rs);
        let nm = product_names_of(rs);
        assert forall|k: int| 0 <= k < c.len() implies named_first(rs, c[k], #[trigger] nm[k]) by {
            if k < cp.len() {
                assert(c[k] == cp[k]);
                assert(nm[k] == np[k]);
                assert(named_first(p0, cp[k], np[k]));
                let j = choose|j: int|
                    #![trigger p0[j]]
                    0 <= j < p0.len() && p0[j].item_id == cp[k] && p0[j].name@ == np[k] && forall|j2: int|
                        0 <= j2 < j ==> #[trigger] p0[j2].item_id != cp[k];
                assert(rs[j] == p0[j]);
                assert forall|j2: int| 0 <= j2 < j implies #[trigger] rs[j2].item_id != c[k] by {
                    assert(rs[j2] == p0[j2]);
                    assert(p0[j2].item_id != cp[k]);
                }
            } else {
                let j = rs.len() - 1;
                assert(!cp.contains(rs.last().item_id));
                assert(c[k] == rs.last().item_id);
                assert(nm[k] == rs[j].name@);
                assert forall|j2: int| 0 <= j2 < j implies #[trigger] rs[j2].item_id != c[k] by {
                    assert(item_ids(p0)[j2] == rs[j2].item_id);
                    if rs[j2].item_id == c[k] {
                        assert(cp.contains(item_ids(p0)[j2]));
                    }
                }
                assert(rs[j].item_id == c[k]);
            }
        }
    } else {
        assert(item_ids(rs) =~= Seq::<u32>::empty());
        assert(products_of(rs).len() == 0);
    }
}

/// A client's purchases are the product codes of its records, in record
/// order: the records of other clients are left out and none is dropped.
pub proof fn law_bought_by_filters<'l>(rs: Seq<Record<'l>>, who: Seq<char>)
    ensures
        bought_by(rs, who) == rs.filter(|r: Record<'l>| r.user_id@ == who).map_values(
            |r: Record<'l>| r.item_id,
        ),
    decreases rs.len(),
{
    reveal_with_fuel(Seq::filter, 1);
    if rs.len() > 0 {
        law_bought_by_filters(rs.drop_last(), who);
        let f = rs.drop_last().filter(|r: Record<'l>| r.user_id@ == who);
        assert(f.push(rs.last()).map_values(|r: Record<'l>| r.item_id) =~= f.map_values(
            |r: Record<'l>| r.item_id,
        ).push(rs.last().item_id));
    } else {
        assert(rs.filter(|r: Record<'l>| r.user_id@ == who).map_values(|r: Record<'l>| r.item_id)
            =~= Seq::<u32>::empty());
    }
}

} // verus!
