# recommender

Product recommendation from a sales `csv`, verified with Verus.

- `src/map.rs`: a separate-chaining hash map (`HashMap`) whose contents are
  a `Map` of key views; keys implement `MapKey`.
- `src/parsing.rs`: the `csv` format, stated over the UTF-8 bytes of the text,
  and `Record::parse`.
- `src/shopping.rs`: `ShoppingList`, clients and products indexed in order of
  first appearance, with each client's purchases.
- `src/similarity.rs`: the intersection matrix of the purchase matrix and the
  nearest client.
- `src/recommendation.rs`: neighbours and candidate products of a client.
- `app/lib.rs`: the floating-point distances and the ranking of candidates.
