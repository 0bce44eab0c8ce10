use recommender::parsing::Record;
use recommender::recommendation::Recommendation;
use recommender::shopping::ShoppingList;
use recommender::similarity::{Overlap, Similarity};

fn sample() -> Vec<Record<'static>> {
    vec![
        Record { timestamp: 1, user_id: "A", item_id: 1, name: "p1" },
        Record { timestamp: 1, user_id: "A", item_id: 2, name: "p2" },
        Record { timestamp: 1, user_id: "A", item_id: 2, name: "p2" },
        Record { timestamp: 1, user_id: "B", item_id: 2, name: "p2" },
        Record { timestamp: 1, user_id: "B", item_id: 3, name: "p3" },
        Record { timestamp: 1, user_id: "C", item_id: 1, name: "p1" },
        Record { timestamp: 1, user_id: "C", item_id: 2, name: "p2" },
        Record { timestamp: 1, user_id: "D", item_id: 4, name: "p4" },
    ]
}

#[test]
fn find_most_similar_for_two_clients() {
    let records = sample();
    let list = ShoppingList::new(&records);
    let sim = Similarity::new(&list);
    for &client in &[0usize, 1] {
        let similar = sim.most_similar(client);
        assert_ne!(similar, client, "most_similar must not return the client itself");
    }
}

#[test]
fn overlaps_count_distinct_shared_products() {
    let records = sample();
    let list = ShoppingList::new(&records);
    let sim = Similarity::new(&list);
    assert_eq!(sim.size(), 4);
    // A bought {1, 2} (2 twice), B {2, 3}, C {1, 2}, D {4}
    assert_eq!(sim.similarity(0, 0), Overlap { shared: 2, total: 2 });
    assert_eq!(sim.similarity(0, 1), Overlap { shared: 1, total: 2 });
    assert_eq!(sim.similarity(0, 2), Overlap { shared: 2, total: 2 });
    assert_eq!(sim.similarity(0, 3), Overlap { shared: 0, total: 2 });
    assert_eq!(sim.similarity(1, 0), Overlap { shared: 1, total: 2 });
    assert_eq!(sim.similarity(3, 3), Overlap { shared: 1, total: 1 });
}

#[test]
fn most_similar_prefers_most_shared_then_first() {
    let records = sample();
    let list = ShoppingList::new(&records);
    let sim = Similarity::new(&list);
    assert_eq!(sim.most_similar(0), 2);
    assert_eq!(sim.most_similar(2), 0);
    assert_eq!(sim.most_similar(1), 0);
    // D shares nothing: every distance is 1, the first other client wins
    assert_eq!(sim.most_similar(3), 0);
}

#[test]
fn single_client_is_its_own_nearest() {
    let records = vec![Record { timestamp: 1, user_id: "A", item_id: 1, name: "p1" }];
    let list = ShoppingList::new(&records);
    let sim = Similarity::new(&list);
    assert_eq!(sim.most_similar(0), 0);
}

#[test]
fn neighbours_and_candidates() {
    let records = sample();
    let list = ShoppingList::new(&records);
    let sim = Similarity::new(&list);
    let rec = Recommendation::new(sim, &list);
    assert_eq!(rec.neighbours(0), vec![1, 2]);
    assert_eq!(rec.neighbours(3), Vec::<usize>::new());
    // products: 0 = p1, 1 = p2, 2 = p3, 3 = p4
    assert_eq!(rec.candidates(0), vec![2, 3]);
    assert_eq!(rec.candidates(1), vec![0, 3]);
    assert_eq!(rec.candidates(3), vec![0, 1, 2]);
}
