use recommender::parsing::Record;
use recommender::shopping::ShoppingList;

fn sample() -> Vec<Record<'static>> {
    vec![
        Record { timestamp: 1, user_id: "99BMYG01", item_id: 10, name: "Arroz" },
        Record { timestamp: 2, user_id: "9O09ND01", item_id: 20, name: "Feijao" },
        Record { timestamp: 3, user_id: "99BMYG01", item_id: 20, name: "Feijao preto" },
        Record { timestamp: 4, user_id: "93311201", item_id: 30, name: "Cafe" },
        Record { timestamp: 5, user_id: "99BMYG01", item_id: 10, name: "Arroz" },
    ]
}

#[test]
fn unknown_client_returns_none() {
    let records = sample();
    let list = ShoppingList::new(&records);
    assert!(list.client_products("INVALID_CODE").is_none());
    assert!(list.client_index("INVALID_CODE").is_none());
}

#[test]
fn show_products_for_three_clients() {
    let records = sample();
    let list = ShoppingList::new(&records);
    let clients = ["99BMYG01", "9O09ND01", "93311201"];
    for code in clients {
        let products = list.client_products(code).expect("sample client should exist");
        assert!(!products.is_empty());
        for &pid in products {
            assert!(list.product_name(pid).is_some());
        }
    }
}

#[test]
fn indices_follow_first_appearance() {
    let records = sample();
    let list = ShoppingList::new(&records);
    assert_eq!(list.client_count(), 3);
    assert_eq!(list.product_count(), 3);
    assert_eq!(list.client_index("99BMYG01"), Some(0));
    assert_eq!(list.client_index("9O09ND01"), Some(1));
    assert_eq!(list.client_index("93311201"), Some(2));
    // a product is named by the first record that has its code
    assert_eq!(list.product_name(0), Some("Arroz"));
    assert_eq!(list.product_name(1), Some("Feijao"));
    assert_eq!(list.product_name(2), Some("Cafe"));
    assert_eq!(list.product_name(3), None);
}

#[test]
fn purchases_keep_record_order_and_repeats() {
    let records = sample();
    let list = ShoppingList::new(&records);
    assert_eq!(list.client_products("99BMYG01"), Some(&[0usize, 1, 0][..]));
    assert_eq!(list.client_products("9O09ND01"), Some(&[1usize][..]));
    assert_eq!(list.client_products("93311201"), Some(&[2usize][..]));
    let purchases = list.purchases();
    assert_eq!(purchases.len(), 3);
    let total: usize = purchases.iter().map(|p| p.len()).sum();
    assert_eq!(total, records.len());
}

#[test]
fn empty_records_give_empty_list() {
    let records: Vec<Record<'static>> = Vec::new();
    let list = ShoppingList::new(&records);
    assert_eq!(list.client_count(), 0);
    assert_eq!(list.product_count(), 0);
    assert!(list.purchases().is_empty());
    assert!(list.client_products("99BMYG01").is_none());
}
