use poketcg::cards::CardMap;
use poketcg::catalog::catalog_queries;

fn expected_query(ids: &[String]) -> String {
    format!(
        "({})",
        ids.iter().map(|c| format!("id:{}", c)).collect::<Vec<String>>().join(" OR ")
    )
}

#[test]
fn no_ids_no_queries() {
    let out = catalog_queries(&Vec::new());
    assert!(out.is_empty());
}

#[test]
fn one_id_one_query() {
    let ids = vec!["base1-4".to_string()];
    assert_eq!(catalog_queries(&ids), vec!["(id:base1-4)".to_string()]);
}

#[test]
fn several_ids_one_disjunction() {
    let ids: Vec<String> = ["a", "b", "c"].iter().map(|s| s.to_string()).collect();
    assert_eq!(
        catalog_queries(&ids),
        vec!["(id:a OR id:b OR id:c)".to_string()]
    );
}

#[test]
fn chunked_at_two_hundred_fifty() {
    let ids: Vec<String> = (0..251).map(|i| format!("c{}", i)).collect();
    let out = catalog_queries(&ids);
    assert_eq!(out.len(), 2);
    assert_eq!(out[0], expected_query(&ids[..250]));
    assert_eq!(out[1], "(id:c250)");
}

#[test]
fn exactly_two_hundred_fifty_is_one_chunk() {
    let ids: Vec<String> = (0..250).map(|i| format!("c{}", i)).collect();
    let out = catalog_queries(&ids);
    assert_eq!(out.len(), 1);
    assert_eq!(out[0], expected_query(&ids));
}

#[test]
fn card_map_ids_in_storage_order() {
    let mut m = CardMap::new();
    m.add_qty(&"b".to_string(), 2);
    m.add_qty(&"a".to_string(), 1);
    m.add_qty(&"c".to_string(), 3);
    assert_eq!(
        m.ids(),
        vec!["b".to_string(), "a".to_string(), "c".to_string()]
    );
}

#[test]
fn card_map_tracks_quantities() {
    let mut m = CardMap::new();
    m.add_qty(&"a".to_string(), 2);
    m.add_qty(&"a".to_string(), 1);
    assert_eq!(m.get(&"a".to_string()), 3);
    assert_eq!(m.get(&"missing".to_string()), 0);
    assert_eq!(m.total(), 3);
    m.sub_qty(&"a".to_string(), 3);
    assert_eq!(m.len(), 0);
    assert_eq!(m.get(&"a".to_string()), 0);
}
