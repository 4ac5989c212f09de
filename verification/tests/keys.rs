use airgraph::keys::position;

fn keys(names: &[&str]) -> Vec<String> {
    names.iter().map(|name| name.to_string()).collect()
}

#[test]
fn position_finds_the_first_index() {
    let names = keys(&["A", "B", "C", "B"]);
    assert_eq!(position(&names, &"A".to_string()), Some(0));
    assert_eq!(position(&names, &"B".to_string()), Some(1));
    assert_eq!(position(&names, &"C".to_string()), Some(2));
}

#[test]
fn position_of_a_missing_key_is_none() {
    let names = keys(&["A", "B"]);
    assert_eq!(position(&names, &"AB".to_string()), None);
    assert_eq!(position(&names, &"".to_string()), None);
    assert_eq!(position(&Vec::new(), &"A".to_string()), None);
}
