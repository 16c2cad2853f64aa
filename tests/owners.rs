use telesteller::owners::Owners;

#[test]
fn second_claim_displaces_first() {
    let mut owners = Owners::new();
    assert_eq!(owners.claim("c1", 1), None);
    assert_eq!(owners.claim("c2", 2), None);
    assert_eq!(owners.claim("c1", 3), Some(1));
    assert_eq!(owners.holder("c1"), Some(3));
    assert_eq!(owners.holder("c2"), Some(2));
}

#[test]
fn release_only_by_holder() {
    let mut owners = Owners::new();
    owners.claim("c1", 1);
    owners.claim("c1", 2);
    owners.release("c1", 1);
    assert_eq!(owners.holder("c1"), Some(2));
    owners.release("c1", 2);
    assert_eq!(owners.holder("c1"), None);
}
