use proto_build::exclude::is_excluded;

#[test]
fn exclusion_boundary_drops_whole_segment() {
    let exclusions = vec![String::from("cosmos")];
    assert!(is_excluded("cosmos.bank.v1beta1.ext", &exclusions));
}

#[test]
fn exclusion_boundary_keeps_longer_package() {
    let exclusions = vec![String::from("cosmos")];
    assert!(!is_excluded("cosmosx.bank.v1beta1.ext", &exclusions));
}

#[test]
fn empty_exclusion_set_keeps_everything() {
    let exclusions: Vec<String> = Vec::new();
    assert!(!is_excluded("cosmos.bank.v1beta1.ext", &exclusions));
    assert!(!is_excluded("anything.at.all", &exclusions));
}

#[test]
fn bare_prefix_without_separator_is_kept() {
    let exclusions = vec![String::from("cosmos")];
    assert!(!is_excluded("cosmos", &exclusions));
    assert!(is_excluded("cosmos.", &exclusions));
}

#[test]
fn any_prefix_of_the_set_drops() {
    let exclusions = vec![
        String::from("gogoproto"),
        String::from("google"),
        String::from("amino"),
    ];
    assert!(is_excluded("google.protobuf.ext", &exclusions));
    assert!(is_excluded("amino.amino.ext", &exclusions));
    assert!(!is_excluded("tendermint.types.ext", &exclusions));
}
