use ledviz::config::MatrixConfiguration;

#[test]
fn configuration_bytes() {
    let c = MatrixConfiguration { width: 4, height: 2 };
    assert_eq!(c.to_bytes(), Some(vec![4, 2]));
}

#[test]
fn configuration_from_bytes() {
    assert_eq!(MatrixConfiguration::from_bytes(&[4, 2]), Some(MatrixConfiguration { width: 4, height: 2 }));
    assert_eq!(MatrixConfiguration::from_bytes(&[9, 1, 77]), Some(MatrixConfiguration { width: 9, height: 1 }));
    assert_eq!(MatrixConfiguration::from_bytes(&[9]), None);
    assert_eq!(MatrixConfiguration::from_bytes(&[]), None);
}

#[test]
fn configuration_roundtrip() {
    let c = MatrixConfiguration { width: 200, height: 17 };
    assert_eq!(MatrixConfiguration::from_bytes(&c.to_bytes().unwrap()), Some(c));
}
