use declaro::codec::ParseAstPathError;
use declaro::path::AstPath;

fn path_of(indices: Vec<usize>) -> AstPath {
    AstPath { indices }
}

#[test]
fn serialize_empty_is_empty_string() {
    assert_eq!(AstPath::root().serialize(), "");
}

#[test]
fn serialize_joins_indices_with_dots() {
    assert_eq!(path_of(vec![0, 3, 1]).serialize(), "0.3.1");
    assert_eq!(path_of(vec![7]).serialize(), "7");
    assert_eq!(path_of(vec![10, 0, 255]).serialize(), "10.0.255");
}

#[test]
fn parse_empty_is_root() {
    let p = AstPath::parse("").unwrap();
    assert!(p.indices.is_empty());
}

#[test]
fn parse_reads_dotted_indices() {
    let p = AstPath::parse("0.3.1").unwrap();
    assert_eq!(p.indices, vec![0, 3, 1]);
    let q = AstPath::parse("9").unwrap();
    assert_eq!(q.indices, vec![9]);
}

#[test]
fn parse_accepts_leading_zeros() {
    let p = AstPath::parse("007.0").unwrap();
    assert_eq!(p.indices, vec![7, 0]);
}

#[test]
fn parse_rejects_non_digits() {
    assert_eq!(AstPath::parse("a"), Err(ParseAstPathError));
    assert_eq!(AstPath::parse("1.x"), Err(ParseAstPathError));
    assert_eq!(AstPath::parse("1,2"), Err(ParseAstPathError));
    assert_eq!(AstPath::parse("-1"), Err(ParseAstPathError));
}

#[test]
fn parse_rejects_empty_segments() {
    assert_eq!(AstPath::parse("."), Err(ParseAstPathError));
    assert_eq!(AstPath::parse("1."), Err(ParseAstPathError));
    assert_eq!(AstPath::parse(".1"), Err(ParseAstPathError));
    assert_eq!(AstPath::parse("1..2"), Err(ParseAstPathError));
}

#[test]
fn parse_rejects_values_past_usize() {
    assert_eq!(
        AstPath::parse("99999999999999999999999999"),
        Err(ParseAstPathError)
    );
    let max = usize::MAX.to_string();
    let p = AstPath::parse(&max).unwrap();
    assert_eq!(p.indices, vec![usize::MAX]);
}

#[test]
fn text_round_trip_on_samples() {
    for indices in [
        vec![],
        vec![0],
        vec![1, 2, 3],
        vec![0, 0, 0, 0],
        vec![usize::MAX, 12345, 9],
    ] {
        let p = path_of(indices);
        let back = AstPath::parse(&p.serialize()).unwrap();
        assert_eq!(back, p);
    }
}
