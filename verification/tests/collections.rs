use simple_parse::{DefaultCountType, SpRead, SpReader};

#[test]
fn collections() {
    let s = "Hello World !";
    let mut orig = (s.len() as DefaultCountType).to_le_bytes().to_vec();
    orig.extend(s.as_bytes());

    let mut src = SpReader::new(&orig);
    assert_eq!(<String>::from_reader(&mut src).unwrap(), s);
}
