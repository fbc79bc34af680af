use tempest::bencoding::ParsingError;
use tempest::error::Error;
use tempest::metainfo::MetaError;

#[test]
fn errors_are_carried() {
    assert!(matches!(
        Error::from(ParsingError::InvalidInput),
        Error::Bencode(ParsingError::InvalidInput)
    ));
    assert!(matches!(
        Error::from(MetaError::NoInfoDict),
        Error::Metainfo(MetaError::NoInfoDict)
    ));
    assert!(matches!(
        MetaError::from(ParsingError::InvalidInput),
        MetaError::Bencode(ParsingError::InvalidInput)
    ));
    let io = std::io::Error::new(std::io::ErrorKind::NotFound, "gone");
    match Error::from(io) {
        Error::Io(e) => assert_eq!(e.to_string(), "gone"),
        _ => panic!("not carried"),
    }
}
