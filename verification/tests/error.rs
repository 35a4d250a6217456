use forceps::cache::index_dir;
use forceps::{ForcepError, Metadata};

#[test]
fn descriptions_of_errors() {
    assert_eq!(
        ForcepError::NotFound.message(),
        "the entry for the key provided was not found"
    );
    assert_eq!(
        ForcepError::MetaNotFound.message(),
        "the entry for the key provided was found, but the metadata was strangely not present"
    );
    let io = std::io::Error::new(std::io::ErrorKind::Other, "disk on fire");
    assert_eq!(
        ForcepError::Io(io).message(),
        "an I/O error occurred: disk on fire"
    );
    let db = sled::Error::Unsupported("no".to_string());
    assert_eq!(
        ForcepError::MetaDb(db.clone()).message(),
        format!("an error with the metadata database occurred: {}", db)
    );
    match Metadata::deserialize(&[]) {
        Err(e) => assert!(e
            .message()
            .starts_with("there was a problem deserializing metadata: ")),
        Ok(_) => panic!("no bytes are no record"),
    }
    match Metadata::new_at(b"", u64::MAX).serialize() {
        Err(e) => {
            assert!(e.message().starts_with("there was a problem serializing metadata: "));
            assert!(e.message().len() > "there was a problem serializing metadata: ".len());
        }
        Ok(_) => panic!("the time is beyond the signed range"),
    }
}

#[test]
fn metadata_store_lies_in_the_index_directory() {
    assert_eq!(index_dir("./cache"), "./cache/index");
    assert_eq!(index_dir(""), "/index");
}
