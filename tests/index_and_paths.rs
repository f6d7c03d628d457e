use resource_lib::index_serialization::{index_from_bytes, IndexSerializer, SerializationError};
use resource_lib::resource_library::{ByteStream, ResourceLibraryWriter};

#[test]
fn serialization() -> Result<(), SerializationError> {
    let index = vec![
        ("test/a.txt".to_owned(), 0u64, 68u64),
        ("test/b.txt".to_owned(), 68, 68),
        ("test/c.txt".to_owned(), 136, 72),
        ("test/testfile.png".to_owned(), 208, 5761572),
    ]
    .into_boxed_slice();

    let mut serializer = IndexSerializer::new();
    serializer.serialize_index(&index)?;
    let data = serializer.take();

    let deserialized_index = index_from_bytes(&data)?;

    assert_eq!(&index, &deserialized_index);

    Ok(())
}

#[test]
fn invalid_path() {
    let path = "test/abc?/def";

    let data = ByteStream::from([0, 1, 2, 3, 4, 5].to_vec());

    let mut lib = ResourceLibraryWriter::new();
    lib.write_stream(path.to_owned(), data).expect_err("Path should be inalid!");
}
