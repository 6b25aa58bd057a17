use ecs::blob::Blob;

fn bytes_of(values: &[i32]) -> Vec<u8> {
    let mut bytes = Vec::new();
    for value in values {
        bytes.extend_from_slice(&value.to_ne_bytes());
    }
    bytes
}

fn int_blob(values: &[i32]) -> Blob {
    let mut blob = Blob::with_item_size(std::mem::size_of::<i32>());
    blob.append_raw(bytes_of(values));
    blob
}

fn int_at(blob: &Blob, index: usize) -> Option<i32> {
    let size = std::mem::size_of::<i32>();
    if index < blob.len() {
        let mut raw = [0u8; 4];
        raw.copy_from_slice(&blob.data()[index * size..(index + 1) * size]);
        Some(i32::from_ne_bytes(raw))
    } else {
        None
    }
}

fn int_of(bytes: &[u8]) -> i32 {
    let mut raw = [0u8; 4];
    raw.copy_from_slice(bytes);
    i32::from_ne_bytes(raw)
}

#[test]
fn blob_append_raw() {
    let values = [10, 20, 30, 40];
    let mut blob = Blob::with_item_size(std::mem::size_of::<i32>());
    blob.append_raw(bytes_of(&values));

    for (index, value) in values.iter().enumerate() {
        assert_eq!(int_at(&blob, index), Some(*value));
    }
    assert_eq!(blob.len(), 4);
}

#[test]
fn blob_remove_raw() {
    let mut blob = int_blob(&[10]);

    let bytes = blob.remove_raw(0);
    assert_eq!(int_of(&bytes), 10);
    assert!(blob.is_empty());
}

#[test]
fn blob_swap_remove_raw() {
    let mut blob = int_blob(&[10, 20, 30]);

    let bytes = blob.swap_remove_raw(0);
    assert_eq!(int_of(&bytes), 10);
    assert_eq!(int_at(&blob, 0), Some(30));
    assert_eq!(int_at(&blob, 1), Some(20));
    assert_eq!(blob.len(), 2);
}

#[test]
fn blob_remove_raw_keeps_order() {
    let mut blob = int_blob(&[10, 20, 30, 40]);
    assert_eq!(int_of(&blob.remove_raw(1)), 20);
    assert_eq!(int_at(&blob, 0), Some(10));
    assert_eq!(int_at(&blob, 1), Some(30));
    assert_eq!(int_at(&blob, 2), Some(40));
    assert_eq!(int_at(&blob, 3), None);
}

#[test]
fn blob_swap_remove_raw_last() {
    let mut blob = int_blob(&[10, 20]);
    assert_eq!(int_of(&blob.swap_remove_raw(1)), 20);
    assert_eq!(int_at(&blob, 0), Some(10));
    assert_eq!(blob.len(), 1);
}

#[test]
fn blob_clear_and_into_raw() {
    let mut blob = int_blob(&[10, 20]);
    blob.clear();
    assert_eq!(blob.len(), 0);
    let (bytes, size) = blob.into_raw();
    assert!(bytes.is_empty());
    assert_eq!(size, 4);
}
