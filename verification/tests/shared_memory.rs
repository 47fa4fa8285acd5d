use compositing::shared_memory::GenericSharedMemory;

#[test]
fn test_from_bytes_in_process() {
    let m = GenericSharedMemory::from_bytes(b"hello", false);
    assert!(m.as_ipc().is_none());
    assert_eq!(m.view().as_bytes(), b"hello");
}

#[test]
fn test_from_bytes_ipc() {
    let m = GenericSharedMemory::from_bytes(b"hello", true);
    assert!(m.as_ipc().is_some());
    assert_eq!(m.view().as_bytes(), b"hello");
}

#[test]
fn test_from_byte_in_process() {
    let m = GenericSharedMemory::from_byte(0xAB, 4, false);
    assert_eq!(m.view().as_bytes(), &[0xAB, 0xAB, 0xAB, 0xAB]);
}

#[test]
fn test_from_byte_ipc() {
    let m = GenericSharedMemory::from_byte(7, 3, true);
    assert_eq!(m.view().as_bytes(), &[7, 7, 7]);
}

#[test]
fn test_clone_shares_bytes() {
    let m = GenericSharedMemory::from_bytes(b"abc", true);
    let c = m.clone();
    assert_eq!(c.view().as_bytes(), b"abc");
    assert!(c.as_ipc().is_some());
    let m = GenericSharedMemory::from_bytes(b"xyz", false);
    let c = m.clone();
    assert_eq!(c.view().as_bytes(), b"xyz");
    assert!(c.as_ipc().is_none());
}

#[test]
fn test_from_ipc_region() {
    let donor = GenericSharedMemory::from_bytes(b"moved", true);
    let region = donor.as_ipc().unwrap().clone();
    let m = GenericSharedMemory::from_ipc(region);
    assert!(m.as_ipc().is_some());
    assert_eq!(m.view().as_bytes(), b"moved");
}

#[test]
fn test_empty_region() {
    let m = GenericSharedMemory::from_bytes(b"", true);
    assert_eq!(m.view().as_bytes(), b"");
    let m = GenericSharedMemory::from_byte(1, 0, false);
    assert_eq!(m.view().as_bytes(), b"");
}
