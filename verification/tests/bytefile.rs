use nftp::bytefile::NFTPFile;
use nftp::error::BridgeError;

#[test]
fn new_file_is_empty() {
    let f = NFTPFile::new(5, 6);
    assert_eq!(f.mode, 5);
    assert_eq!(f.dev, 6);
    assert!(f.data.is_empty());
    assert_eq!(f.read(0, 10), Vec::<u8>::new());
}

#[test]
fn file_read_returns_min_of_size_and_rest() {
    let f = NFTPFile { mode: 0, dev: 0, data: vec![1, 2, 3, 4, 5, 6] };
    for offset in 0..6u64 {
        for size in 0..9u64 {
            let got = f.read(offset, size);
            let expect = std::cmp::min(size, 6 - offset) as usize;
            assert_eq!(got.len(), expect);
            assert_eq!(&got[..], &f.data[offset as usize..offset as usize + expect]);
        }
    }
    assert_eq!(f.read(6, 3), Vec::<u8>::new());
    assert_eq!(f.read(7, 3), Vec::<u8>::new());
}

#[test]
fn splice_keeps_what_it_does_not_cover() {
    let f = NFTPFile { mode: 0, dev: 0, data: vec![1, 2, 3, 4, 5, 6] };
    assert_eq!(f.splice(2, &vec![9, 9]), Ok(vec![1, 2, 9, 9, 5, 6]));
    assert_eq!(f.splice(0, &vec![9]), Ok(vec![9, 2, 3, 4, 5, 6]));
    assert_eq!(f.splice(5, &vec![9]), Ok(vec![1, 2, 3, 4, 5, 9]));
    assert_eq!(f.splice(5, &vec![9, 8]), Ok(vec![1, 2, 3, 4, 5, 9, 8]));
    assert_eq!(f.splice(6, &vec![9, 8]), Ok(vec![1, 2, 3, 4, 5, 6, 9, 8]));
    assert_eq!(f.splice(3, &vec![]), Ok(vec![1, 2, 3, 4, 5, 6]));
    assert_eq!(f.splice(7, &vec![9]), Err(BridgeError::OffsetOutOfRange));
    assert_eq!(f.splice(usize::MAX, &vec![9]), Err(BridgeError::OffsetOutOfRange));
    assert_eq!(f.data, vec![1, 2, 3, 4, 5, 6]);
}
