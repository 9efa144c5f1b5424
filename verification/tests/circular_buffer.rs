use ringlog::{BufferError, CircularBuffer};

#[test]
fn is_initially_empty() {
    let cb: CircularBuffer = CircularBuffer::new(100);

    assert_eq!(cb.start_ptr(), 0);
    assert_eq!(cb.end_ptr(), 0);
    assert_eq!(cb.replay().unwrap(), Vec::<String>::new());
}

#[test]
fn can_write_one_string_no_wrap() {
    let mut cb: CircularBuffer = CircularBuffer::new(100);

    cb.write_str(b"hello").unwrap();

    assert_eq!(cb.start_ptr(), 0);
    assert_eq!(cb.end_ptr(), 6);
    assert_eq!(cb.replay().unwrap(), vec![String::from("hello")]);
}

#[test]
fn can_write_two_strings_no_wrap() {
    let mut cb: CircularBuffer = CircularBuffer::new(100);

    cb.write_str(b"hello").unwrap();
    assert_eq!(cb.start_ptr(), 0);
    assert_eq!(cb.end_ptr(), 6);

    cb.write_str(b"world").unwrap();
    assert_eq!(cb.start_ptr(), 0);
    assert_eq!(cb.end_ptr(), 12);

    assert_eq!(
        cb.replay().unwrap(),
        vec![String::from("hello"), String::from("world")]
    );
}

#[test]
fn can_write_two_strings_with_wrap() {
    let mut cb: CircularBuffer = CircularBuffer::new(10);

    cb.write_str(b"hello").unwrap();
    assert_eq!(cb.start_ptr(), 0);
    assert_eq!(cb.end_ptr(), 6);

    cb.write_str(b"world").unwrap();
    assert_eq!(cb.start_ptr(), 6);
    assert_eq!(cb.end_ptr(), 2);

    assert_eq!(cb.replay().unwrap(), vec![String::from("world")]);
}

#[test]
fn can_write_three_strings_with_wrap() {
    let mut cb: CircularBuffer = CircularBuffer::new(10);

    cb.write_str(b"hello").unwrap();
    cb.write_str(b"world").unwrap();
    cb.write_str(b"peace").unwrap();

    assert_eq!(cb.replay().unwrap(), vec![String::from("peace")]);
}

#[test]
fn can_write_three_strings_with_partial_wrap() {
    let mut cb: CircularBuffer = CircularBuffer::new(15);

    cb.write_str(b"hello").unwrap();
    cb.write_str(b"world").unwrap();
    cb.write_str(b"peace").unwrap();

    assert_eq!(
        cb.replay().unwrap(),
        vec![String::from("world"), String::from("peace")]
    );
}

#[test]
fn can_write_one_string_fitting_buffer() {
    // it requires two null bytes to work so len(string) + 2
    let mut cb: CircularBuffer = CircularBuffer::new(7);

    cb.write_str(b"hello").unwrap();

    assert_eq!(cb.replay().unwrap(), vec![String::from("hello")]);
}

#[test]
fn rejects_record_that_can_never_fit() {
    let mut cb: CircularBuffer = CircularBuffer::new(7);
    assert_eq!(
        cb.write_str(b"toolong"),
        Err(BufferError::ContractViolation)
    );
    assert_eq!(cb.write_str(b"sixsix"), Err(BufferError::ContractViolation));
    assert_eq!(cb.replay().unwrap(), Vec::<String>::new());

    let mut tiny: CircularBuffer = CircularBuffer::new(1);
    assert_eq!(tiny.write_str(b""), Err(BufferError::ContractViolation));

    let mut small: CircularBuffer = CircularBuffer::new(5);
    assert_eq!(small.write_str(b"abcd"), Err(BufferError::ContractViolation));
    assert_eq!(small.write_str(b"abc"), Ok(()));
}

#[test]
fn rejected_append_leaves_log_unchanged() {
    let mut cb: CircularBuffer = CircularBuffer::new(10);
    cb.write_str(b"hello").unwrap();
    assert_eq!(
        cb.write_str(b"muchtoolarge"),
        Err(BufferError::ContractViolation)
    );
    assert_eq!(cb.start_ptr(), 0);
    assert_eq!(cb.end_ptr(), 6);
    assert_eq!(cb.replay().unwrap(), vec![String::from("hello")]);
}

#[test]
fn replay_twice_returns_identical_sequences() {
    let mut cb: CircularBuffer = CircularBuffer::new(12);
    cb.write_str(b"one").unwrap();
    cb.write_str(b"two").unwrap();
    let first = cb.replay().unwrap();
    let second = cb.replay().unwrap();
    assert_eq!(first, second);
    assert_eq!(first, vec![String::from("one"), String::from("two")]);
}

#[test]
fn replay_reports_invalid_text() {
    let mut cb: CircularBuffer = CircularBuffer::new(10);
    cb.write_str(&[0xff, 0xfe]).unwrap();
    assert_eq!(cb.replay(), Err(BufferError::DecodeFailure));
}

#[test]
fn multibyte_text_survives_replay() {
    let mut cb: CircularBuffer = CircularBuffer::new(20);
    cb.write_str("h\u{e9}llo".as_bytes()).unwrap();
    assert_eq!(cb.replay().unwrap(), vec![String::from("h\u{e9}llo")]);
}

#[test]
fn empty_record_is_kept() {
    let mut cb: CircularBuffer = CircularBuffer::new(4);
    cb.write_str(b"").unwrap();
    assert_eq!(cb.replay().unwrap(), vec![String::new()]);
}

#[test]
fn eviction_scan_reaching_the_write_boundary_empties_the_log() {
    // the new frame's delimiter lands exactly on the read boundary: the
    // scan meets the write boundary and nothing stays live
    let mut cb: CircularBuffer = CircularBuffer::new(4);
    cb.write_str(b"a").unwrap();
    assert_eq!(cb.replay().unwrap(), vec![String::from("a")]);
    cb.write_str(b"b").unwrap();
    assert_eq!(cb.start_ptr(), cb.end_ptr());
    assert_eq!(cb.replay().unwrap(), Vec::<String>::new());
}

#[test]
fn replay_is_a_suffix_of_the_appends() {
    let mut cb: CircularBuffer = CircularBuffer::new(13);
    cb.write_str(b"aa").unwrap();
    cb.write_str(b"bb").unwrap();
    cb.write_str(b"cc").unwrap();
    cb.write_str(b"dd").unwrap();
    assert_eq!(
        cb.replay().unwrap(),
        vec![
            String::from("aa"),
            String::from("bb"),
            String::from("cc"),
            String::from("dd")
        ]
    );
    cb.write_str(b"ee").unwrap();
    assert_eq!(
        cb.replay().unwrap(),
        vec![
            String::from("bb"),
            String::from("cc"),
            String::from("dd"),
            String::from("ee")
        ]
    );
}

#[test]
fn iterator_yields_records_oldest_first() {
    let mut cb: CircularBuffer = CircularBuffer::new(15);
    cb.write_str(b"hello").unwrap();
    cb.write_str(b"world").unwrap();
    let mut it = cb.into_iter();
    assert_eq!(it.next(), Some(b"hello".to_vec()));
    assert_eq!(it.next(), Some(b"world".to_vec()));
    assert_eq!(it.next(), None);
}

#[test]
fn replay_bytes_returns_the_stored_records() {
    let mut cb: CircularBuffer = CircularBuffer::new(10);
    cb.write_str(b"hello").unwrap();
    cb.write_str(b"world").unwrap();
    let raw = cb.replay_bytes();
    assert_eq!(raw, vec![b"world".to_vec()]);
}
