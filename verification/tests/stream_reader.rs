use rust_proxy_server::error::{Error, ErrorKind};
use rust_proxy_server::stream_reader::StreamReader;
use rust_proxy_server::util;

fn feed(reader: &mut StreamReader, data: &[u8]) {
    let spare = reader.spare().unwrap();
    spare[..data.len()].copy_from_slice(data);
    reader.filled(data.len()).unwrap();
}

#[test]
fn bytes_come_out_in_order() {
    let mut r = StreamReader::new();
    assert_eq!(r.read_u8(), None);
    feed(&mut r, &[1, 2, 3, 4, 5, 6]);
    assert_eq!(r.read_u8(), Some(1));
    assert_eq!(r.read_u16_be(), Some(0x0203));
    assert_eq!(r.peek_slice(2), Ok(Some(&[4u8, 5][..])));
    assert_eq!(r.read_slice(2), Ok(Some(vec![4, 5])));
    assert_eq!(r.unparsed_data(), &[6]);
    assert_eq!(r.unparsed_data_owned(), Some(vec![6]));
    r.consume(1);
    assert_eq!(r.unparsed_data_owned(), None);
    assert_eq!(r.read_u16_be(), None);
}

#[test]
fn room_is_won_back() {
    let mut r = StreamReader::new_with_buffer_size(4);
    feed(&mut r, &[1, 2, 3, 4]);
    assert!(matches!(r.spare(), Err(Error::CacheFull)));
    assert_eq!(r.read_u8(), Some(1));
    assert_eq!(r.spare().map(|s| s.len()), Ok(1));
    feed(&mut r, &[5]);
    assert_eq!(r.unparsed_data(), &[2, 3, 4, 5]);
}

#[test]
fn too_long_requests_are_refused() {
    let mut r = StreamReader::new_with_buffer_size(4);
    assert_eq!(r.peek_slice(5), Err(Error::ExceedsBuffer));
    assert_eq!(r.read_slice(5), Err(Error::ExceedsBuffer));
    assert_eq!(r.peek_slice(4), Ok(None));
    assert_eq!(r.read_slice(4), Ok(None));
    assert_eq!(r.peek_slice(0), Ok(Some(&[][..])));
    assert_eq!(Error::ExceedsBuffer.kind(), ErrorKind::InvalidInput);
    assert_eq!(Error::CacheFull.kind(), ErrorKind::ConnectionAborted);
}

#[test]
fn the_end_of_a_stream_is_an_error() {
    let mut r = StreamReader::new();
    assert_eq!(r.filled(0), Err(Error::EofWhileReading));
    assert_eq!(Error::EofWhileReading.kind(), ErrorKind::ConnectionAborted);
}

#[test]
fn default_buffer_size() {
    let mut r = StreamReader::new();
    assert_eq!(r.spare().unwrap().len(), 32768);
    assert_eq!(r.peek_slice(32768), Ok(None));
    assert_eq!(r.peek_slice(32769), Err(Error::ExceedsBuffer));
}

#[test]
fn small_helpers() {
    assert_eq!(util::allocate_vec(3), vec![0, 0, 0]);
    assert_eq!(util::write_all(&[1, 2, 3], 1), Some(&[2u8, 3][..]));
    assert_eq!(util::write_all(&[1, 2, 3], 3), None);
    let mut out = Vec::new();
    util::push_be16(&mut out, 0x1234);
    util::push_be32(&mut out, 0xdead_beef);
    assert_eq!(out, vec![0x12, 0x34, 0xde, 0xad, 0xbe, 0xef]);
    assert_eq!(util::get_be16(&out, 0), 0x1234);
    assert_eq!(util::get_be32(&out, 2), 0xdead_beef);
    let mut buf = vec![1, 2, 3, 4, 5];
    util::move_to_front(&mut buf, 2, 4);
    assert_eq!(buf, vec![3, 4, 3, 4, 5]);
    util::copy_into(&mut buf, 1, &[9, 8]);
    assert_eq!(buf, vec![3, 9, 8, 4, 5]);
}
