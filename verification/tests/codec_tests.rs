use kvs::KvsError;
use kvs::codec::Record;
use kvs::codec::decode_record_prefix;
use kvs::codec::encode_record;
use kvs::protocol::KvRequest;
use kvs::protocol::handle_request;
use kvs::store::KvStore;

#[test]
fn record_round_trips_through_codec() {
    let rec = Record::Put("hello".to_owned(), "world".to_owned());
    let bytes = encode_record(&rec).unwrap();
    assert!(!bytes.is_empty());
    let (back, used) = decode_record_prefix(&bytes).unwrap();
    assert_eq!(used, bytes.len());
    match back {
        Record::Put(k, v) => {
            assert_eq!(k, "hello");
            assert_eq!(v, "world");
        }
        Record::Rm(_) => panic!("decoded the wrong variant"),
    }
}

#[test]
fn tombstone_round_trips_and_streams() {
    let rec = Record::Rm("gone".to_owned());
    let mut bytes = encode_record(&rec).unwrap();
    let expected = bytes.len();
    // records are self-delimiting: trailing data is not consumed
    bytes.extend_from_slice(&[0xde, 0xad, 0xbe, 0xef]);
    let (back, used) = decode_record_prefix(&bytes).unwrap();
    assert_eq!(used, expected);
    match back {
        Record::Rm(k) => assert_eq!(k, "gone"),
        Record::Put(_, _) => panic!("decoded the wrong variant"),
    }
}

#[test]
fn two_records_decode_back_to_back() {
    let a = encode_record(&Record::Put("a".to_owned(), "1".to_owned())).unwrap();
    let b = encode_record(&Record::Rm("b".to_owned())).unwrap();
    let mut stream = a.clone();
    stream.extend_from_slice(&b);
    let (first, n1) = decode_record_prefix(&stream).unwrap();
    assert_eq!(n1, a.len());
    assert!(matches!(first, Record::Put(_, _)));
    let (second, n2) = decode_record_prefix(&stream[n1..]).unwrap();
    assert_eq!(n2, b.len());
    assert!(matches!(second, Record::Rm(_)));
}

#[test]
fn decode_rejects_garbage() {
    let r = decode_record_prefix(&[0xc1]);
    assert!(matches!(r, Err(KvsError::SerializationError(_))));
}

#[test]
fn requests_drive_the_engine() {
    let (mut store, _ops) = KvStore::open(Vec::new()).unwrap();
    let (resp, _ops) = handle_request(
        &mut store,
        KvRequest::Put(("k".to_owned(), "v".to_owned())),
    );
    assert!(matches!(resp.value, Ok(None)));
    let (resp, _ops) = handle_request(&mut store, KvRequest::Get("k".to_owned()));
    assert_eq!(resp.value.unwrap(), Some("v".to_owned()));
    let (resp, _ops) = handle_request(&mut store, KvRequest::Rm("k".to_owned()));
    assert!(matches!(resp.value, Ok(None)));
    let (resp, _ops) = handle_request(&mut store, KvRequest::Rm("k".to_owned()));
    assert!(matches!(resp.value, Err(KvsError::NonExistantKey)));
    let (resp, _ops) = handle_request(&mut store, KvRequest::Get("k".to_owned()));
    assert_eq!(resp.value.unwrap(), None);
}
