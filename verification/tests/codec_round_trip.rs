use zk_sudoku::codec::{Bytes, BytesError, BytesReader, BytesWriter};
use zk_sudoku::graph::{Edge, Graph};
use zk_sudoku::protocol::Opening;

#[test]
fn u8_round_trip() {
    let x: u8 = 0xa7;
    let bytes = x.to_bytes();
    assert_eq!(bytes, vec![0xa7]);
    assert_eq!(x.required_size(), 1);
    assert_eq!(<u8 as Bytes>::from_bytes(&bytes).unwrap(), 0xa7);
}

#[test]
fn u64_round_trip() {
    let x: u64 = 0x0123_4567_89ab_cdef;
    let bytes = x.to_bytes();
    assert_eq!(bytes, vec![0xef, 0xcd, 0xab, 0x89, 0x67, 0x45, 0x23, 0x01]);
    assert_eq!(x.required_size(), 8);
    assert_eq!(<u64 as Bytes>::from_bytes(&bytes).unwrap(), x);
}

#[test]
fn usize_round_trip() {
    let x: usize = 90;
    let bytes = x.to_bytes();
    assert_eq!(bytes.len(), 8);
    assert_eq!(bytes[0], 90);
    assert_eq!(<usize as Bytes>::from_bytes(&bytes).unwrap(), 90);
}

#[test]
fn edge_round_trip() {
    let e = Edge(3, 87);
    let bytes = e.to_bytes();
    assert_eq!(bytes.len(), 16);
    let back = <Edge as Bytes>::from_bytes(&bytes).unwrap();
    assert_eq!(back, e);
}

#[test]
fn vec_round_trip() {
    let v: Vec<u64> = vec![1, 2, 3, 0xffff_ffff_ffff_ffff];
    let bytes = v.to_bytes();
    // 8-byte length prefix plus four 8-byte entries.
    assert_eq!(bytes.len(), 8 + 32);
    assert_eq!(bytes[0], 4);
    let back = <Vec<u64> as Bytes>::from_bytes(&bytes).unwrap();
    assert_eq!(back, v);
}

#[test]
fn empty_vec_round_trip() {
    let v: Vec<Edge> = vec![];
    let bytes = v.to_bytes();
    assert_eq!(bytes.len(), 8);
    let back = <Vec<Edge> as Bytes>::from_bytes(&bytes).unwrap();
    assert_eq!(back.len(), 0);
}

#[test]
fn opening_wire_size() {
    let o = Opening { first_color: 4, second_color: 7, first_key: 11, second_key: 22 };
    let bytes = o.to_bytes();
    assert_eq!(bytes.len(), 18);
    assert_eq!(o.required_size(), 18);
    let back = <Opening as Bytes>::from_bytes(&bytes).unwrap();
    assert_eq!(back, o);
}

#[test]
fn trailing_byte_is_rejected() {
    let x: u64 = 99;
    let mut bytes = x.to_bytes();
    bytes.push(0);
    match <u64 as Bytes>::from_bytes(&bytes) {
        Err(BytesError::TrailingData(pos)) => assert_eq!(pos, 8),
        other => panic!("expected trailing data, got {:?}", other),
    }
}

#[test]
fn truncation_is_end_of_data() {
    let v: Vec<u64> = vec![5, 6, 7];
    let bytes = v.to_bytes();
    for cut in 0..bytes.len() {
        match <Vec<u64> as Bytes>::from_bytes(&bytes[..cut]) {
            Err(BytesError::EndOfData(_)) => {},
            other => panic!("cut {} should be end of data, got {:?}", cut, other),
        }
    }
}

#[test]
fn huge_length_prefix_is_rejected() {
    // A vector whose length prefix promises far more elements than the
    // stream holds.
    let bytes: Vec<u8> = vec![0xff, 0xff, 0xff, 0xff, 0xff, 0xff, 0xff, 0x7f];
    match <Vec<u64> as Bytes>::from_bytes(&bytes) {
        Err(BytesError::EndOfData(_)) => {},
        other => panic!("expected end of data, got {:?}", other),
    }
}

#[test]
fn writer_and_reader_agree() {
    let mut w = BytesWriter::new(3);
    w.write(&[1, 2, 3]);
    let data = w.finish();
    assert_eq!(data, vec![1, 2, 3]);

    let mut r = BytesReader::new(&data);
    let first = r.read(2).unwrap();
    assert_eq!(first, vec![1, 2]);
    match r.read(2) {
        Err(BytesError::EndOfData(pos)) => assert_eq!(pos, 2),
        other => panic!("expected end of data, got {:?}", other),
    }
    let rest = r.read(1).unwrap();
    assert_eq!(rest, vec![3]);
    assert!(r.finish().is_ok());
}

#[test]
fn reader_finish_reports_trailing() {
    let data = [9u8, 9, 9];
    let mut r = BytesReader::new(&data);
    let _ = r.read(1).unwrap();
    match r.finish() {
        Err(BytesError::TrailingData(pos)) => assert_eq!(pos, 1),
        other => panic!("expected trailing data, got {:?}", other),
    }
}

#[test]
fn graph_round_trip() {
    let g = Graph::<u8> { nodes: vec![1, 2, 3], edges: vec![Edge(0, 1), Edge(1, 2)] };
    let bytes = g.to_bytes();
    // Two length-prefixed vectors: 8 + 3 node bytes, then 8 + 2 * 16 edge
    // bytes.
    assert_eq!(bytes.len(), 8 + 3 + 8 + 32);
    let back = <Graph<u8> as Bytes>::from_bytes(&bytes).unwrap();
    assert_eq!(back.nodes, g.nodes);
    assert_eq!(back.edges, g.edges);
}
