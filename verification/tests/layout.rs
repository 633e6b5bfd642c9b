use dynseq::dynseq::DynSeq;
use dynseq::error::Error;
use dynseq::node::Node;

const S29: &[u8] = b"ACTGACTGACTGACTGACTGACTGACTGA";

#[test]
fn bit_layout_fixed_vector() {
    let node = Node::new(S29).unwrap();
    assert_eq!(node.len(), 29);
    assert_eq!(node.bits(), 30518510416063596);
    assert_eq!(node.seq(), S29.to_vec());
}

#[test]
fn chunk_capacity() {
    let s30: &[u8] = b"ACTGACTGACTGACTGACTGACTGACTGAC";
    assert!(Node::new(S29).is_ok());
    assert!(matches!(Node::new(s30), Err(Error::SeqToLargeForNode)));
}

#[test]
fn chunk_mutation() {
    let s25: &[u8] = b"ACGTACGTACGTACGTACGTACGTA";
    let mut node = Node::new(s25).unwrap();

    node.push_back(b'C').unwrap();
    assert_eq!(node.seq(), b"ACGTACGTACGTACGTACGTACGTAC".to_vec());

    node.push_front(b'G').unwrap();
    assert_eq!(node.seq(), b"GACGTACGTACGTACGTACGTACGTAC".to_vec());

    node.insert(10, b"TT").unwrap();
    assert_eq!(node.seq(), b"GACGTACGTATTCGTACGTACGTACGTAC".to_vec());
    assert_eq!(node.len(), 29);

    assert!(matches!(node.push_back(b'A'), Err(Error::SeqToLargeForNode)));
    assert!(matches!(node.push_front(b'A'), Err(Error::SeqToLargeForNode)));
    assert!(matches!(node.insert(3, b"AC"), Err(Error::SeqToLargeForNode)));
    assert_eq!(node.seq(), b"GACGTACGTATTCGTACGTACGTACGTAC".to_vec());
}

#[test]
fn point_mutation() {
    let mut node = Node::new(b"ACGT").unwrap();
    assert_eq!(node.set(2, b'A'), Some(()));
    assert_eq!(node.seq(), b"ACAT".to_vec());
    assert_eq!(node.get(0), Some(b'A'));
    assert_eq!(node.get(1), Some(b'C'));
    assert_eq!(node.get(2), Some(b'A'));
    assert_eq!(node.get(3), Some(b'T'));
    assert_eq!(node.get(4), None);
    assert_eq!(node.set(4, b'G'), None);
    assert_eq!(node.seq(), b"ACAT".to_vec());
    assert_eq!(node.bits(), 18);
}

#[test]
fn end_to_end() {
    let mut s: Vec<u8> = Vec::new();
    for _ in 0..25 {
        s.extend_from_slice(b"acgt");
    }
    let chain = DynSeq::new(&s, 24).unwrap();
    assert_eq!(chain.get(50), Some(b'G'));
    let flat = chain.in_vec();
    assert_eq!(flat.len(), 100);
    assert_eq!(flat, s.to_ascii_uppercase());
    assert_eq!(chain.get(99), Some(b'T'));
    assert_eq!(chain.get(100), None);
    assert_eq!(chain.get(1000), None);
}

#[test]
fn chain_rejects_large_chunk_length() {
    assert!(matches!(
        DynSeq::new(b"ACGT", 30),
        Err(Error::SeqToLargeForNode)
    ));
    assert!(DynSeq::new(b"ACGT", 29).is_ok());
}

#[test]
fn chain_round_trip_all_lengths() {
    let s: &[u8] = b"gattacaGATTACAgattacaGATTACA";
    for l in 1..=29 {
        let chain = DynSeq::new(s, l).unwrap();
        assert_eq!(chain.in_vec(), s.to_ascii_uppercase());
        for i in 0..s.len() {
            assert_eq!(chain.get(i), Some(s[i].to_ascii_uppercase()));
        }
        assert_eq!(chain.get(s.len()), None);
    }
}

#[test]
fn empty_chain() {
    let chain = DynSeq::new(b"", 5).unwrap();
    assert_eq!(chain.in_vec(), Vec::<u8>::new());
    assert_eq!(chain.get(0), None);
}

#[test]
fn exact_multiple_chunks() {
    let s: &[u8] = b"ACGTACGTACGTACGTACGTACGT";
    let chain = DynSeq::new(s, 8).unwrap();
    assert_eq!(chain.in_vec(), s.to_vec());
    assert_eq!(chain.get(23), Some(b'T'));
    assert_eq!(chain.get(24), None);
}
