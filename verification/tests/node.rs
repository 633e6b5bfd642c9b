use biotest::Format as _;

use dynseq::error::Error;
use dynseq::node::Node;

#[test]
fn create_node() -> Result<(), Error> {
    let mut rng = biotest::rand();
    let generator = biotest::Sequence::builder()
        .sequence_len(29)
        .build()
        .unwrap();
    let mut seq = vec![];
    generator.record(&mut seq, &mut rng).unwrap();

    let node = Node::new(&seq)?;

    assert!(!node.is_empty());
    assert_eq!(node.len(), 29);
    assert_eq!(node.bits(), 153899156765281607);
    assert_eq!(node.seq(), seq.to_ascii_uppercase());

    seq.push(b'C');
    assert!(matches!(Node::new(&seq), Err(Error::SeqToLargeForNode)));

    Ok(())
}

#[test]
fn get_set() -> Result<(), Error> {
    let mut rng = biotest::rand();
    let generator = biotest::Sequence::builder()
        .sequence_len(28)
        .build()
        .unwrap();
    let mut seq = vec![];
    generator.record(&mut seq, &mut rng).unwrap();

    let mut node = Node::new(&seq)?;

    for i in 0..28 {
        assert_eq!(node.get(i), seq.to_ascii_uppercase().get(i).copied());
    }

    for (i, nuc) in seq.iter().rev().enumerate() {
        assert!(node.set(i, *nuc).is_some());
    }

    seq.reverse();
    assert_eq!(node.seq(), seq.to_ascii_uppercase());

    assert!(node.get(28).is_none());
    assert!(node.set(28, b'N').is_none());

    Ok(())
}

#[test]
fn edit() -> Result<(), Error> {
    let mut rng = biotest::rand();
    let generator = biotest::Sequence::builder()
        .sequence_len(25)
        .build()
        .unwrap();
    let mut seq = vec![];
    generator.record(&mut seq, &mut rng).unwrap();

    let mut node = Node::new(&seq)?;
    assert_eq!(node.seq(), seq.to_ascii_uppercase());

    node.push_back(b'A')?;
    seq.push(b'A');
    assert_eq!(node.seq(), seq.to_ascii_uppercase());

    node.push_front(b'G')?;
    seq.insert(0, b'G');
    assert_eq!(node.seq(), seq.to_ascii_uppercase());

    node.insert(10, b"GC")?;
    seq.insert(10, b'G');
    seq.insert(11, b'C');
    assert_eq!(node.seq(), seq.to_ascii_uppercase());

    assert!(matches!(node.push_back(b'C'), Err(Error::SeqToLargeForNode)));

    assert!(matches!(node.push_front(b'C'), Err(Error::SeqToLargeForNode)));

    assert!(matches!(node.insert(10, b"GC"), Err(Error::SeqToLargeForNode)));

    Ok(())
}
