use biotest::Format as _;

use dynseq::dynseq::DynSeq;
use dynseq::error::Error;

#[test]
fn dynseq2vec() -> Result<(), Error> {
    let mut rng = biotest::rand();
    let generator = biotest::Sequence::builder()
        .sequence_len(100)
        .build()
        .unwrap();
    let mut seq = vec![];
    generator.record(&mut seq, &mut rng).unwrap();

    let dynseq = DynSeq::new(&seq, 24)?;
    let out: Vec<u8> = dynseq.in_vec();
    assert_eq!(out, seq.to_ascii_uppercase());

    Ok(())
}

#[test]
fn get() -> Result<(), Error> {
    let mut rng = biotest::rand();
    let generator = biotest::Sequence::builder()
        .sequence_len(100)
        .build()
        .unwrap();
    let mut seq = vec![];
    generator.record(&mut seq, &mut rng).unwrap();

    let dynseq = DynSeq::new(&seq, 24)?;
    for i in 0..seq.len() {
        assert_eq!(seq.get(i).map(u8::to_ascii_uppercase), dynseq.get(i));
    }

    Ok(())
}
