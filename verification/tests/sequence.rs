use enumcombinatorics::Sequence;

#[test]
fn from_index() {
    let dim = 3;
    let n = 4;

    let mut iter = Sequence::new( dim, n );
    let mut idx = 0;

    while let Some(elem) = iter.next() {
        let vec = Sequence::from_index( dim, n, idx ).unwrap();
        let vec: &[usize] = &vec;
        assert_eq!( elem, vec );
        idx += 1;
    }

    assert_eq!( Sequence::from_index( dim, n, idx ), None );
}

#[test]
fn sequence_detail() {
    let dim = 3;
    let n = 4;

    let mut iter = Sequence::new( dim, n );

    assert_eq!( iter.next().unwrap(), &[0,0,0] );
    assert_eq!( iter.next().unwrap(), &[0,0,1] );
    assert_eq!( iter.next().unwrap(), &[0,0,2] );
    assert_eq!( iter.next().unwrap(), &[0,0,3] );
    assert_eq!( iter.next().unwrap(), &[0,1,0] );
    assert_eq!( iter.next().unwrap(), &[0,1,1] );
    assert_eq!( iter.next().unwrap(), &[0,1,2] );
    assert_eq!( iter.next().unwrap(), &[0,1,3] );
    assert_eq!( iter.next().unwrap(), &[0,2,0] );
    assert_eq!( iter.next().unwrap(), &[0,2,1] );
    assert_eq!( iter.next().unwrap(), &[0,2,2] );
    assert_eq!( iter.next().unwrap(), &[0,2,3] );
    assert_eq!( iter.next().unwrap(), &[0,3,0] );
    assert_eq!( iter.next().unwrap(), &[0,3,1] );
    assert_eq!( iter.next().unwrap(), &[0,3,2] );
    assert_eq!( iter.next().unwrap(), &[0,3,3] );
    assert_eq!( iter.next().unwrap(), &[1,0,0] );
    assert_eq!( iter.next().unwrap(), &[1,0,1] );
    assert_eq!( iter.next().unwrap(), &[1,0,2] );
    assert_eq!( iter.next().unwrap(), &[1,0,3] );
    assert_eq!( iter.next().unwrap(), &[1,1,0] );
    assert_eq!( iter.next().unwrap(), &[1,1,1] );
    assert_eq!( iter.next().unwrap(), &[1,1,2] );
    assert_eq!( iter.next().unwrap(), &[1,1,3] );
    assert_eq!( iter.next().unwrap(), &[1,2,0] );
    assert_eq!( iter.next().unwrap(), &[1,2,1] );
    assert_eq!( iter.next().unwrap(), &[1,2,2] );
    assert_eq!( iter.next().unwrap(), &[1,2,3] );
    assert_eq!( iter.next().unwrap(), &[1,3,0] );
    assert_eq!( iter.next().unwrap(), &[1,3,1] );
    assert_eq!( iter.next().unwrap(), &[1,3,2] );
    assert_eq!( iter.next().unwrap(), &[1,3,3] );
    assert_eq!( iter.next().unwrap(), &[2,0,0] );
    assert_eq!( iter.next().unwrap(), &[2,0,1] );
    assert_eq!( iter.next().unwrap(), &[2,0,2] );
    assert_eq!( iter.next().unwrap(), &[2,0,3] );
    assert_eq!( iter.next().unwrap(), &[2,1,0] );
    assert_eq!( iter.next().unwrap(), &[2,1,1] );
    assert_eq!( iter.next().unwrap(), &[2,1,2] );
    assert_eq!( iter.next().unwrap(), &[2,1,3] );
    assert_eq!( iter.next().unwrap(), &[2,2,0] );
    assert_eq!( iter.next().unwrap(), &[2,2,1] );
    assert_eq!( iter.next().unwrap(), &[2,2,2] );
    assert_eq!( iter.next().unwrap(), &[2,2,3] );
    assert_eq!( iter.next().unwrap(), &[2,3,0] );
    assert_eq!( iter.next().unwrap(), &[2,3,1] );
    assert_eq!( iter.next().unwrap(), &[2,3,2] );
    assert_eq!( iter.next().unwrap(), &[2,3,3] );
    assert_eq!( iter.next().unwrap(), &[3,0,0] );
    assert_eq!( iter.next().unwrap(), &[3,0,1] );
    assert_eq!( iter.next().unwrap(), &[3,0,2] );
    assert_eq!( iter.next().unwrap(), &[3,0,3] );
    assert_eq!( iter.next().unwrap(), &[3,1,0] );
    assert_eq!( iter.next().unwrap(), &[3,1,1] );
    assert_eq!( iter.next().unwrap(), &[3,1,2] );
    assert_eq!( iter.next().unwrap(), &[3,1,3] );
    assert_eq!( iter.next().unwrap(), &[3,2,0] );
    assert_eq!( iter.next().unwrap(), &[3,2,1] );
    assert_eq!( iter.next().unwrap(), &[3,2,2] );
    assert_eq!( iter.next().unwrap(), &[3,2,3] );
    assert_eq!( iter.next().unwrap(), &[3,3,0] );
    assert_eq!( iter.next().unwrap(), &[3,3,1] );
    assert_eq!( iter.next().unwrap(), &[3,3,2] );
    assert_eq!( iter.next().unwrap(), &[3,3,3] );
    assert_eq!( iter.next(), None );
}
