use enumcombinatorics::Multichoose;

#[test]
fn multichoose_detail() {
    let dim = 3;
    let n = 4;

    let mut iter = Multichoose::new( dim, n );
    
    assert_eq!( iter.next().unwrap(), &[0,0,0] );
    assert_eq!( iter.next().unwrap(), &[0,0,1] );
    assert_eq!( iter.next().unwrap(), &[0,0,2] );
    assert_eq!( iter.next().unwrap(), &[0,0,3] );
    assert_eq!( iter.next().unwrap(), &[0,1,1] );
    assert_eq!( iter.next().unwrap(), &[0,1,2] );
    assert_eq!( iter.next().unwrap(), &[0,1,3] );
    assert_eq!( iter.next().unwrap(), &[0,2,2] );
    assert_eq!( iter.next().unwrap(), &[0,2,3] );
    assert_eq!( iter.next().unwrap(), &[0,3,3] );
    assert_eq!( iter.next().unwrap(), &[1,1,1] );
    assert_eq!( iter.next().unwrap(), &[1,1,2] );
    assert_eq!( iter.next().unwrap(), &[1,1,3] );
    assert_eq!( iter.next().unwrap(), &[1,2,2] );
    assert_eq!( iter.next().unwrap(), &[1,2,3] );
    assert_eq!( iter.next().unwrap(), &[1,3,3] );
    assert_eq!( iter.next().unwrap(), &[2,2,2] );
    assert_eq!( iter.next().unwrap(), &[2,2,3] );
    assert_eq!( iter.next().unwrap(), &[2,3,3] );
    assert_eq!( iter.next().unwrap(), &[3,3,3] );
    assert_eq!( iter.next(), None );
}
