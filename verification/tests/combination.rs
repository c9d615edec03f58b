use enumcombinatorics::Combination;

#[test]
fn detail1() {
    let dim = 3;
    let n = 4;

    let mut iter = Combination::new( dim, n );

    assert_eq!( iter.next().unwrap(), &[0,1,2] );
    assert_eq!( iter.next().unwrap(), &[0,1,3] );
    assert_eq!( iter.next().unwrap(), &[0,2,3] );
    assert_eq!( iter.next().unwrap(), &[1,2,3] );
    assert_eq!( iter.next(), None );
}

#[test]
fn detail2() {
    let dim = 3;
    let n = 5;
    
    let mut iter = Combination::new( dim, n );
    
    assert_eq!( iter.next().unwrap(), &[0,1,2] );
    assert_eq!( iter.next().unwrap(), &[0,1,3] );
    assert_eq!( iter.next().unwrap(), &[0,1,4] );
    assert_eq!( iter.next().unwrap(), &[0,2,3] );
    assert_eq!( iter.next().unwrap(), &[0,2,4] );
    assert_eq!( iter.next().unwrap(), &[0,3,4] );
    assert_eq!( iter.next().unwrap(), &[1,2,3] );
    assert_eq!( iter.next().unwrap(), &[1,2,4] );
    assert_eq!( iter.next().unwrap(), &[1,3,4] );
    assert_eq!( iter.next().unwrap(), &[2,3,4] );
    assert_eq!( iter.next(), None );
}
