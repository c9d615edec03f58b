use enumcombinatorics::Permutation;

#[test]
fn permutation() {
    let dim = 2;
    let n = 8;

    let mut iter = Permutation::new( dim, n );
    let mut count = 0;

    while let Some(idx) = iter.next() {
        count += 1;
        println!("{:?}", idx);
    }

    assert_eq!( count, n * (n-1) );
}

#[test]
fn datial() {
    let dim = 3;
    let n = 4;

    let mut iter = Permutation::new( dim, n );

    assert_eq!( iter.next().unwrap(), &[0,1,2] );
    assert_eq!( iter.next().unwrap(), &[0,1,3] );
    assert_eq!( iter.next().unwrap(), &[0,2,1] );
    assert_eq!( iter.next().unwrap(), &[0,2,3] );
    assert_eq!( iter.next().unwrap(), &[0,3,1] );
    assert_eq!( iter.next().unwrap(), &[0,3,2] );
    assert_eq!( iter.next().unwrap(), &[1,0,2] );
    assert_eq!( iter.next().unwrap(), &[1,0,3] );
    assert_eq!( iter.next().unwrap(), &[1,2,0] );
    assert_eq!( iter.next().unwrap(), &[1,2,3] );
    assert_eq!( iter.next().unwrap(), &[1,3,0] );
    assert_eq!( iter.next().unwrap(), &[1,3,2] );
    assert_eq!( iter.next().unwrap(), &[2,0,1] );
    assert_eq!( iter.next().unwrap(), &[2,0,3] );
    assert_eq!( iter.next().unwrap(), &[2,1,0] );
    assert_eq!( iter.next().unwrap(), &[2,1,3] );
    assert_eq!( iter.next().unwrap(), &[2,3,0] );
    assert_eq!( iter.next().unwrap(), &[2,3,1] );
    assert_eq!( iter.next().unwrap(), &[3,0,1] );
    assert_eq!( iter.next().unwrap(), &[3,0,2] );
    assert_eq!( iter.next().unwrap(), &[3,1,0] );
    assert_eq!( iter.next().unwrap(), &[3,1,2] );
    assert_eq!( iter.next().unwrap(), &[3,2,0] );
    assert_eq!( iter.next().unwrap(), &[3,2,1] );
    assert_eq!( iter.next(), None );
}
