use dealrs::combrs::bagspace::{BagSpace, SetSpace};
use dealrs::combrs::binom;

#[test]
fn binom_values() {
    assert_eq!(binom(5, 2), 10);
    assert_eq!(binom(20, 7), 77520);
    assert_eq!(binom(3, 5), 0);
    assert_eq!(binom(7, 0), 1);
}

#[test]
fn bag_roundtrip() {
    let space = BagSpace::new(13, 5);
    // every sorted bag decodes from its index, and the indices fill 0..C(17, 5)
    let mut seen = vec![false; binom(17, 5)];
    let mut bag = vec![0usize; 5];
    loop {
        let idx = space.enc(&bag);
        assert!(!seen[idx]);
        seen[idx] = true;
        let mut out = vec![0usize; 5];
        space.dec(idx, &mut out);
        assert_eq!(out, bag);
        // the next sorted bag
        let mut i = 5;
        while i > 0 && bag[i - 1] == 12 {
            i -= 1;
        }
        if i == 0 {
            break;
        }
        let v = bag[i - 1] + 1;
        for j in i - 1..5 {
            bag[j] = v;
        }
    }
    assert!(seen.iter().all(|&s| s));
}

#[test]
fn bag_codes() {
    let space = BagSpace::new(14, 7);
    assert_eq!(space.enc(&[0, 0, 0, 0, 0, 0, 0]), 0);
    assert_eq!(space.enc(&[0, 0, 0, 0, 0, 0, 1]), 1);
    assert_eq!(space.enc(&[0, 0, 0, 0, 0, 0, 2]), 8);
    assert_eq!(space.enc(&[0, 0, 0, 0, 0, 1, 1]), 2);
}

#[test]
fn set_codes() {
    let space = SetSpace::new(3);
    assert_eq!(space.enc(&[0, 1, 2]), 7);
    assert_eq!(space.enc(&[2, 2, 0]), 9);
    // decoding lists the positions set, lowest first, at the front of the items
    let mut items = vec![5, 5, 5];
    space.dec(0b110, &mut items);
    assert_eq!(items, vec![1, 2, 5]);
    let mut items = vec![5, 5, 5];
    space.dec(0, &mut items);
    assert_eq!(items, vec![5, 5, 5]);
}

#[test]
fn set_decoding_inverts_encoding() {
    let space = SetSpace::new(5);
    let seq = [3, 0, 4, 1, 2];
    let idx = space.enc(&seq);
    assert_eq!(idx, 31);
    let mut items = vec![9; 5];
    space.dec(idx, &mut items);
    assert_eq!(items, vec![0, 1, 2, 3, 4]);
    let mut sorted = seq.to_vec();
    sorted.sort();
    assert_eq!(space.enc(&items), idx);
    assert_eq!(items, sorted);
}
