use react_labs::mycycle::MyCycle;

fn drain(mut c: MyCycle<i32>) -> Vec<i32> {
    let mut out = Vec::new();
    while let Some(v) = c.next() {
        out.push(v);
    }
    out
}

#[test]
fn empty_iterator() {
    let v: Vec<i32> = vec![];
    let mut cycle = MyCycle::new(v, 0);
    assert_eq!(cycle.next(), None);
    assert_eq!(cycle.next(), None);
}

#[test]
fn basic_iterator() {
    let v = vec![1, 2, 3, 4];
    let cycle = MyCycle::new(v, 2);
    let produced = drain(cycle);
    assert_eq!(produced.len(), 8);
    let expected = vec![1, 2, 3, 4, 1, 2, 3, 4];
    for (a, b) in produced.iter().zip(expected.iter()) {
        assert_eq!(*a, *b);
    }
}

#[test]
fn nm_iterator() {
    let v1: Vec<i32> = vec![1, 2, 3, 4];
    let c1 = MyCycle::new(v1, 2);
    let c2 = MyCycle::new(drain(c1), 3);
    // n*m = 2*3 = 6
    // 6*4 = 24
    let produced = drain(c2);
    assert_eq!(produced.len(), 24);
    let expected: [i32; 24] = [
        1, 2, 3, 4, 1, 2, 3, 4, 1, 2, 3, 4, 1, 2, 3, 4, 1, 2, 3, 4, 1, 2, 3, 4,
    ];
    for (a, b) in produced.iter().zip(expected.iter()) {
        assert_eq!(*a, *b);
    }
}

#[test]
fn chain_iterator() {
    let l1 = vec![1, 2, 3, 4];
    let l2 = vec![1, 2, 3];
    let c1 = MyCycle::new(l1, 2);
    let c2 = MyCycle::new(l2, 3);
    let mut produced = drain(c1);
    produced.extend(drain(c2));
    // l1*n1+l2*n2 = 4*2+3*3 = 17
    assert_eq!(produced.len(), 17);
    let expected: [i32; 17] = [1, 2, 3, 4, 1, 2, 3, 4, 1, 2, 3, 1, 2, 3, 1, 2, 3];
    for (a, b) in produced.iter().zip(expected.iter()) {
        assert_eq!(*a, *b);
    }
}

#[test]
fn zip_iterator() {
    let l1 = vec![1, 2, 3, 4, 5];
    let mut c1 = MyCycle::new(l1.clone(), 2);
    let mut c2 = MyCycle::new(l1, 2);
    let mut zipped: Vec<(i32, i32)> = Vec::new();
    loop {
        match (c1.next(), c2.next()) {
            (Some(a), Some(b)) => zipped.push((a, b)),
            _ => break,
        }
    }
    // l1*n1 = 5*2 = 10
    let expected: [i32; 10] = [1, 2, 3, 4, 5, 1, 2, 3, 4, 5];
    assert_eq!(zipped.len(), 10);
    for (idx, (a, b)) in zipped.iter().enumerate() {
        assert_eq!(*a, *b);
        assert_eq!(*a, expected[idx]);
    }
}
