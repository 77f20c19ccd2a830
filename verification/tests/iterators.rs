use kudo::ChainedIterator;

fn drain(mut it: ChainedIterator<u32>) -> Vec<u32> {
    let mut out = Vec::new();
    while let Some(x) = it.next() {
        out.push(x);
    }
    out
}

#[test]
fn chained_iterator_visits_last_part_first() {
    let it = ChainedIterator::new(vec![vec![1, 2], vec![3], vec![4, 5]]);
    assert_eq!(drain(it), vec![4, 5, 3, 1, 2]);
}

#[test]
fn chained_iterator_skips_empty_parts() {
    let it = ChainedIterator::new(vec![vec![1], vec![], vec![], vec![2]]);
    assert_eq!(drain(it), vec![2, 1]);
}

#[test]
fn chained_iterator_empty() {
    let mut it: ChainedIterator<u32> = ChainedIterator::new(vec![]);
    assert_eq!(it.next(), None);
    assert_eq!(it.next(), None);
}

#[test]
fn chained_iterator_size_hint() {
    let mut it = ChainedIterator::new(vec![vec![1, 2], vec![], vec![3, 4, 5]]);
    assert_eq!(it.size_hint(), (5, Some(5)));
    it.next();
    assert_eq!(it.size_hint(), (4, Some(4)));
    while it.next().is_some() {}
    assert_eq!(it.size_hint(), (0, Some(0)));
}
