use page_converter::focus::FocusPlusMinusOneIterator;

fn walk(start: usize, low: usize, high: usize) -> Vec<usize> {
    let mut it = FocusPlusMinusOneIterator::new(start, low, high);
    let mut out = Vec::new();
    while let Some(page) = it.next() {
        out.push(page);
    }
    assert_eq!(it.next(), None);
    out
}

#[test]
fn pages_come_nearest_first() {
    assert_eq!(walk(5, 3, 9), vec![5, 6, 4, 7, 3, 8]);
    assert_eq!(walk(0, 0, 4), vec![0, 1, 2, 3]);
    assert_eq!(walk(9, 7, 10), vec![9, 8, 7]);
    assert_eq!(walk(2, 2, 3), vec![2]);
}

#[test]
fn every_page_comes_once() {
    for (start, low, high) in [(10, 0, 30), (29, 5, 30), (0, 0, 1), (17, 17, 40)] {
        let mut pages = walk(start, low, high);
        let distances: Vec<usize> = pages.iter().map(|p| p.abs_diff(start)).collect();
        assert!(distances.windows(2).all(|d| d[0] <= d[1]));
        pages.sort();
        assert_eq!(pages, (low..high).collect::<Vec<_>>());
    }
}

#[test]
fn the_last_pages_of_all_do_not_overflow() {
    let max = usize::MAX;
    assert_eq!(walk(max - 1, max - 3, max), vec![max - 1, max - 2, max - 3]);
}
