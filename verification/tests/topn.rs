use topn::topn::TopN;

#[test]
fn test_0_capacity() {
    let mut topn_zero_capacity = TopN::new(0);
    topn_zero_capacity.push(1);
    assert_eq!(topn_zero_capacity.len(), 0);
    assert_eq!(topn_zero_capacity.pop(), None);

    let mut topn_zero_capacity = TopN::new(0);
    topn_zero_capacity.push(1);
    let iter = topn_zero_capacity.into_iter();
    assert_eq!(iter.len(), 0);
}

#[test]
fn test_1_capacity() {
    let mut topn_one_capacity = TopN::new(1);
    topn_one_capacity.push(1);
    assert_eq!(topn_one_capacity.len(), 1);
    assert_eq!(topn_one_capacity.pop(), Some(1));
    assert_eq!(topn_one_capacity.pop(), None);
    topn_one_capacity.push(1);
    topn_one_capacity.push(2);
    assert_eq!(topn_one_capacity.len(), 1);
    assert_eq!(topn_one_capacity.pop(), Some(2));
    assert_eq!(topn_one_capacity.pop(), None);

    let mut topn_one_capacity = TopN::new(1);
    topn_one_capacity.push(1);
    topn_one_capacity.push(2);
    let mut iter = topn_one_capacity.into_iter();
    assert_eq!(iter.len(), 1);
    assert_eq!(iter.next(), Some(2));
}

#[test]
fn test_trivial() {
    let mut fix_topn = TopN::new(5);
    fix_topn.push(1);
    fix_topn.push(2);
    fix_topn.push(3);
    fix_topn.push(6);
    fix_topn.push(5);
    fix_topn.push(4);
    assert_eq!(fix_topn.len(), 5);
    assert_eq!(fix_topn.pop(), Some(2));
    assert_eq!(fix_topn.pop(), Some(3));
    assert_eq!(fix_topn.pop(), Some(4));
    assert_eq!(fix_topn.pop(), Some(5));
    assert_eq!(fix_topn.pop(), Some(6));
    assert_eq!(fix_topn.pop(), None);

    let mut fix_topn = TopN::new(5);
    fix_topn.push(1);
    fix_topn.push(2);
    fix_topn.push(3);
    fix_topn.push(6);
    fix_topn.push(5);
    fix_topn.push(4);
    let mut v: Vec<_> = fix_topn.into_iter().collect();
    v.sort_unstable();
    assert_eq!(v.len(), 5);
    assert_eq!(v, vec![2, 3, 4, 5, 6])
}

/// A reproducible stream of small numbers with many repeats.
fn stream(seed: u64, len: usize) -> Vec<u32> {
    let mut state = seed;
    let mut out = Vec::with_capacity(len);
    for _ in 0..len {
        state = state.wrapping_mul(6364136223846793005).wrapping_add(1442695040888963407);
        out.push(((state >> 33) % 50) as u32);
    }
    out
}

/// The greatest `k` items of `items`, ascending.
fn greatest(items: &[u32], k: usize) -> Vec<u32> {
    let mut sorted = items.to_vec();
    sorted.sort();
    let skip = sorted.len().saturating_sub(k);
    sorted.split_off(skip)
}

fn drain(mut topn: TopN<u32>) -> Vec<u32> {
    let mut out = Vec::new();
    while let Some(item) = topn.pop() {
        out.push(item);
    }
    assert_eq!(topn.pop(), None);
    out
}

#[test]
fn new_selector_is_empty() {
    let mut topn: TopN<u32> = TopN::new(3);
    assert_eq!(topn.len(), 0);
    assert!(topn.is_empty());
    assert_eq!(topn.capacity(), 3);
    assert_eq!(topn.peek(), None);
    assert_eq!(topn.pop(), None);
}

#[test]
fn capacity_stays_as_made() {
    let mut topn = TopN::new(4);
    assert_eq!(topn.capacity(), 4);
    for item in [9, 1, 8, 2, 7, 3] {
        topn.push(item);
        assert_eq!(topn.capacity(), 4);
    }
    topn.pop();
    assert_eq!(topn.capacity(), 4);
    assert_eq!(TopN::<u8>::new(0).capacity(), 0);
}

#[test]
fn len_counts_up_to_capacity() {
    let mut topn = TopN::new(3);
    topn.push(10);
    topn.push(20);
    assert_eq!(topn.len(), 2);
    topn.push(30);
    assert_eq!(topn.len(), 3);
    topn.push(40);
    topn.push(5);
    assert_eq!(topn.len(), 3);
}

#[test]
fn len_never_exceeds_capacity() {
    for capacity in 0..8usize {
        let items = stream(capacity as u64 + 1, 40);
        let mut topn = TopN::new(capacity);
        for (pushed, item) in items.iter().enumerate() {
            topn.push(*item);
            assert!(topn.len() <= topn.capacity());
            assert_eq!(topn.len(), capacity.min(pushed + 1));
        }
    }
}

#[test]
fn zero_capacity_discards_every_push() {
    let mut topn = TopN::new(0);
    for item in stream(7, 100) {
        topn.push(item);
        assert_eq!(topn.len(), 0);
        assert!(topn.is_empty());
        assert_eq!(topn.peek(), None);
        assert_eq!(topn.pop(), None);
    }
    assert_eq!(topn.into_iter().count(), 0);
}

#[test]
fn retains_the_greatest_items() {
    for seed in 0..20u64 {
        for capacity in [0usize, 1, 2, 3, 5, 8, 13, 60] {
            let items = stream(seed, 50);
            let mut topn = TopN::new(capacity);
            for item in &items {
                topn.push(*item);
            }
            assert_eq!(drain(topn), greatest(&items, capacity));
        }
    }
}

#[test]
fn retains_everything_below_capacity() {
    let mut topn = TopN::new(10);
    for item in [4, 1, 3] {
        topn.push(item);
    }
    assert_eq!(topn.len(), 3);
    assert_eq!(drain(topn), vec![1, 3, 4]);
}

#[test]
fn pop_drains_in_ascending_order() {
    let mut topn = TopN::new(6);
    for item in [12, 7, 7, 30, 1, 19, 7, 25, 2] {
        topn.push(item);
    }
    let mut last = None;
    let mut popped = 0;
    while let Some(item) = topn.pop() {
        if let Some(before) = last {
            assert!(before <= item);
        }
        last = Some(item);
        popped += 1;
        assert_eq!(topn.len(), 6 - popped);
    }
    assert_eq!(popped, 6);
    assert!(topn.is_empty());
    assert_eq!(topn.pop(), None);
    assert_eq!(topn.pop(), None);
}

#[test]
fn drain_of_known_items_is_exact() {
    let mut topn = TopN::new(4);
    for item in [12, 7, 7, 30, 1, 19, 7, 25, 2] {
        topn.push(item);
    }
    assert_eq!(drain(topn), vec![12, 19, 25, 30]);
}

#[test]
fn is_empty_agrees_with_len() {
    let mut topn = TopN::new(3);
    assert_eq!(topn.is_empty(), topn.len() == 0);
    for item in stream(3, 10) {
        topn.push(item);
        assert_eq!(topn.is_empty(), topn.len() == 0);
        assert!(!topn.is_empty());
    }
    while topn.pop().is_some() {
        assert_eq!(topn.is_empty(), topn.len() == 0);
    }
    assert!(topn.is_empty());
    assert_eq!(topn.len(), 0);
}

#[test]
fn into_iter_yields_the_retained_items() {
    let mut topn = TopN::new(5);
    for item in [1, 2, 3, 6, 5, 4] {
        topn.push(item);
    }
    let mut items: Vec<i32> = topn.into_iter().collect();
    items.sort();
    assert_eq!(items, vec![2, 3, 4, 5, 6]);

    for seed in 0..10u64 {
        let pushed = stream(seed, 30);
        let mut topn = TopN::new(7);
        for item in &pushed {
            topn.push(*item);
        }
        let mut items: Vec<u32> = topn.into_iter().collect();
        items.sort();
        assert_eq!(items, greatest(&pushed, 7));
    }
}

#[test]
fn peek_shows_the_least_and_keeps_it() {
    let mut topn = TopN::new(3);
    assert_eq!(topn.peek(), None);
    topn.push(8);
    assert_eq!(topn.peek(), Some(&8));
    topn.push(3);
    assert_eq!(topn.peek(), Some(&3));
    topn.push(5);
    assert_eq!(topn.peek(), Some(&3));
    topn.push(4);
    assert_eq!(topn.peek(), Some(&4));
    assert_eq!(topn.len(), 3);
    assert_eq!(topn.peek(), Some(&4));
    assert_eq!(topn.pop(), Some(4));
    assert_eq!(topn.peek(), Some(&5));
}

#[test]
fn equal_items_are_separate_items() {
    let mut topn = TopN::new(2);
    for item in [3, 3, 3, 1] {
        topn.push(item);
    }
    assert_eq!(topn.len(), 2);
    assert_eq!(drain(topn), vec![3, 3]);

    let mut topn = TopN::new(3);
    for item in [2, 2, 1, 1, 2, 1] {
        topn.push(item);
    }
    assert_eq!(drain(topn), vec![2, 2, 2]);
}

/// Ordered by `rank` alone, so items of one rank tie.
#[derive(Debug, Clone, Copy)]
struct Ranked {
    rank: u8,
    tag: char,
}

impl PartialEq for Ranked {
    fn eq(&self, other: &Self) -> bool {
        self.rank == other.rank
    }
}

impl Eq for Ranked {}

impl PartialOrd for Ranked {
    fn partial_cmp(&self, other: &Self) -> Option<std::cmp::Ordering> {
        Some(self.cmp(other))
    }
}

impl Ord for Ranked {
    fn cmp(&self, other: &Self) -> std::cmp::Ordering {
        self.rank.cmp(&other.rank)
    }
}

#[test]
fn a_tie_never_displaces_a_greater_item() {
    let pushed = [
        Ranked { rank: 1, tag: 'a' },
        Ranked { rank: 2, tag: 'b' },
        Ranked { rank: 1, tag: 'c' },
        Ranked { rank: 3, tag: 'd' },
        Ranked { rank: 2, tag: 'e' },
        Ranked { rank: 0, tag: 'f' },
        Ranked { rank: 2, tag: 'g' },
    ];
    let mut topn = TopN::new(3);
    for item in pushed {
        topn.push(item);
    }
    let mut ranks = Vec::new();
    let mut tags = Vec::new();
    while let Some(item) = topn.pop() {
        ranks.push(item.rank);
        tags.push(item.tag);
    }
    assert_eq!(ranks, vec![2, 2, 3]);
    assert_eq!(tags[2], 'd');
    assert!(tags[..2].iter().all(|tag| ['b', 'e', 'g'].contains(tag)));
    assert_ne!(tags[0], tags[1]);
}

#[test]
fn pops_between_pushes_select_among_resident_items() {
    let mut topn = TopN::new(2);
    topn.push(5);
    topn.push(7);
    assert_eq!(topn.pop(), Some(5));
    topn.push(1);
    topn.push(2);
    assert_eq!(topn.len(), 2);
    assert_eq!(topn.pop(), Some(2));
    assert_eq!(topn.pop(), Some(7));
    assert_eq!(topn.pop(), None);
}

#[test]
fn selects_among_strings() {
    let mut topn = TopN::new(2);
    for word in ["pear", "apple", "quince", "fig", "plum"] {
        topn.push(word.to_string());
    }
    assert_eq!(topn.peek(), Some(&"plum".to_string()));
    assert_eq!(topn.pop(), Some("plum".to_string()));
    assert_eq!(topn.pop(), Some("quince".to_string()));
    assert_eq!(topn.pop(), None);
}

#[test]
fn selects_among_negative_numbers() {
    let mut topn = TopN::new(3);
    for item in [-5i64, i64::MIN, 0, -1, i64::MAX, -7] {
        topn.push(item);
    }
    assert_eq!(topn.pop(), Some(-1));
    assert_eq!(topn.pop(), Some(0));
    assert_eq!(topn.pop(), Some(i64::MAX));
    assert_eq!(topn.pop(), None);
}

#[test]
fn greatest_capacity_is_accepted() {
    let mut topn = TopN::new(usize::MAX);
    assert_eq!(topn.capacity(), usize::MAX);
    for item in [3u8, 1, 2] {
        topn.push(item);
    }
    assert_eq!(topn.len(), 3);
    assert_eq!(topn.pop(), Some(1));
    assert_eq!(topn.pop(), Some(2));
    assert_eq!(topn.pop(), Some(3));
}

#[test]
fn pushes_in_any_order_retain_the_same_items() {
    let orders: [[u32; 6]; 4] =
        [[1, 2, 3, 4, 5, 6], [6, 5, 4, 3, 2, 1], [3, 6, 1, 5, 2, 4], [4, 4, 4, 1, 6, 6]];
    let expected: [Vec<u32>; 4] = [vec![4, 5, 6], vec![4, 5, 6], vec![4, 5, 6], vec![4, 6, 6]];
    for (order, expected) in orders.iter().zip(expected.iter()) {
        let mut topn = TopN::new(3);
        for item in order {
            topn.push(*item);
        }
        assert_eq!(&drain(topn), expected);
    }
}
