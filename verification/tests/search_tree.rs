use core::ops::Range;
use data_structures::trees::search_tree::{SearchTree, SearchTreeFind, SearchTreeIter};
use std::cell::Cell;
use std::collections::BTreeMap;
use std::rc::Rc;

#[derive(Debug, PartialEq, Eq, PartialOrd, Ord, Clone)]
struct Int(usize);

/// A value that counts its own end.
struct Counted {
    ends: Rc<Cell<usize>>,
}

impl Drop for Counted {
    fn drop(&mut self) {
        self.ends.set(self.ends.get() + 1);
    }
}

fn count<K: Ord + Clone, V>(mut found: SearchTreeFind<'_, K, V>) -> usize {
    let mut count = 0;
    while found.next().is_some() {
        count += 1;
    }
    count
}

fn forward<K: Ord + Clone, V: Clone>(mut iter: SearchTreeIter<'_, K, V>) -> Vec<(K, V)> {
    let mut out = Vec::new();
    while let Some((k, v)) = iter.next() {
        out.push((k.clone(), v.clone()));
    }
    out
}

fn backward<K: Ord + Clone, V: Clone>(mut iter: SearchTreeIter<'_, K, V>) -> Vec<(K, V)> {
    let mut out = Vec::new();
    while let Some((k, v)) = iter.next_back() {
        out.push((k.clone(), v.clone()));
    }
    out
}

fn found_forward(tree: &SearchTree<i32, i32>, range: Range<i32>) -> Vec<(i32, i32)> {
    let mut found = tree.find(range);
    let mut out = Vec::new();
    while let Some((k, v)) = found.next() {
        out.push((*k, *v));
    }
    out
}

fn found_backward(tree: &SearchTree<i32, i32>, range: Range<i32>) -> Vec<(i32, i32)> {
    let mut found = tree.find(range);
    let mut out = Vec::new();
    while let Some((k, v)) = found.next_back() {
        out.push((*k, *v));
    }
    out
}

#[test]
fn search_tree_ok() {
    let mut tree = SearchTree::default();
    tree.insert(5, 50);
    tree.insert(3, 30);
    tree.insert(1, 10);
    tree.insert(2, 20);
    tree.insert(4, 40);
    assert_eq!(Some(&20), tree.get(&2));
    assert_eq!(5, tree.len());
    assert_eq!(4, count(tree.find(1..5)));
    assert_eq!(Some(30), tree.remove(&3));
    assert_eq!(None, tree.remove(&3));
    assert_eq!(None, tree.get(&3));
    assert_eq!(4, tree.len());
    assert_eq!(3, count(tree.find(1..5)));

    tree = SearchTree::default();
    drop(tree);

    let tree = SearchTree::from_sorted(vec![(1, 10), (2, 20), (3, 30), (4, 40)]);
    assert_eq!(Some(&30), tree.get(&3));
    assert_eq!(4, tree.len());
    assert_eq!(3, count(tree.find(2..5)));
}

#[test]
fn search_tree_iter() {
    let tree = SearchTree::from_sorted(vec![(1, 10), (2, 20), (3, 30), (4, 40)]);

    let mut iter = tree.iter();
    for i in 1..5 {
        let (&k, &v) = iter.next().unwrap();
        assert_eq!((k, v), (i, i * 10));
    }
    let mut iter = tree.iter();
    for i in (1..5).rev() {
        let (&k, &v) = iter.next_back().unwrap();
        assert_eq!((k, v), (i, i * 10));
    }
    let mut iter = tree.iter();
    assert_eq!(Some((&1, &10)), iter.next());
    assert_eq!(Some((&2, &20)), iter.next());
    assert_eq!(Some((&4, &40)), iter.next_back());
    assert_eq!(Some((&3, &30)), iter.next_back());
    assert_eq!(None, iter.next_back());
    assert_eq!(None, iter.next());
    assert_eq!(None, iter.next_back());
    assert_eq!(None, iter.next());
}

#[test]
fn search_tree_find() {
    let tree = SearchTree::from_sorted(vec![(1, 10), (2, 20), (3, 30), (4, 40)]);
    let mut found = tree.find(2..5);
    for i in 2..5 {
        let (&k, &v) = found.next().unwrap();
        assert_eq!((k, v), (i, i * 10));
    }
    assert_eq!(3, count(tree.find(2..5)));

    let tree = SearchTree::from_sorted(vec![(1, 10), (2, 20), (3, 30), (4, 40), (5, 50)]);
    let mut iter = tree.find(2..6);
    assert_eq!(Some((&2, &20)), iter.next());
    assert_eq!(Some((&3, &30)), iter.next());
    assert_eq!(Some((&5, &50)), iter.next_back());
    assert_eq!(Some((&4, &40)), iter.next_back());
    assert_eq!(None, iter.next_back());
    assert_eq!(None, iter.next());
    assert_eq!(None, iter.next_back());
    assert_eq!(None, iter.next());

    let tree = SearchTree::from_sorted(vec![
        ("1".to_string(), 10),
        ("2".to_string(), 20),
        ("3".to_string(), 30),
        ("4".to_string(), 40),
    ]);
    let start = "2".to_string();
    let end = "5".to_string();
    let mut found = tree.find(start.clone()..end.clone());
    for i in 2..5 {
        let (k, &v) = found.next().unwrap();
        assert_eq!((k.as_str(), v), (i.to_string().as_str(), i * 10));
    }
    assert_eq!(3, count(tree.find(start.clone()..end.clone())));
    assert_eq!(3, count(tree.find(start..end)));

    let tree = SearchTree::from_sorted(vec![
        (Int(1), 10),
        (Int(2), 20),
        (Int(3), 30),
        (Int(4), 40),
    ]);
    let start = Int(2);
    let end = Int(5);
    let mut found = tree.find(start.clone()..end.clone());
    for i in 2..5 {
        let (k, &v) = found.next().unwrap();
        assert_eq!((k, v), (&Int(i), i * 10));
    }
    assert_eq!(3, count(tree.find(start.clone()..end.clone())));
    assert_eq!(3, count(tree.find(start..end)));
}

#[test]
fn an_empty_tree_holds_nothing() {
    let mut tree: SearchTree<i32, i32> = SearchTree::new(4, 1);
    assert!(tree.is_empty());
    assert_eq!(0, tree.len());
    assert_eq!(None, tree.get(&1));
    assert_eq!(None, tree.remove(&1));
    assert_eq!(None, tree.iter().next());
    assert_eq!(None, tree.iter().next_back());
    assert_eq!(None, tree.find(0..10).next());
    assert_eq!(None, tree.find(0..10).next_back());
    tree.clear();
    assert!(tree.is_empty());
}

#[test]
fn a_tree_of_one_binding() {
    let mut tree = SearchTree::new(1, 1);
    assert_eq!(None, tree.insert(7, "seven"));
    assert!(!tree.is_empty());
    assert_eq!(1, tree.len());
    assert_eq!(Some(&"seven"), tree.get(&7));
    assert_eq!(None, tree.get(&6));
    assert_eq!(None, tree.remove(&8));
    assert_eq!(vec![(7, "seven")], forward(tree.iter()));
    assert_eq!(vec![(7, "seven")], backward(tree.iter()));
    assert_eq!(Some("seven"), tree.remove(&7));
    assert!(tree.is_empty());
    assert_eq!(None, tree.get(&7));
    assert_eq!(None, tree.insert(7, "again"));
    assert_eq!(Some(&"again"), tree.get(&7));
}

#[test]
fn insert_gives_back_the_value_it_replaces() {
    let mut tree = SearchTree::default();
    assert_eq!(None, tree.insert(2, 'a'));
    assert_eq!(None, tree.insert(1, 'b'));
    assert_eq!(Some('a'), tree.insert(2, 'c'));
    assert_eq!(Some('b'), tree.insert(1, 'd'));
    assert_eq!(2, tree.len());
    assert_eq!(Some(&'c'), tree.get(&2));
    assert_eq!(Some(&'d'), tree.get(&1));
    assert_eq!(vec![(1, 'd'), (2, 'c')], forward(tree.iter()));
}

#[test]
fn a_tree_does_what_a_map_does() {
    let mut tree: SearchTree<u32, u32> = SearchTree::new(8, 2);
    let mut map: BTreeMap<u32, u32> = BTreeMap::new();
    let mut seed: u32 = 12345;
    for step in 0..4000u32 {
        seed = seed.wrapping_mul(1103515245).wrapping_add(12345);
        let key = (seed >> 16) % 97;
        if (seed >> 8) % 3 == 0 {
            assert_eq!(map.remove(&key), tree.remove(&key));
        } else {
            assert_eq!(map.insert(key, step), tree.insert(key, step));
        }
        assert_eq!(map.len(), tree.len());
        assert_eq!(map.is_empty(), tree.is_empty());
        let probe = (seed >> 4) % 97;
        assert_eq!(map.get(&probe), tree.get(&probe));
        if step % 250 == 0 {
            let expected: Vec<(u32, u32)> = map.iter().map(|(k, v)| (*k, *v)).collect();
            assert_eq!(expected, forward(tree.iter()));
            let mut reversed = expected.clone();
            reversed.reverse();
            assert_eq!(reversed, backward(tree.iter()));
        }
    }
}

#[test]
fn keys_come_in_rising_order_from_the_front_and_falling_from_the_back() {
    let mut tree = SearchTree::default();
    for key in [50, 20, 80, 10, 30, 70, 90, 60, 40, 0] {
        tree.insert(key, key * 2);
    }
    let up = forward(tree.iter());
    assert_eq!(10, up.len());
    for pair in up.windows(2) {
        assert!(pair[0].0 < pair[1].0);
    }
    let down = backward(tree.iter());
    assert_eq!(10, down.len());
    for pair in down.windows(2) {
        assert!(pair[0].0 > pair[1].0);
    }
}

#[test]
fn pulls_at_both_ends_give_each_binding_once() {
    let items: Vec<(i32, i32)> = (0..25).map(|i| (i * 3, i)).collect();
    let tree = SearchTree::from_sorted(items.clone());
    for pattern in 0..64u32 {
        let mut iter = tree.iter();
        let mut seen: Vec<i32> = Vec::new();
        let mut pulls = 0;
        while pulls < 40 {
            let at_front = (pattern >> (pulls % 6)) & 1 == 0;
            let item = if at_front { iter.next() } else { iter.next_back() };
            match item {
                Some((k, v)) => {
                    assert!(pulls < 25);
                    assert!(!seen.contains(k));
                    assert_eq!(*k, *v * 3);
                    seen.push(*k);
                },
                None => assert!(pulls >= 25),
            }
            pulls += 1;
        }
        seen.sort();
        assert_eq!(items.iter().map(|e| e.0).collect::<Vec<i32>>(), seen);
    }
}

#[test]
fn find_gives_the_bindings_of_the_range() {
    let mut tree = SearchTree::new(4, 1);
    for key in [8, 3, 5, 13, 1, 21, 2, 34] {
        tree.insert(key, -key);
    }
    assert_eq!(vec![(3, -3), (5, -5), (8, -8)], found_forward(&tree, 3..13));
    assert_eq!(vec![(8, -8), (5, -5), (3, -3)], found_backward(&tree, 3..13));
    assert_eq!(vec![(13, -13)], found_forward(&tree, 9..14));
    assert_eq!(Vec::<(i32, i32)>::new(), found_forward(&tree, 9..13));
    assert_eq!(Vec::<(i32, i32)>::new(), found_backward(&tree, 14..21));
    assert_eq!(Vec::<(i32, i32)>::new(), found_forward(&tree, 13..13));
    assert_eq!(Vec::<(i32, i32)>::new(), found_forward(&tree, 20..3));
    assert_eq!(8, found_forward(&tree, -100..100).len());
    assert_eq!(vec![(1, -1)], found_forward(&tree, 0..2));
    assert_eq!(vec![(34, -34)], found_backward(&tree, 22..35));
}

#[test]
fn find_agrees_with_a_scan_of_all_bindings() {
    let items: Vec<(i32, i32)> = (0..60).map(|i| (i * 2 + 1, i)).collect();
    let tree = SearchTree::from_sorted(items.clone());
    for lo in (-2..125).step_by(7) {
        for hi in (-2..125).step_by(5) {
            let expected: Vec<(i32, i32)> =
                items.iter().copied().filter(|e| lo <= e.0 && e.0 < hi).collect();
            assert_eq!(expected, found_forward(&tree, lo..hi));
            let mut reversed = expected.clone();
            reversed.reverse();
            assert_eq!(reversed, found_backward(&tree, lo..hi));
        }
    }
}

#[test]
fn from_sorted_builds_what_inserts_build() {
    for n in 0..70usize {
        let items: Vec<(usize, usize)> = (0..n).map(|i| (i * 5, i + 100)).collect();
        assert!(SearchTree::keys_ascending(&items));
        let built = SearchTree::from_sorted(items.clone());
        let mut grown = SearchTree::new(4, 1);
        for (k, v) in items.iter() {
            grown.insert(*k, *v);
        }
        assert_eq!(n, built.len());
        assert_eq!(grown.len(), built.len());
        assert_eq!(grown.is_empty(), built.is_empty());
        for probe in 0..(n * 5 + 3) {
            assert_eq!(grown.get(&probe), built.get(&probe));
        }
        assert_eq!(items, forward(built.iter()));
        assert_eq!(forward(grown.iter()), forward(built.iter()));
    }
}

#[test]
fn a_built_tree_takes_inserts_and_removes() {
    let items: Vec<(i32, i32)> = (0..33).map(|i| (i * 2, i)).collect();
    let mut tree = SearchTree::from_sorted(items);
    for i in 0..33 {
        assert_eq!(None, tree.insert(i * 2 + 1, -i));
    }
    assert_eq!(66, tree.len());
    for i in 0..33 {
        assert_eq!(Some(i), tree.remove(&(i * 2)));
    }
    assert_eq!(33, tree.len());
    let expected: Vec<(i32, i32)> = (0..33).map(|i| (i * 2 + 1, -i)).collect();
    assert_eq!(expected, forward(tree.iter()));
}

#[test]
fn keys_out_of_order_are_told_apart() {
    assert!(!SearchTree::keys_ascending(&vec![(3, 30), (1, 10), (4, 40), (2, 20)]));
    assert!(!SearchTree::keys_ascending(&vec![(1, 10), (2, 20), (2, 21)]));
    assert!(!SearchTree::keys_ascending(&vec![(2, 20), (1, 10)]));
    assert!(SearchTree::keys_ascending(&vec![(1, 10), (2, 20), (3, 30), (4, 40)]));
    assert!(SearchTree::keys_ascending(&vec![(1, 10)]));
    assert!(SearchTree::keys_ascending(&Vec::<(i32, i32)>::new()));
}

#[test]
fn clear_empties_a_tree_and_leaves_it_usable() {
    let mut tree = SearchTree::new(2, 1);
    for key in [4, 2, 6, 1, 3, 5, 7, 0, 8] {
        tree.insert(key, key.to_string());
    }
    assert_eq!(9, tree.len());
    tree.clear();
    assert!(tree.is_empty());
    assert_eq!(0, tree.len());
    assert_eq!(None, tree.get(&4));
    assert_eq!(None, tree.iter().next());
    for key in [9, 1, 5] {
        assert_eq!(None, tree.insert(key, key.to_string()));
    }
    assert_eq!(
        vec![(1, "1".to_string()), (5, "5".to_string()), (9, "9".to_string())],
        forward(tree.iter())
    );
}

#[test]
fn every_value_ends_once() {
    let ends = Rc::new(Cell::new(0));
    let mut tree = SearchTree::new(4, 1);
    for key in 0..40 {
        tree.insert(key, Counted { ends: ends.clone() });
    }
    assert_eq!(0, ends.get());
    drop(tree.remove(&7));
    assert_eq!(1, ends.get());
    drop(tree.insert(8, Counted { ends: ends.clone() }));
    assert_eq!(2, ends.get());
    drop(tree);
    assert_eq!(41, ends.get());

    let ends = Rc::new(Cell::new(0));
    let mut tree = SearchTree::new(4, 1);
    for key in 0..25 {
        tree.insert(key * 2, Counted { ends: ends.clone() });
    }
    tree.clear();
    assert_eq!(25, ends.get());
    tree.insert(1, Counted { ends: ends.clone() });
    drop(tree);
    assert_eq!(26, ends.get());
}

#[test]
fn keys_that_are_not_copied_bit_by_bit() {
    let mut tree = SearchTree::new(2, 1);
    for word in ["pear", "apple", "quince", "fig", "plum", "cherry"] {
        assert_eq!(None, tree.insert(word.to_string(), word.len()));
    }
    assert_eq!(Some(3), tree.insert("fig".to_string(), 33));
    assert_eq!(Some(4), tree.remove(&"pear".to_string()));
    assert_eq!(None, tree.remove(&"pear".to_string()));
    assert_eq!(Some(&33), tree.get(&"fig".to_string()));
    let expected: Vec<(String, usize)> = vec![
        ("apple".to_string(), 5),
        ("cherry".to_string(), 6),
        ("fig".to_string(), 33),
        ("plum".to_string(), 4),
        ("quince".to_string(), 6),
    ];
    assert_eq!(expected, forward(tree.iter()));
    assert_eq!(5, tree.len());
}

#[test]
fn pulls_at_both_ends_of_a_range() {
    let items: Vec<(i32, i32)> = (0..40).map(|i| (i, i * i)).collect();
    let tree = SearchTree::from_sorted(items);
    for pattern in 0..32u32 {
        let mut found = tree.find(7..29);
        let mut lo = 7;
        let mut hi = 29;
        for pull in 0..30 {
            let at_front = (pattern >> (pull % 5)) & 1 == 0;
            let item = if at_front { found.next() } else { found.next_back() };
            if lo < hi {
                let expected = if at_front {
                    lo += 1;
                    lo - 1
                } else {
                    hi -= 1;
                    hi
                };
                assert_eq!(Some((&expected, &(expected * expected))), item);
            } else {
                assert_eq!(None, item);
            }
        }
    }
}

#[test]
fn keys_out_of_order_build_no_tree() {
    assert!(SearchTree::try_from_sorted(vec![(3, 30), (1, 10), (4, 40), (2, 20)]).is_none());
    assert!(SearchTree::try_from_sorted(vec![(1, 10), (1, 11)]).is_none());
    let tree = SearchTree::try_from_sorted(vec![(1, 10), (2, 20), (3, 30)]).unwrap();
    assert_eq!(3, tree.len());
    assert_eq!(Some(&20), tree.get(&2));
    let tree = SearchTree::try_from_sorted(Vec::<(u8, u8)>::new()).unwrap();
    assert!(tree.is_empty());
}
