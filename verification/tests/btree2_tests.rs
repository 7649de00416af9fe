use storage_engine::storage_engine::btree2::{BTree, MAX_KEYS};

/// A xorshift generator standing in for a source of random numbers.
fn next_random(state: &mut u64) -> u32 {
    *state ^= *state << 13;
    *state ^= *state >> 7;
    *state ^= *state << 17;
    (*state >> 32) as u32
}

#[test]
fn btree2_test_split() {}

#[test]
fn btree2_test_big() {
    let mut btree = BTree::new();
    println!("MAX_KEYS: {}", MAX_KEYS);

    let mut state: u64 = 0x9E37_79B9_7F4A_7C15;
    let mut nums: Vec<(u32, u32)> = (1..200_000).map(|n| (next_random(&mut state), n)).collect();
    nums.sort();

    println!("Starting!\n\n");
    for key in nums.into_iter().map(|tuple| tuple.1) {
        btree.insert(key, 'a');
    }

    println!("{}", btree.height());
}

#[test]
fn btree2_test_iter() {
    let mut btree = BTree::new();

    let test_string = "Lorem ipsum dolor sit amet, consectetur adipiscing elit, sed do eiusmod tempor incididunt ut labore et dolore magna aliqua. Ut enim ad minim veniam, quis nostrud exercitation ullamco laboris nisi ut aliquip ex ea commodo consequat. Duis aute irure dolor in reprehenderit in voluptate velit esse cillum dolore eu fugiat nulla pariatur. Excepteur sint occaecat cupidatat non proident, sunt in culpa qui officia deserunt mollit anim id est laborum.";
    let data: Vec<(u32, char)> =
        test_string.chars().enumerate().map(|(index, c)| (index as u32 + 1, c)).collect();
    let mut state: u64 = 0x2545_F491_4F6C_DD1D;
    let mut attach_random: Vec<(u32, (u32, char))> =
        data.into_iter().map(|ele| (next_random(&mut state), ele)).collect();
    attach_random.sort();
    let randomized: Vec<(u32, char)> = attach_random.into_iter().map(|(_, ele)| ele).collect();

    println!("Starting: ");
    for (key, val) in randomized.into_iter() {
        btree.insert(key, val);
    }
    println!("Done inserting.");

    let mut btree_iter = btree.iter();
    let mut output = String::new();
    while let Some(c) = btree_iter.next() {
        output.push(c);
    }

    assert_eq!(&output, test_string);
}

#[test]
fn btree2_insert_and_search() {
    let mut btree = BTree::<u32, char>::new();

    btree.insert(1, 'a');
    btree.insert(2, 'b');
    btree.insert(3, 'c');

    assert_eq!(btree.search(0), None);
    assert_eq!(btree.search(1), Some('a'));
    assert_eq!(btree.search(2), Some('b'));
    assert_eq!(btree.search(3), Some('c'));
    assert_eq!(btree.search(4), None);
    assert_eq!(btree.height(), 1);

    btree.insert(4, 'd');
    assert_eq!(btree.search(4), Some('d'));
    assert_eq!(btree.pairs(), vec![(1, 'a'), (2, 'b'), (3, 'c'), (4, 'd')]);
}

#[test]
fn btree2_split_grows_height_by_one() {
    let mut btree = BTree::<u64, u64>::new();
    for k in 0..(MAX_KEYS as u64 + 1) {
        btree.insert(k, k * 10);
    }
    assert_eq!(btree.height(), 2);
    // keys at or above the first separator are found through the root
    assert_eq!(btree.search(MAX_KEYS as u64), Some(MAX_KEYS as u64 * 10));
    assert_eq!(btree.pairs().len(), MAX_KEYS + 1);
}

#[test]
fn btree2_new_is_one_empty_leaf() {
    let btree = BTree::<i32, u8>::new();
    assert_eq!(btree.height(), 1);
    assert_eq!(btree.pairs(), vec![]);
}

#[test]
fn btree2_to_string_one_leaf() {
    let mut btree = BTree::<i32, char>::new();
    btree.insert(3, 'c');
    btree.insert(-5, 'a');
    btree.insert(12, 'b');
    assert_eq!(btree.to_string(), "\n(-5,3,12,) | \n\n");
}

#[test]
fn btree2_to_string_two_levels() {
    let mut btree = BTree::<u32, u32>::new();
    for k in 0..=(MAX_KEYS as u32) {
        btree.insert(k, k);
    }
    let mut expected = String::from("\n(500,) | \n\n(");
    for k in 0..500 {
        expected.push_str(&format!("{},", k));
    }
    expected.push_str(") | (");
    for k in 500..=(MAX_KEYS as u32) {
        expected.push_str(&format!("{},", k));
    }
    expected.push_str(") | \n\n");
    assert_eq!(btree.to_string(), expected);
}

#[test]
fn btree2_height_grows_when_the_root_leaf_splits() {
    let mut btree = BTree::<u32, char>::new();
    for k in 1..=(MAX_KEYS as u32) {
        btree.insert(k, 'x');
    }
    assert_eq!(btree.height(), 1);
    btree.insert(MAX_KEYS as u32 + 1, 'x');
    assert_eq!(btree.height(), 2);
}

#[test]
fn btree2_full_internal_node_splits() {
    let mut btree = BTree::<u32, u32>::new();
    let n: u32 = 600_000;
    for k in 0..n {
        btree.insert(k, k + 1);
    }
    // the root took more than MAX_KEYS separators and split under a new root
    assert_eq!(btree.height(), 3);
    let pairs = btree.pairs();
    assert_eq!(pairs.len(), n as usize);
    assert!(pairs.iter().enumerate().all(|(i, &(k, v))| k == i as u32 && v == k + 1));
    assert!(btree.contains_key(0));
    assert!(btree.contains_key(n - 1));
    assert!(!btree.contains_key(n));
    assert_eq!(btree.search(n - 1), Some(n));
}
