use storage_engine::btree3::{BTree, MAX_KEYS};

/// A xorshift generator standing in for a source of random numbers.
fn next_random(state: &mut u64) -> u32 {
    *state ^= *state << 13;
    *state ^= *state >> 7;
    *state ^= *state << 17;
    (*state >> 32) as u32
}

const TEST_STRING: &str = "Lorem ipsum dolor sit amet, consectetur adipiscing elit, sed do eiusmod tempor incididunt ut labore et dolore magna aliqua. Ut enim ad minim veniam, quis nostrud exercitation ullamco laboris nisi ut aliquip ex ea commodo consequat. Duis aute irure dolor in reprehenderit in voluptate velit esse cillum dolore eu fugiat nulla pariatur. Excepteur sint occaecat cupidatat non proident, sunt in culpa qui officia deserunt mollit anim id est laborum.";

#[test]
fn btree3_test_split() {}

#[test]
fn btree3_test_big() {
    let mut btree = BTree::new();
    println!("MAX_KEYS: {}", MAX_KEYS);

    let mut state: u64 = 0x9E37_79B9_7F4A_7C15;
    let mut nums: Vec<(u32, u32)> = (1..10_000_000).map(|n| (next_random(&mut state), n)).collect();
    nums.sort();

    println!("Starting!\n\n");
    let start = std::time::Instant::now();
    for key in nums.into_iter().map(|tuple| tuple.1) {
        btree.insert(key, 'a');
    }
    btree.fix();

    println!("{:?}", start.elapsed());
}

#[test]
fn btree3_test_iter() {
    let mut btree = BTree::new();

    let data: Vec<(u32, char)> =
        TEST_STRING.chars().enumerate().map(|(index, c)| (index as u32 + 1, c)).collect();
    let mut state: u64 = 0x2545_F491_4F6C_DD1D;
    let mut attach_random: Vec<(u32, (u32, char))> =
        data.into_iter().map(|ele| (next_random(&mut state), ele)).collect();
    attach_random.sort();
    let randomized: Vec<(u32, char)> = attach_random.into_iter().map(|(_, ele)| ele).collect();

    for (key, val) in randomized.into_iter() {
        btree.insert(key, val);
    }

    btree.fix();
    let mut btree_iter = btree.iter();
    btree_iter.next();
    let mut output = String::new();
    while let Some(c) = btree_iter.next() {
        output.push(c);
    }

    assert_eq!(&output, TEST_STRING);
}

#[test]
fn btree3_new_holds_the_zero_key() {
    let btree = BTree::new();
    assert_eq!(btree.height(), 0);
    let mut it = btree.iter();
    assert_eq!(it.next(), Some('a'));
    assert_eq!(it.next(), None);
}

#[test]
fn btree3_search_after_fix() {
    let mut btree = BTree::new();
    for k in (1..=3000u32).rev() {
        btree.insert(k, char::from(b'a' + (k % 26) as u8));
    }
    btree.fix();
    assert!(btree.height() >= 1);
    assert_eq!(btree.search(0), Some('a'));
    assert_eq!(btree.search(1), Some('b'));
    assert_eq!(btree.search(2999), Some(char::from(b'a' + (2999 % 26) as u8)));
    assert_eq!(btree.search(3001), None);
}

#[test]
fn btree3_iter_is_in_key_order() {
    let mut btree = BTree::new();
    for (k, c) in [(5u32, 'e'), (3, 'c'), (4, 'd'), (1, 'a'), (2, 'b')] {
        btree.insert(k, c);
    }
    btree.fix();
    let mut it = btree.iter();
    let mut out = String::new();
    while let Some(c) = it.next() {
        out.push(c);
    }
    assert_eq!(out, "aabcde");
}

#[test]
fn btree3_to_string() {
    let mut btree = BTree::new();
    assert_eq!(btree.to_string(), "\n(0,) | \n\n");
    btree.insert(42, 'x');
    btree.insert(7, 'y');
    // a leaf lists its keys in the order they came until it is fixed
    assert_eq!(btree.to_string(), "\n(0,42,7,) | \n\n");
    btree.fix();
    assert_eq!(btree.to_string(), "\n(0,7,42,) | \n\n");
}
