use oram::sort::odd_even_mergesort;
use oram::vec_store::{Natural, VecAccess};

fn sort_until_n(n: usize, source: &Vec<i32>) {
    let mut store = VecAccess::new(source.clone());
    let mut v2 = source.clone();

    odd_even_mergesort(0..n, &Natural, &mut store).unwrap();
    v2[0..n].sort();
    assert_eq!(store.items[0..n], v2[0..n]);
    assert_eq!(store.items[n..], source[n..]);
}

// A small generator of test data, so that the tests need no outside source of
// randomness and fail the same way every time.
fn scramble(state: &mut u64) -> u64 {
    *state = state.wrapping_mul(6364136223846793005).wrapping_add(1442695040888963407);
    *state >> 33
}

fn permutations(n: usize) -> Vec<Vec<u32>> {
    if n == 0 {
        return vec![vec![]];
    }
    let mut all = Vec::new();
    for shorter in permutations(n - 1) {
        for at in 0..n {
            let mut longer = shorter.clone();
            longer.insert(at, (n - 1) as u32);
            all.push(longer);
        }
    }
    all
}

#[test]
fn sort_should_work() {
    let v = vec![8, 1, 3, 4, 6, 7, 1, 2, 3];

    for i in 1..v.len() {
        sort_until_n(i, &v);
    }
}

#[test]
fn sort_struct() {
    let v = vec![(0, 1), (1, 3), (4, 1), (4, 2), (3, 9)];
    let n = v.len();
    let mut store = VecAccess::new(v);

    odd_even_mergesort(0..n, &Natural, &mut store).unwrap();
    assert_eq!(store.items, vec![(0, 1), (1, 3), (3, 9), (4, 1), (4, 2)])
}

#[test]
fn sort_whole_vector_of_odd_length() {
    let v = vec![8, 1, 3, 4, 6, 7, 1, 2, 3];
    sort_until_n(v.len(), &v);
}

#[test]
fn sort_empty_range_changes_nothing() {
    let v: Vec<i32> = vec![3, 2, 1];
    let mut store = VecAccess::new(v.clone());
    odd_even_mergesort(0..0, &Natural, &mut store).unwrap();
    assert_eq!(store.items, v);

    let mut empty: VecAccess<i32> = VecAccess::new(vec![]);
    odd_even_mergesort(0..0, &Natural, &mut empty).unwrap();
    assert!(empty.items.is_empty());
}

#[test]
fn sort_single_element() {
    let mut store = VecAccess::new(vec![7u32, 5, 6]);
    odd_even_mergesort(0..1, &Natural, &mut store).unwrap();
    assert_eq!(store.items, vec![7, 5, 6]);
}

#[test]
fn sort_every_permutation_of_short_ranges() {
    for n in 1..=7usize {
        let expected: Vec<u32> = (0..n as u32).collect();
        for p in permutations(n) {
            let mut store = VecAccess::new(p);
            odd_even_mergesort(0..n, &Natural, &mut store).unwrap();
            assert_eq!(store.items, expected);
        }
    }
}

#[test]
fn sort_network_sorts_every_length_up_to_64() {
    let mut state = 2020u64;
    for n in 1..=64usize {
        for _ in 0..20 {
            // a shuffled 0..n, followed by a tail that the sort must not touch
            let mut items: Vec<u32> = (0..n as u32).collect();
            for i in (1..n).rev() {
                let j = (scramble(&mut state) % (i as u64 + 1)) as usize;
                items.swap(i, j);
            }
            let tail: Vec<u32> = (0..5).map(|_| scramble(&mut state) as u32).collect();
            items.extend(tail.iter().copied());

            let mut store = VecAccess::new(items);
            odd_even_mergesort(0..n, &Natural, &mut store).unwrap();
            let expected: Vec<u32> = (0..n as u32).collect();
            assert_eq!(store.items[..n], expected[..]);
            assert_eq!(store.items[n..], tail[..]);
        }
    }
}

#[test]
fn sort_keeps_duplicates() {
    let mut store = VecAccess::new(vec![5u64, 1, 5, 1, 5, 0, 0, 9, 5, 1, 2]);
    odd_even_mergesort(0..11, &Natural, &mut store).unwrap();
    assert_eq!(store.items, vec![0, 0, 1, 1, 1, 2, 5, 5, 5, 5, 9]);
}

#[test]
fn sort_orders_negative_numbers_and_pairs() {
    let mut store = VecAccess::new(vec![3, -1, i32::MIN, 0, i32::MAX, -7]);
    odd_even_mergesort(0..6, &Natural, &mut store).unwrap();
    assert_eq!(store.items, vec![i32::MIN, -7, -1, 0, 3, i32::MAX]);

    let mut pairs = VecAccess::new(vec![
        (1, -5),
        (-1, i32::MAX),
        (1, i32::MIN),
        (-1, 0),
        (0, 0),
        (i32::MIN, 3),
    ]);
    odd_even_mergesort(0..6, &Natural, &mut pairs).unwrap();
    assert_eq!(
        pairs.items,
        vec![(i32::MIN, 3), (-1, 0), (-1, i32::MAX), (0, 0), (1, i32::MIN), (1, -5)]
    );
}
