use magic_list::MagicList;
use rand::seq::SliceRandom;
use rand::SeedableRng;
use rand_chacha::ChaChaRng;

fn forward<T>(list: MagicList<T>) -> Vec<T> {
    let mut it = list.into_iter();
    let mut out = Vec::new();
    while let Some(x) = it.next() {
        out.push(x);
    }
    out
}

fn backward<T>(list: MagicList<T>) -> Vec<T> {
    let mut it = list.into_iter();
    let mut out = Vec::new();
    while let Some(x) = it.next_back() {
        out.push(x);
    }
    out
}

fn from_range(n: u64) -> MagicList<u64> {
    let mut list = MagicList::default();
    for i in 0..n {
        list.push(i);
    }
    list
}

#[test]
fn push_back() {
    for size in 0..200 {
        let mut list = MagicList::default();
        let v: Vec<_> = (0..size).collect();
        for &n in &v {
            list.push(n);
        }
        let v2: Vec<_> = forward(list);
        assert_eq!(v, v2);
    }
}

#[test]
fn push_front() {
    for size in 0..200 {
        let mut list = MagicList::default();
        let v: Vec<_> = (0..size).collect();
        for &n in &v {
            list.insert(0, n);
        }
        let v2: Vec<_> = backward(list);
        assert_eq!(v, v2);
    }
}

#[test]
fn remove_and_insert() {
    for size in 0..200 {
        let mut list = MagicList::default();
        let v: Vec<_> = (0..size).collect();
        for &n in &v {
            list.insert(0, n);
        }
        for i in 0..list.len() {
            let removed = list.remove(i);
            list.insert(i, removed);
        }
        let v2: Vec<_> = backward(list);
        assert_eq!(v, v2);
    }
}

#[test]
fn split_and_merge() {
    for size in 0..200 {
        let mut list = MagicList::default();
        for n in 0..size {
            list.push(n);
        }
        for i in 0..=list.len() {
            let (left, right) = list.split_at(i);
            list = left.concat(right);
        }
        assert!(forward(list).into_iter().eq(0..size))
    }
}

#[test]
fn binary_insertion_sort() {
    for size in 0..200 {
        let mut v: Vec<_> = (0..size).collect();
        let mut rng = ChaChaRng::seed_from_u64(size);
        v.shuffle(&mut rng);

        let mut list = MagicList::default();
        for x in v {
            if list.is_empty() {
                list.push(x);
            } else {
                let mut lo = 0;
                let mut hi = list.len();
                while hi > lo {
                    let mid = (lo + hi) / 2;
                    if x < *list.index(mid) {
                        hi = mid;
                    } else {
                        lo = mid + 1;
                    }
                }
                list.insert(hi, x);
            }
        }

        assert!(forward(list).into_iter().eq(0..size));
    }
}

#[test]
fn split_at_zero_and_at_len() {
    let list = from_range(50);
    let (left, right) = list.split_at(0);
    assert!(left.is_empty());
    assert_eq!(forward(right), (0..50).collect::<Vec<_>>());
    let list = from_range(50);
    let (left, right) = list.split_at(50);
    assert_eq!(forward(left), (0..50).collect::<Vec<_>>());
    assert_eq!(right.len(), 0);
}

#[test]
fn split_off_keeps_prefix() {
    let mut list = from_range(1000);
    let right = list.split_off(337);
    assert_eq!(list.len(), 337);
    assert_eq!(right.len(), 663);
    assert_eq!(forward(list), (0..337).collect::<Vec<_>>());
    assert_eq!(forward(right), (337..1000).collect::<Vec<_>>());
}

#[test]
fn split_every_offset_of_large_list() {
    let n = 700;
    for i in (0..=n).step_by(7) {
        let (left, right) = from_range(n).split_at(i as usize);
        assert_eq!(left.len() + right.len(), n as usize);
        let joined = left.concat(right);
        assert_eq!(forward(joined), (0..n).collect::<Vec<_>>());
    }
}

#[test]
fn concat_unequal_heights() {
    let small = from_range(3);
    let mut big = MagicList::default();
    for i in 3..5003u64 {
        big.push(i);
    }
    let joined = small.concat(big);
    assert_eq!(forward(joined), (0..5003).collect::<Vec<_>>());

    let big = from_range(5000);
    let mut small = MagicList::default();
    small.push(5000u64);
    let joined = big.concat(small);
    assert_eq!(forward(joined), (0..5001).collect::<Vec<_>>());
}

#[test]
fn concat_with_empty() {
    let joined = from_range(40).concat(MagicList::default());
    assert_eq!(forward(joined), (0..40).collect::<Vec<_>>());
    let joined = MagicList::default().concat(from_range(40));
    assert_eq!(forward(joined), (0..40).collect::<Vec<_>>());
}

#[test]
fn push_then_pop_reverses() {
    let mut list = from_range(10);
    for v in [100u64, 200, 300, 400] {
        list.push(v);
    }
    let mut out = Vec::new();
    for _ in 0..4 {
        out.push(list.pop());
    }
    assert_eq!(out, vec![400, 300, 200, 100]);
    assert_eq!(forward(list), (0..10).collect::<Vec<_>>());
}

#[test]
fn insert_at_front_reverses() {
    let mut list = MagicList::default();
    for v in [5u64, 6, 7, 8] {
        list.insert(0, v);
    }
    assert_eq!(forward(list), vec![8, 7, 6, 5]);
}

#[test]
fn remove_returns_element_at_position() {
    let mut list = from_range(500);
    assert_eq!(list.remove(0), 0);
    assert_eq!(list.remove(250), 251);
    assert_eq!(list.remove(497), 499);
    assert_eq!(list.len(), 497);
    let mut expected: Vec<u64> = (1..499).collect();
    expected.remove(250);
    assert_eq!(forward(list), expected);
}

#[test]
fn pop_single_element() {
    let mut list = MagicList::default();
    list.push(42u64);
    assert_eq!(list.pop(), 42);
    assert!(list.is_empty());
}

#[test]
fn index_reads_every_position() {
    let list = from_range(3000);
    for i in 0..3000 {
        assert_eq!(*list.index(i), i as u64);
    }
}

#[test]
fn set_replaces_one_element() {
    let mut list = from_range(1000);
    assert_eq!(list.set(613, 7), 613);
    assert_eq!(*list.index(613), 7);
    assert_eq!(*list.index(612), 612);
    assert_eq!(*list.index(614), 614);
    assert_eq!(list.len(), 1000);
}

#[test]
fn from_vec_keeps_order() {
    let v: Vec<u64> = (0..300).map(|x| x * 3).collect();
    let list = MagicList::from_vec(v.clone());
    assert_eq!(list.len(), 300);
    assert_eq!(forward(list), v);
}

#[test]
fn extend_appends() {
    let mut list = from_range(30);
    let mut other = MagicList::default();
    for i in 30..90u64 {
        other.push(i);
    }
    list.extend(other);
    assert_eq!(list.len(), 90);
    assert_eq!(forward(list), (0..90).collect::<Vec<_>>());
}

#[test]
fn into_iter_both_ends() {
    let mut it = from_range(5).into_iter();
    assert_eq!(it.size_hint(), (5, Some(5)));
    assert_eq!(it.next(), Some(0));
    assert_eq!(it.next_back(), Some(4));
    assert_eq!(it.len(), 3);
    assert_eq!(it.next(), Some(1));
    assert_eq!(it.next(), Some(2));
    assert_eq!(it.next_back(), Some(3));
    assert_eq!(it.next(), None);
    assert_eq!(it.next_back(), None);
}

#[test]
fn empty_list() {
    let list: MagicList<u64> = MagicList::default();
    assert!(list.is_empty());
    assert_eq!(list.len(), 0);
    let mut it = list.iter();
    assert_eq!(it.next(), None);
    assert_eq!(it.next_back(), None);
}
