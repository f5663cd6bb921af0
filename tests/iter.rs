use magic_list::{Iter, MagicList};

#[test]
fn test() {
    let list: MagicList<_> = MagicList::from_vec((0..100).collect());
    let mut iter: Iter<_> = list.iter();
    assert_eq!(iter.next(), Some(&0));
    assert_eq!(iter.next(), Some(&1));
    assert_eq!(iter.next(), Some(&2));
    assert_eq!(iter.next_back(), Some(&99));
    assert_eq!(iter.next_back(), Some(&98));
    assert_eq!(iter.next_back(), Some(&97));
    assert!(iter.len() == 94);
    let mut rest = Vec::new();
    while let Some(&x) = iter.next() {
        rest.push(x);
    }
    assert!(rest.into_iter().eq(3..97));
}

#[test]
fn index_matches_iteration() {
    let list = MagicList::from_vec((0..1000u32).map(|x| x * 7 % 1009).collect());
    let mut iter = list.iter();
    let mut i = 0;
    while let Some(x) = iter.next() {
        assert_eq!(x, list.index(i));
        i += 1;
    }
    assert_eq!(i, 1000);
    let mut iter = list.iter();
    let mut j = 1000;
    while let Some(x) = iter.next_back() {
        j -= 1;
        assert_eq!(x, list.index(j));
    }
    assert_eq!(j, 0);
}

#[test]
fn iter_size_hint_shrinks() {
    let list = MagicList::from_vec(vec![1u8, 2, 3]);
    let mut iter = list.iter();
    assert_eq!(iter.size_hint(), (3, Some(3)));
    iter.next_back();
    assert_eq!(iter.size_hint(), (2, Some(2)));
    iter.next();
    iter.next();
    assert_eq!(iter.len(), 0);
    assert_eq!(iter.next(), None);
}
