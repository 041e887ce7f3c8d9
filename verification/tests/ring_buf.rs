use extra_collections::{RingBuf, RingBufFiniteIntoIter, RingBufFiniteIter};

fn copied(mut it: RingBufFiniteIter<'_, u8>) -> Vec<u8> {
    let mut out = Vec::new();
    while let Some(x) = it.next() {
        out.push(*x);
    }
    out
}

fn cloned(mut it: RingBufFiniteIter<'_, String>) -> Vec<String> {
    let mut out = Vec::new();
    while let Some(x) = it.next() {
        out.push(x.clone());
    }
    out
}

fn drain(mut it: RingBufFiniteIntoIter<u8>) -> Vec<u8> {
    let mut out = Vec::new();
    while let Some(x) = it.next() {
        out.push(x);
    }
    out
}

#[test]
fn push() {
    let mut buf: RingBuf<u8> = RingBuf::new(8);
    buf.push(1);
    assert!(buf.first().is_some());
}

#[test]
fn pop() {
    let mut buf: RingBuf<u8> = RingBuf::new(8);
    buf.push(1);
    let out = buf.pop();
    assert!(out.is_some());
}

#[test]
#[should_panic]
fn pop_empty() {
    let mut buf: RingBuf<u8> = RingBuf::new(8);
    buf.pop().unwrap();
}

#[test]
fn push_at_capacity() {
    let mut buf: RingBuf<u8> = RingBuf::new(8);
    for _ in 0..8 {
        buf.push(1);
    }
    assert!(buf.len() == 8);
    assert!(buf.tail() == 0);

    buf.push(1);
    assert!(buf.len() == 8);
    assert!(buf.tail() == 1);
    assert!(buf.head() == 1);
}

#[test]
fn pop_at_capacity() {
    let mut buf: RingBuf<u8> = RingBuf::new(8);
    for _ in 0..9 {
        buf.push(1);
    }

    buf.pop().unwrap();
    assert!(buf.len() == 7);
    assert!(buf.tail() == 0);
    assert!(buf.head() == 1);
}

#[test]
fn iter() {
    let mut buf: RingBuf<u8> = RingBuf::new(8);
    for i in 0..8 {
        buf.push(i);
    }

    let expected = vec![0, 1, 2, 3, 4, 5, 6, 7];
    assert_eq!(expected.len(), 8);
    let actual: Vec<u8> = copied(buf.iter());
    assert_eq!(actual, expected);
}

#[test]
fn iter_at_capacity() {
    let mut buf: RingBuf<u8> = RingBuf::new(8);
    for i in 0..9 {
        buf.push(i);
    }

    let expected = vec![1, 2, 3, 4, 5, 6, 7, 8];
    assert_eq!(expected.len(), 8);
    let actual: Vec<u8> = copied(buf.iter());
    assert_eq!(actual, expected);
}

#[test]
fn clone() {
    let mut buf: RingBuf<String> = RingBuf::new(5);
    for i in 0..8 {
        buf.push(format!("{}", i));
    }

    let expected: Vec<String> = cloned(buf.iter());
    let actual: Vec<String> = cloned(buf.clone().iter());
    assert_eq!(actual, expected);
}

#[test]
fn into_iter() {
    let mut buf: RingBuf<u8> = RingBuf::new(8);
    for i in 0..8 {
        buf.push(i);
    }

    let expected: Vec<u8> = copied(buf.iter());
    let iter: RingBufFiniteIntoIter<u8> = buf.into_iter();
    let actual: Vec<u8> = drain(iter);
    assert_eq!(actual, expected);
}

#[test]
fn overwrites_earliest_once_full() {
    let mut buf = RingBuf::new(8);
    for i in 0..8 {
        buf.push(i);
    }
    assert_eq!(copied(buf.iter()), vec![0, 1, 2, 3, 4, 5, 6, 7]);

    buf.push(8);
    assert_eq!(copied(buf.iter()), vec![1, 2, 3, 4, 5, 6, 7, 8]);
}

#[test]
fn many_pushes_keep_only_the_newest() {
    let mut buf: RingBuf<u8> = RingBuf::new(3);
    buf.push(100);
    for i in 0..20 {
        buf.push(i);
    }
    assert_eq!(copied(buf.iter()), vec![17, 18, 19]);
    assert_eq!(buf.len(), 3);
}

#[test]
fn pop_returns_last_pushed_and_restores() {
    let mut buf: RingBuf<u8> = RingBuf::new(4);
    buf.push(1);
    buf.push(2);
    buf.push(3);
    assert_eq!(buf.pop(), Some(3));
    assert_eq!(copied(buf.iter()), vec![1, 2]);
    assert_eq!(buf.tail(), 2);
}

#[test]
fn pop_when_full_returns_newest() {
    let mut buf: RingBuf<u8> = RingBuf::new(2);
    buf.push(1);
    buf.push(2);
    buf.push(3);
    assert_eq!(buf.pop(), Some(3));
    assert_eq!(copied(buf.iter()), vec![2]);
}

#[test]
fn pop_wraps_tail_below_zero() {
    let mut buf: RingBuf<u8> = RingBuf::new(3);
    buf.push(1);
    buf.push(2);
    buf.push(3);
    assert_eq!(buf.tail(), 0);
    assert_eq!(buf.pop(), Some(3));
    assert_eq!(buf.tail(), 2);
    assert_eq!(buf.head(), 0);
}

#[test]
fn empty_buffer() {
    let mut buf: RingBuf<u8> = RingBuf::new(4);
    assert!(buf.is_empty());
    assert_eq!(buf.len(), 0);
    assert_eq!(buf.first(), None);
    assert_eq!(buf.get(0), None);
    assert_eq!(buf.pop(), None);
    assert_eq!(buf.head(), 0);
    assert_eq!(buf.tail(), 0);
}

#[test]
fn get_first_last() {
    let mut buf: RingBuf<u8> = RingBuf::new(3);
    for i in 10..14 {
        buf.push(i);
    }
    assert_eq!(buf.get(0), Some(&11));
    assert_eq!(buf.get(1), Some(&12));
    assert_eq!(buf.get(2), Some(&13));
    assert_eq!(buf.get(3), Some(&11));
    assert_eq!(buf.get(4), None);
    assert_eq!(buf.first(), Some(&11));
    assert_eq!(buf.tail(), 1);
    assert_eq!(buf.last(), Some(&11));
    assert!(!buf.is_empty());
}

#[test]
fn index_operator() {
    let mut buf: RingBuf<u8> = RingBuf::new(2);
    buf.push(5);
    buf.push(6);
    buf.push(7);
    assert_eq!(buf[0], 6);
    assert_eq!(buf[1], 7);
}

#[test]
fn get_mut_writes_through() {
    let mut buf: RingBuf<u8> = RingBuf::new(3);
    for i in 0..5 {
        buf.push(i);
    }
    if let Some(x) = buf.get_mut(1) {
        *x = 40;
    }
    assert_eq!(buf.get_mut(3), Some(&mut 2));
    assert_eq!(buf.get_mut(4), None);
    assert_eq!(copied(buf.iter()), vec![2, 40, 4]);
}

#[test]
fn iter_mut_visits_every_element() {
    let mut buf: RingBuf<u8> = RingBuf::new(3);
    for i in 0..4 {
        buf.push(i);
    }
    {
        let mut it = buf.iter_mut();
        while let Some(x) = it.next() {
            *x += 10;
        }
    }
    assert_eq!(copied(buf.iter()), vec![11, 12, 13]);
}

#[test]
fn into_new_slice_keeps_order_and_start() {
    let mut buf: RingBuf<u8> = RingBuf::new(4);
    for i in 0..6 {
        buf.push(i);
    }
    let slice = buf.into_new_slice();
    assert_eq!(&*slice, &[2, 3, 4, 5]);
}

#[test]
fn into_slice_keeps_order_not_start() {
    let mut buf: RingBuf<u8> = RingBuf::new(4);
    for i in 0..6 {
        buf.push(i);
    }
    assert_eq!(buf.head(), 2);
    let slice = buf.into_slice();
    assert_eq!(&*slice, &[4, 5, 2, 3]);
}

#[test]
fn into_slice_before_wrapping() {
    let mut buf: RingBuf<u8> = RingBuf::new(4);
    buf.push(7);
    buf.push(8);
    let slice = buf.into_slice();
    assert_eq!(&*slice, &[7, 8]);
}

#[test]
fn as_slice_keeps_order_not_start() {
    let mut buf: RingBuf<u8> = RingBuf::new(3);
    for i in 0..4 {
        buf.push(i);
    }
    let refs = buf.as_slice();
    let values: Vec<u8> = refs.into_iter().copied().collect();
    assert_eq!(values, vec![3, 1, 2]);
}

#[test]
fn clone_is_independent() {
    let mut buf: RingBuf<u8> = RingBuf::new(3);
    buf.push(1);
    buf.push(2);
    let mut copy = buf.clone();
    copy.push(3);
    assert_eq!(copied(buf.iter()), vec![1, 2]);
    assert_eq!(copied(copy.iter()), vec![1, 2, 3]);
    assert_eq!(copy.head(), buf.head());
}

#[test]
fn as_slice_after_pop_from_full() {
    let mut buf: RingBuf<u8> = RingBuf::new(8);
    for i in 0..9 {
        buf.push(i);
    }
    buf.pop();
    assert_eq!(buf.head(), 1);
    let values: Vec<u8> = buf.as_slice().into_iter().copied().collect();
    assert_eq!(values, vec![1, 2, 3, 4, 5, 6, 7]);
}

#[test]
fn into_slice_wrapped_and_not_full() {
    let mut buf: RingBuf<u8> = RingBuf::new(4);
    for i in 1..7 {
        buf.push(i);
    }
    assert_eq!(buf.pop(), Some(6));
    assert_eq!(copied(buf.iter()), vec![3, 4, 5]);
    let slice = buf.into_slice();
    assert_eq!(&*slice, &[5, 3, 4]);
}

#[test]
fn get_at_length_of_partly_filled_buffer() {
    let mut buf: RingBuf<u8> = RingBuf::new(4);
    buf.push(1);
    buf.push(2);
    assert_eq!(buf.get(2), None);
    assert_eq!(buf.last(), Some(&2));
}

#[test]
fn index_at_length_of_full_buffer() {
    let mut buf: RingBuf<u8> = RingBuf::new(2);
    buf.push(1);
    buf.push(2);
    buf.push(3);
    assert_eq!(buf[2], 2);
}
