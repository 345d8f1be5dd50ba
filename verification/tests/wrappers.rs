use kernel::mem::wrappers::{Box, Rc, String, Vec};

#[test]
fn vec_grows_by_doubling() {
    let mut v: Vec<u32> = Vec::new();
    assert_eq!(v.capacity(), 0);
    v.push(1);
    assert_eq!(v.capacity(), 4);
    for i in 2..=5 {
        v.push(i);
    }
    assert_eq!(v.len(), 5);
    assert_eq!(v.capacity(), 8);
    assert_eq!(v.as_slice(), &[1, 2, 3, 4, 5]);
}

#[test]
fn vec_with_capacity() {
    let mut v: Vec<u8> = Vec::with_capacity(10);
    assert_eq!(v.capacity(), 10);
    assert_eq!(v.len(), 0);
    for i in 0..11 {
        v.push(i);
    }
    assert_eq!(v.capacity(), 20);
    let e: Vec<u8> = Vec::with_capacity(0);
    assert_eq!(e.capacity(), 0);
}

#[test]
fn vec_push_then_pop() {
    let mut v: Vec<i64> = Vec::new();
    assert_eq!(v.pop(), None);
    assert_eq!(v.peek(), None);
    v.push(-3);
    v.push(9);
    assert_eq!(v.peek(), Some(&9));
    assert_eq!(v.pop(), Some(9));
    assert_eq!(v.pop(), Some(-3));
    assert_eq!(v.pop(), None);
    assert_eq!(v.capacity(), 4);
}

#[test]
fn vec_access() {
    let mut v: Vec<u16> = Vec::new();
    v.push(10);
    v.push(20);
    assert_eq!(v.get(1), Some(&20));
    assert_eq!(v.get(2), None);
    *v.get_mut(0).unwrap() = 11;
    assert!(v.get_mut(5).is_none());
    *v.peek_mut().unwrap() += 1;
    assert_eq!(v.as_slice(), &[11, 21]);
}

#[test]
fn string_bytes() {
    let mut s = String::new();
    s.push('h');
    s.push('é');
    s.push('€');
    // Low bytes of each scalar value, least significant first.
    assert_eq!(s.as_bytes(), &[0x68, 0xE9, 0x00, 0xAC, 0x20, 0x00]);
    let t = String::from_str("hi!");
    assert_eq!(t.as_bytes(), b"hi!");
}

#[test]
fn string_pop() {
    let mut s = String::from_str("ab");
    assert_eq!(s.pop(), Some('b'));
    s.push('c');
    assert_eq!(s.pop(), Some('c'));
    assert_eq!(s.pop(), Some('a'));
    assert_eq!(s.pop(), None);
    // A character of several bytes comes back a byte at a time.
    s.push('é');
    assert_eq!(s.pop(), Some('\0'));
    assert_eq!(s.pop(), Some('\u{e9}'));
}

#[test]
fn boxes() {
    let b = Box::new(41u32);
    assert_eq!(*b.as_ref(), 41);
    let mut b = b;
    *b.as_mut() += 1;
    assert_eq!(Box::take(b), 42);
}

#[test]
fn shared_values() {
    let a = Rc::new([1u8, 2, 3]);
    let b = a.clone();
    assert_eq!(b.as_ref(), &[1, 2, 3]);
    assert_eq!(a.as_ref(), b.as_ref());
}

#[test]
fn leaked_box_stays() {
    let b = Box::new(7u64);
    let r: &'static mut u64 = Box::leak(b);
    assert_eq!(*r, 7);
    *r = 8;
    assert_eq!(*r, 8);
}

#[test]
fn vec_as_mut_slice() {
    let mut v: Vec<u8> = Vec::new();
    v.push(1);
    v.push(2);
    v.as_mut_slice()[0] = 9;
    assert_eq!(v.as_slice(), &[9, 2]);
    assert_eq!(v.capacity(), 4);
}
