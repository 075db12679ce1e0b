use smallstr::Drain;
use smallstr::SmallString;

fn drain_forward(d: &mut Drain) -> String {
    let mut out = String::new();
    while let Some(c) = d.next() {
        out.push(c);
    }
    out
}

fn drain_backward(d: &mut Drain) -> String {
    let mut out = String::new();
    while let Some(c) = d.next_back() {
        out.push(c);
    }
    out
}

#[test]
fn test_drain() {
    let mut s: SmallString<2> = SmallString::new();

    s.push('a');
    assert_eq!(drain_forward(&mut s.drain()), "a");
    assert!(s.is_empty());

    // spilling the vec
    s.push('x');
    s.push('y');
    s.push('z');

    assert_eq!(drain_forward(&mut s.drain()), "xyz");
    assert!(s.is_empty());
}

#[test]
fn test_drain_rev() {
    let mut s: SmallString<2> = SmallString::new();

    s.push('a');
    assert_eq!(drain_backward(&mut s.drain()), "a");
    assert!(s.is_empty());

    // spilling the vec
    s.push('x');
    s.push('y');
    s.push('z');

    assert_eq!(drain_backward(&mut s.drain()), "zyx");
    assert!(s.is_empty());
}

#[test]
fn test_eq() {
    let s: SmallString<4> = SmallString::from_str("foo");

    assert_eq!(*s.as_str(), *"foo");
    assert_eq!(s.as_str(), "foo");
    assert_eq!(s.as_str().to_string(), "foo".to_owned());
    assert_eq!(std::borrow::Cow::Borrowed(s.as_str()), std::borrow::Cow::Borrowed("foo"));
}

#[test]
fn test_from_buf() {
    let s: SmallString<2> = SmallString::from_buf([206, 177]).unwrap();
    assert_eq!(s.as_str(), "α");

    assert!(SmallString::<2>::from_buf([206, 0]).is_err());
}

#[test]
fn test_insert() {
    let mut s: SmallString<8> = SmallString::from_str("abc");

    s.insert(1, 'x');
    assert_eq!(s.as_str(), "axbc");

    s.insert(3, 'α');
    assert_eq!(s.as_str(), "axbαc");

    s.insert_str(0, "foo");
    assert_eq!(s.as_str(), "fooaxbαc");
}

#[test]
#[should_panic]
fn test_insert_panic() {
    let mut s: SmallString<8> = SmallString::from_str("αβγ");

    s.insert(1, 'x');
}

#[test]
fn test_into_string() {
    let s: SmallString<2> = SmallString::from_str("foo");
    assert_eq!(s.into_string(), "foo");

    let s: SmallString<8> = SmallString::from_str("foo");
    assert_eq!(s.into_string(), "foo");
}

#[test]
fn test_to_string() {
    let s: SmallString<2> = SmallString::from_str("foo");
    assert_eq!(s.as_str().to_string(), "foo");

    let s: SmallString<8> = SmallString::from_str("foo");
    assert_eq!(s.as_str().to_string(), "foo");
}

#[test]
fn test_pop() {
    let mut s: SmallString<8> = SmallString::from_str("αβγ");

    assert_eq!(s.pop(), Some('γ'));
    assert_eq!(s.pop(), Some('β'));
    assert_eq!(s.pop(), Some('α'));
    assert_eq!(s.pop(), None);
}

#[test]
fn test_remove() {
    let mut s: SmallString<8> = SmallString::from_str("αβγ");

    assert_eq!(s.remove(2), 'β');
    assert_eq!(s.as_str(), "αγ");

    assert_eq!(s.remove(0), 'α');
    assert_eq!(s.as_str(), "γ");

    assert_eq!(s.remove(0), 'γ');
    assert_eq!(s.as_str(), "");
}

#[test]
#[should_panic]
fn test_remove_panic_0() {
    let mut s: SmallString<8> = SmallString::from_str("foo");

    // Attempt to remove at the end
    s.remove(3);
}

#[test]
#[should_panic]
fn test_remove_panic_1() {
    let mut s: SmallString<8> = SmallString::from_str("αβγ");

    // Attempt to remove mid-character
    s.remove(1);
}

#[test]
fn test_retain() {
    let mut s: SmallString<8> = SmallString::from_str("α_β_γ");

    s.retain(|_| true);
    assert_eq!(s.as_str(), "α_β_γ");

    s.retain(|c| c != '_');
    assert_eq!(s.as_str(), "αβγ");

    s.retain(|c| c != 'β');
    assert_eq!(s.as_str(), "αγ");

    s.retain(|c| c == 'α');
    assert_eq!(s.as_str(), "α");

    s.retain(|_| false);
    assert_eq!(s.as_str(), "");
}

#[test]
fn test_truncate() {
    let mut s: SmallString<2> = SmallString::from_str("foobar");

    s.truncate(6);
    assert_eq!(s.as_str(), "foobar");

    s.truncate(3);
    assert_eq!(s.as_str(), "foo");
}

#[test]
#[should_panic]
fn test_truncate_panic() {
    let mut s: SmallString<2> = SmallString::from_str("α");

    s.truncate(1);
}

#[test]
fn test_write() {
    let mut s: SmallString<8> = SmallString::from_str("foo");

    s.push_str("bar");

    assert_eq!(s.as_str(), "foobar");
}
