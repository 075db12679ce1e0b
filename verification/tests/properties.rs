use smallstr::Drain;
use smallstr::EditError;
use smallstr::SmallString;

fn drain_forward(d: &mut Drain) -> String {
    let mut out = String::new();
    while let Some(c) = d.next() {
        out.push(c);
    }
    out
}

#[test]
fn push_char_onto_foo() {
    let mut s: SmallString<8> = SmallString::from_str("foo");
    s.push('x');
    assert_eq!(s.as_str(), "foox");
}

#[test]
fn push_integer_onto_foo() {
    let mut s: SmallString<8> = SmallString::from_str("foo");
    s.push_integer(12345);
    assert_eq!(s.as_str(), "foo12345");
}

#[test]
fn push_integer_zero() {
    let mut s: SmallString<8> = SmallString::new();
    s.push_integer(0);
    assert_eq!(s.as_str(), "0");
}

#[test]
fn push_integer_max_u64() {
    let mut s: SmallString<8> = SmallString::new();
    s.push_integer(18446744073709551615);
    assert_eq!(s.as_str(), "18446744073709551615");
}

#[test]
fn push_integer_matches_naive_rendering() {
    let cases: [u64; 10] = [1, 7, 9, 10, 42, 99, 100, 101, 65536, 1000000007];
    let mut i: usize = 0;
    while i < cases.len() {
        let n = cases[i];
        let mut s: SmallString<4> = SmallString::new();
        s.push_integer(n);
        assert_eq!(s.as_str(), format!("{}", n));
        i += 1;
    }
}

#[test]
fn round_trip_below_and_above_inline_capacity() {
    let short: SmallString<16> = SmallString::from_str("hello");
    assert_eq!(short.as_str(), "hello");
    assert!(!short.spilled());

    let long: SmallString<4> = SmallString::from_str("hello world");
    assert_eq!(long.as_str(), "hello world");
    assert!(long.spilled());

    let empty: SmallString<4> = SmallString::from_str("");
    assert_eq!(empty.as_str(), "");
    assert!(empty.is_empty());
}

#[test]
fn boundary_rejection_leaves_string_unchanged() {
    // "αβγ" is three 2-byte characters: boundaries are 0, 2, 4, 6.
    let mut s: SmallString<8> = SmallString::from_str("αβγ");

    assert!(s.is_char_boundary(0));
    assert!(!s.is_char_boundary(1));
    assert!(s.is_char_boundary(2));
    assert!(s.is_char_boundary(6));
    assert!(!s.is_char_boundary(7));

    assert_eq!(s.try_insert(1, 'x'), Err(EditError::NotCharBoundary));
    assert_eq!(s.as_str(), "αβγ");

    assert_eq!(s.try_insert_str(3, "zz"), Err(EditError::NotCharBoundary));
    assert_eq!(s.as_str(), "αβγ");

    assert_eq!(s.try_remove(5), Err(EditError::NotCharBoundary));
    assert_eq!(s.as_str(), "αβγ");

    assert_eq!(s.try_truncate(1), Err(EditError::NotCharBoundary));
    assert_eq!(s.as_str(), "αβγ");

    assert_eq!(s.try_remove(6), Err(EditError::EndOfString));
    assert_eq!(s.as_str(), "αβγ");

    assert_eq!(s.try_truncate(4), Ok(()));
    assert_eq!(s.as_str(), "αβ");

    assert_eq!(s.try_remove(2), Ok('β'));
    assert_eq!(s.as_str(), "α");

    assert_eq!(s.try_insert(2, 'x'), Ok(()));
    assert_eq!(s.as_str(), "αx");

    assert_eq!(s.try_insert_str(0, "y"), Ok(()));
    assert_eq!(s.as_str(), "yαx");
}

#[test]
fn from_buf_reports_offset_of_first_invalid_sequence() {
    match SmallString::<2>::from_buf([206, 0]) {
        Ok(_) => panic!("invalid bytes were accepted"),
        Err(e) => assert_eq!(e.valid_up_to, 0),
    }
    match SmallString::<2>::from_buf([97, 206]) {
        Ok(_) => panic!("invalid bytes were accepted"),
        Err(e) => assert_eq!(e.valid_up_to, 1),
    }
    let ok = SmallString::<2>::from_buf([97, 98]);
    assert!(ok.is_ok());
    assert_eq!(ok.unwrap().as_str(), "ab");
}

#[test]
fn from_buf_unchecked_keeps_bytes() {
    let s: SmallString<2> = SmallString::from_buf_unchecked([206, 177]);
    assert_eq!(s.as_str(), "α");
    assert_eq!(s.len(), 2);
}

#[test]
fn retain_filters_underscores() {
    let mut s: SmallString<16> = SmallString::from_str("f_o_ob_ar");
    s.retain(|c| c != '_');
    assert_eq!(s.as_str(), "foobar");
}

#[test]
fn retain_identity_and_empty_keep_capacity() {
    let mut s: SmallString<4> = SmallString::from_str("αβγ");
    let cap = s.capacity();
    let spilled = s.spilled();

    s.retain(|_| true);
    assert_eq!(s.spilled(), spilled);
    assert_eq!(s.as_str(), "αβγ");
    assert_eq!(s.len(), 6);
    assert_eq!(s.capacity(), cap);

    s.retain(|_| false);
    assert_eq!(s.as_str(), "");
    assert!(s.is_empty());
    assert_eq!(s.capacity(), cap);
    assert_eq!(s.spilled(), spilled);
}

#[test]
fn spill_drain_and_shrink() {
    let mut s: SmallString<2> = SmallString::new();
    s.push('x');
    s.push('y');
    s.push('z');
    assert!(s.spilled());
    assert_eq!(s.len(), 3);

    assert_eq!(drain_forward(&mut s.drain()), "xyz");
    assert!(s.is_empty());
    // The value returns to inline storage only after an explicit shrink.
    assert!(s.spilled());

    s.shrink_to_fit();
    assert!(!s.spilled());
    assert_eq!(s.capacity(), s.inline_size());
    assert_eq!(s.inline_size(), 2);
}

#[test]
fn drain_interleaves_front_and_back() {
    let mut s: SmallString<8> = SmallString::from_str("abcd");
    let mut d = s.drain();
    assert_eq!(d.next(), Some('a'));
    assert_eq!(d.next_back(), Some('d'));
    assert_eq!(d.next(), Some('b'));
    assert_eq!(d.next_back(), Some('c'));
    assert_eq!(d.next(), None);
    assert_eq!(d.next_back(), None);
    assert!(s.is_empty());
}

#[test]
fn drain_dropped_early_still_empties_the_source() {
    let mut s: SmallString<8> = SmallString::from_str("abc");
    {
        let mut d = s.drain();
        assert_eq!(d.next(), Some('a'));
    }
    assert!(s.is_empty());
    assert_eq!(s.as_str(), "");
}

#[test]
fn editors_preserve_utf8_under_mixed_edits() {
    let mut s: SmallString<4> = SmallString::from_str("aαbβ");
    s.insert(1, '€');
    s.push('😀');
    s.push_str("cγ");
    assert_eq!(s.as_str(), "a€αbβ😀cγ");

    let removed = s.remove(4);
    assert_eq!(removed, 'α');
    s.retain(|c| c != 'β');
    assert_eq!(s.as_str(), "a€b😀cγ");
    assert_eq!(s.pop(), Some('γ'));

    // Every intermediate state decodes cleanly as UTF-8.
    assert!(String::from_utf8(s.as_str().as_bytes().to_vec()).is_ok());
    assert_eq!(s.as_str(), "a€b😀c");
}

#[test]
fn four_byte_characters_round_trip() {
    let mut s: SmallString<2> = SmallString::new();
    s.push('😀');
    assert_eq!(s.len(), 4);
    assert_eq!(s.as_str(), "😀");
    assert_eq!(s.pop(), Some('😀'));
    assert!(s.is_empty());
}

#[test]
fn successive_removals_drain_to_empty() {
    let mut s: SmallString<8> = SmallString::from_str("αβγ");
    assert_eq!(s.remove(0), 'α');
    assert_eq!(s.remove(0), 'β');
    assert_eq!(s.remove(0), 'γ');
    assert_eq!(s.as_str(), "");
}

#[test]
fn clear_keeps_capacity() {
    let mut s: SmallString<2> = SmallString::from_str("foobar");
    let cap = s.capacity();
    assert!(cap >= 6);
    assert!(s.spilled());
    s.clear();
    assert!(s.is_empty());
    assert_eq!(s.capacity(), cap);
    assert!(s.spilled());
}

#[test]
fn with_capacity_pre_sizes_the_buffer() {
    let s: SmallString<4> = SmallString::with_capacity(10);
    assert!(s.is_empty());
    assert_eq!(s.capacity(), 10);
    assert!(s.spilled());

    let t: SmallString<4> = SmallString::with_capacity(3);
    assert!(t.is_empty());
    assert!(!t.spilled());
    assert_eq!(t.capacity(), 4);
    assert_eq!(t.inline_size(), 4);
}

#[test]
fn grow_and_reserve_keep_content() {
    let mut s: SmallString<4> = SmallString::from_str("ab");
    assert!(!s.spilled());
    assert_eq!(s.capacity(), 4);

    s.grow(12);
    assert_eq!(s.capacity(), 12);
    assert!(s.spilled());
    assert_eq!(s.as_str(), "ab");

    s.reserve(20);
    assert!(s.capacity() >= 22);
    assert_eq!(s.as_str(), "ab");

    s.reserve_exact(40);
    assert!(s.capacity() >= 42);
    assert_eq!(s.as_str(), "ab");

    s.grow(2);
    assert_eq!(s.capacity(), 4);
    assert!(!s.spilled());
    assert_eq!(s.as_str(), "ab");
}

#[test]
fn shrink_to_fit_tracks_the_length() {
    let mut s: SmallString<2> = SmallString::from_str("foobar");
    assert!(s.spilled());
    s.shrink_to_fit();
    assert_eq!(s.capacity(), 6);
    assert!(s.spilled());
    assert_eq!(s.as_str(), "foobar");

    s.truncate(1);
    assert!(s.spilled());
    s.shrink_to_fit();
    assert_eq!(s.capacity(), 2);
    assert!(!s.spilled());
    assert_eq!(s.as_str(), "f");
}

#[test]
fn into_inner_returns_the_array_exactly_when_it_is_filled_inline() {
    let s: SmallString<3> = SmallString::from_str("foo");
    match s.into_inner() {
        Ok(a) => assert_eq!(a, [102, 111, 111]),
        Err(_) => panic!("a buffer filled exactly to the inline size must come back as an array"),
    }

    let t: SmallString<8> = SmallString::from_str("foo");
    match t.into_inner() {
        Ok(_) => panic!("a partly filled buffer must come back as the string"),
        Err(u) => assert_eq!(u.as_str(), "foo"),
    }

    let long: SmallString<2> = SmallString::from_str("foobar");
    match long.into_inner() {
        Ok(_) => panic!("a spilled buffer must come back as the string"),
        Err(u) => assert_eq!(u.as_str(), "foobar"),
    }
}

#[test]
fn default_is_the_empty_string() {
    let s: SmallString<4> = Default::default();
    assert!(s.is_empty());
    assert_eq!(s.as_str(), "");
    assert_eq!(s.capacity(), 4);
    assert!(!s.spilled());

    let t: SmallString<4> = SmallString::new();
    assert_eq!(t.capacity(), t.inline_size());
    assert!(!t.spilled());
}

#[test]
fn from_string_and_into_string_round_trip() {
    let s: SmallString<4> = SmallString::from_string(String::from("hello world"));
    assert_eq!(s.as_str(), "hello world");
    assert_eq!(s.into_string(), "hello world");
}
