use std::cell::Cell;

use interner::CanonicalSource;
use interner::CanonicalView;
use interner::Interned;
use interner::Interner;

/// A recursive value type: content may hold a handle to other content
/// of the same pool.
enum Foo {
    FooNone,
    FooSome(Interned),
}

impl CanonicalSource for Foo {
    fn canonical_bytes(&self) -> Vec<u8> {
        match self {
            Foo::FooNone => vec![0],
            Foo::FooSome(h) => {
                let mut b = vec![1];
                b.extend_from_slice(h.key_bytes());
                b
            }
        }
    }
}

/// A value whose tag is not part of its canonical encoding, so tests
/// can tell which construction produced the stored copy.
struct Tagged {
    content: Vec<u8>,
    tag: u32,
}

impl CanonicalSource for Tagged {
    fn canonical_bytes(&self) -> Vec<u8> {
        self.content.clone()
    }
}

/// A borrowed view of `Tagged` content that counts how often an owned
/// value is materialized.
#[derive(Clone, Copy)]
struct TaggedView<'a> {
    content: &'a [u8],
    tag: u32,
    builds: &'a Cell<u32>,
}

impl<'a> CanonicalView<Tagged> for TaggedView<'a> {
    fn view_bytes(self) -> Vec<u8> {
        self.content.to_vec()
    }

    fn to_owned_value(self) -> Tagged {
        self.builds.set(self.builds.get() + 1);
        Tagged {
            content: self.content.to_vec(),
            tag: self.tag,
        }
    }
}

#[test]
fn recursive() {
    let mut interner = Interner::new();
    let interned = interner.intern(Foo::FooNone);
    let _ = interner.intern(Foo::FooSome(interned));
}

#[test]
fn intern_strings() {
    let mut interner = Interner::new();
    let s0 = String::from("hello");
    let s0 = interner.intern(s0);
    let s1 = interner.intern_borrowed("hello");
    assert_eq!(*interner.get(&s0), "hello");
    assert_eq!(*interner.get(&s0), *interner.get(&s1));
}

#[test]
fn content_key_is_sha1_of_encoding() {
    let mut pool = Interner::new();
    let h = pool.intern(String::from("hello"));
    let expected: Vec<u8> = vec![
        0xaa, 0xf4, 0xc6, 0x1d, 0xdc, 0xc5, 0xe8, 0xa2, 0xda, 0xbe, 0xde, 0x0f, 0x3b, 0x48, 0x2c,
        0xd9, 0xae, 0xa9, 0x43, 0x4d,
    ];
    assert_eq!(h.key_bytes(), &expected);
}

#[test]
fn key_textual_form() {
    let mut pool = Interner::new();
    let h = pool.intern(String::from("hello"));
    assert_eq!(h.key_hex(), b"aaf4c61ddcc5e8a2dabede0f3b482cd9aea9434d".to_vec());
}

#[test]
fn empty_content() {
    let mut pool = Interner::new();
    let h = pool.intern(String::new());
    assert_eq!(*pool.get(&h), "");
    let expected: Vec<u8> = vec![
        0xda, 0x39, 0xa3, 0xee, 0x5e, 0x6b, 0x4b, 0x0d, 0x32, 0x55, 0xbf, 0xef, 0x95, 0x60, 0x18,
        0x90, 0xaf, 0xd8, 0x07, 0x09,
    ];
    assert_eq!(h.key_bytes(), &expected);
}

#[test]
fn equal_content_shares_one_slot() {
    let mut pool = Interner::new();
    let a = pool.intern(vec![1u8, 2, 3]);
    let b = pool.intern(vec![1u8, 2, 3]);
    assert!(a == b);
    assert_eq!(pool.len(), 1);
    assert_eq!(*pool.get(&a), vec![1u8, 2, 3]);
    assert_eq!(*pool.get(&b), vec![1u8, 2, 3]);
}

#[test]
fn distinct_content_distinct_slots() {
    let mut pool = Interner::new();
    let a = pool.intern(vec![1u8]);
    let b = pool.intern(vec![2u8]);
    assert!(a != b);
    assert_eq!(pool.len(), 2);
    assert_eq!(*pool.get(&a), vec![1u8]);
    assert_eq!(*pool.get(&b), vec![2u8]);
}

#[test]
fn identity_keeps_first_stored_object() {
    let mut pool = Interner::new();
    let a = pool.intern(Tagged {
        content: vec![7u8, 8],
        tag: 1,
    });
    let b = pool.intern(Tagged {
        content: vec![7u8, 8],
        tag: 2,
    });
    assert!(a == b);
    assert_eq!(pool.len(), 1);
    assert_eq!(pool.get(&a).tag, 1);
    assert_eq!(pool.get(&b).tag, 1);
}

#[test]
fn hit_avoids_rebuild() {
    let mut pool = Interner::new();
    let builds = Cell::new(0u32);
    let content: &[u8] = b"shared";
    let mut handles = Vec::new();
    for _ in 0..10 {
        let view = TaggedView {
            content,
            tag: 9,
            builds: &builds,
        };
        handles.push(pool.intern_borrowed(view));
    }
    assert_eq!(builds.get(), 1);
    assert_eq!(pool.len(), 1);
}

#[test]
fn borrowed_hit_builds_nothing() {
    let mut pool = Interner::new();
    let seeded = pool.intern(Tagged {
        content: vec![5u8, 5],
        tag: 1,
    });
    let builds = Cell::new(0u32);
    let content: &[u8] = &[5u8, 5];
    let h = pool.intern_borrowed(TaggedView {
        content,
        tag: 2,
        builds: &builds,
    });
    assert_eq!(builds.get(), 0);
    assert_eq!(pool.get(&h).tag, 1);
    assert!(seeded == h);
}

#[test]
fn refcount_eviction_exactly_at_zero() {
    let mut pool = Interner::new();
    let builds = Cell::new(0u32);
    let content: &[u8] = b"counted";
    let h1 = pool.intern_borrowed(TaggedView {
        content,
        tag: 1,
        builds: &builds,
    });
    let h2 = pool.clone_handle(&h1);
    let h3 = pool.clone_handle(&h1);
    assert_eq!(builds.get(), 1);
    let key = h1.key_bytes().clone();
    pool.release(h3);
    pool.release(h2);
    assert!(pool.contains(&key));
    assert_eq!(pool.get(&h1).tag, 1);
    pool.release(h1);
    assert!(!pool.contains(&key));
    let h4 = pool.intern_borrowed(TaggedView {
        content,
        tag: 2,
        builds: &builds,
    });
    assert_eq!(builds.get(), 2);
    assert_eq!(pool.get(&h4).tag, 2);
}

#[test]
fn hello_scenario() {
    let mut pool = Interner::new();
    let h0 = pool.intern("hello".to_owned());
    let h1 = pool.intern_borrowed("hello");
    assert_eq!(*pool.get(&h0), "hello");
    assert_eq!(*pool.get(&h1), "hello");
    assert!(h0 == h1);
    let key = h0.key_bytes().clone();
    pool.release(h0);
    pool.release(h1);
    assert!(!pool.contains(&key));
    assert_eq!(pool.len(), 0);
    let h2 = pool.intern("hello".to_owned());
    assert!(pool.contains(&key));
    assert_eq!(pool.len(), 1);
    assert_eq!(*pool.get(&h2), "hello");
}
