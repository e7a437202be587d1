use leak::Leak;
use std::collections::hash_map::DefaultHasher;
use std::hash::{Hash, Hasher};

#[test]
fn it_works() {
    let path: Leak<str> = Leak::from_string(String::from("/etc"));
    assert_eq!(path.as_str(), "/etc");
    let none = Option::<Leak<str>>::None;
    assert_eq!(none, None);
    assert_ne!(none, Some(path));
}

#[test]
fn structural_equality_of_fresh_leaks() {
    let a = Leak::new(String::from("value"));
    let b = Leak::new(String::from("value"));
    assert_eq!(a, b);
    assert!(!(a != b));
    let c = Leak::new(String::from("other"));
    assert_ne!(a, c);
}

#[test]
fn hash_matches_referent_hash() {
    let l = Leak::new(String::from("content"));
    let mut wrapped = DefaultHasher::new();
    l.hash(&mut wrapped);
    let mut direct = DefaultHasher::new();
    String::from("content").hash(&mut direct);
    assert_eq!(wrapped.finish(), direct.finish());

    let t: Leak<str> = Leak::from_string(String::from("text"));
    let mut wrapped = DefaultHasher::new();
    t.hash(&mut wrapped);
    let mut direct = DefaultHasher::new();
    "text".hash(&mut direct);
    assert_eq!(wrapped.finish(), direct.finish());
}

#[test]
fn ordering_delegates_to_referent() {
    let a = Leak::new(1u32);
    let b = Leak::new(2u32);
    assert!(a < b);
    assert!(b > a);
    assert!(a <= a);
    assert!(a >= a);
    assert_eq!(a.partial_cmp(&b), Some(std::cmp::Ordering::Less));
    assert_eq!(Ord::cmp(&a, &b), std::cmp::Ordering::Less);
    assert_eq!(Ord::cmp(&b, &a), std::cmp::Ordering::Greater);
}

#[test]
fn default_is_empty() {
    let s: Leak<str> = Default::default();
    assert_eq!(s.as_str(), "");
    let b: Leak<[u8]> = Default::default();
    assert_eq!(b.get().len(), 0);
    let v: Leak<[String]> = Default::default();
    assert!(v.get().is_empty());
}

#[test]
fn vec_conversion_reads_back_unchanged() {
    let data: Vec<u8> = vec![1, 2, 3, 4, 5];
    let l: Leak<[u8]> = Leak::from_vec(data.clone());
    assert_eq!(l.get(), data.as_slice());
    assert_eq!(l.get().len(), 5);
}

#[test]
fn box_conversion_keeps_value() {
    let l: Leak<str> = Leak::from_box(String::from("boxed").into_boxed_str());
    assert_eq!(l.as_str(), "boxed");
    let n: Leak<u64> = Leak::from_box(Box::new(7u64));
    assert_eq!(*n.get(), 7);
}

#[test]
fn copies_share_equal_content() {
    let l = Leak::new(vec![1u8, 2]);
    let m = l;
    let k = l.clone();
    assert_eq!(l, m);
    assert_eq!(l, k);
}

#[test]
fn absent_option_behaves_as_none() {
    let none = Option::<Leak<u8>>::None;
    assert_eq!(none, None);
    assert_ne!(none, Some(Leak::new(0u8)));
    assert_eq!(Option::<Leak<str>>::None, Option::<Leak<str>>::None);
}

#[test]
fn nested_handles_compose() {
    let a = Leak::from_string(String::from("x"));
    let b = Leak::from_string(String::from("y"));
    let outer: Leak<[Leak<str>]> = Leak::from_vec(vec![a, b]);
    let again: Leak<[Leak<str>]> = Leak::from_vec(vec![a, b]);
    assert_eq!(outer, again);
    assert_eq!(outer.get()[0].as_str(), "x");
    assert_eq!(outer.get()[1].as_str(), "y");
}

#[test]
fn debug_output_exists() {
    let l = Leak::new(3u8);
    let shown = format!("{:?}", l);
    assert!(shown.contains('3'));
}
