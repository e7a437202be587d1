use leak::Leak;

fn leaked(s: &str) -> Leak<str> {
    Leak::from_string(String::from(s))
}

fn strs(v: Vec<Leak<str>>) -> Vec<&'static str> {
    v.into_iter().map(|f| f.as_str()).collect()
}

#[test]
fn split_slash_scenario() {
    let l = leaked("/a/b");
    let got = strs(l.split("/"));
    assert_eq!(got, vec!["", "a", "b"]);
    let plain: Vec<&str> = "/a/b".split("/").collect();
    assert_eq!(got, plain);
    for (mine, direct) in l.split("/").into_iter().zip("/a/b".split("/")) {
        assert_eq!(mine.as_str(), direct);
        assert_eq!(mine, leaked(direct));
    }
}

#[test]
fn split_agrees_with_plain_text() {
    let cases = ["", "a", "/a/b", "a/b/", "//", "aaa", "abab", "ab"];
    let pats = ["/", "a", "aa", "ab", ""];
    for s in cases {
        for p in pats {
            let l = leaked(s);
            let want: Vec<&str> = s.split(p).collect();
            assert_eq!(strs(l.split(p)), want);
        }
    }
}

#[test]
fn rsplit_agrees_with_plain_text() {
    let cases = ["", "a", "/a/b", "a/b/", "//", "aaa", "abab", "ab"];
    let pats = ["/", "a", "aa", "ab", ""];
    for s in cases {
        for p in pats {
            let l = leaked(s);
            let want: Vec<&str> = s.rsplit(p).collect();
            assert_eq!(strs(l.rsplit(p)), want);
        }
    }
}

#[test]
fn splitn_agrees_with_plain_text() {
    let cases = ["", "a/b/c/d", "aaa", "ab"];
    let pats = ["/", "a", ""];
    for s in cases {
        for p in pats {
            for n in 0..5usize {
                let l = leaked(s);
                let want: Vec<&str> = s.splitn(n, p).collect();
                assert_eq!(strs(l.splitn(n, p)), want);
            }
        }
    }
}

#[test]
fn rsplitn_agrees_with_plain_text() {
    let cases = ["", "a/b/c/d", "aaa", "ab"];
    let pats = ["/", "a", ""];
    for s in cases {
        for p in pats {
            for n in 0..5usize {
                let l = leaked(s);
                let want: Vec<&str> = s.rsplitn(n, p).collect();
                assert_eq!(strs(l.rsplitn(n, p)), want);
            }
        }
    }
}

#[test]
fn split_inclusive_agrees_with_plain_text() {
    let cases = ["", "a/b/", "a/b", "//", "abab"];
    let pats = ["/", "ab", "b"];
    for s in cases {
        for p in pats {
            let l = leaked(s);
            let want: Vec<&str> = s.split_inclusive(p).collect();
            assert_eq!(strs(l.split_inclusive(p)), want);
        }
    }
}

#[test]
fn split_terminator_agrees_with_plain_text() {
    let cases = ["", "a/b/", "a/b", "//", "A.B."];
    let pats = ["/", ".", ""];
    for s in cases {
        for p in pats {
            let l = leaked(s);
            let want: Vec<&str> = s.split_terminator(p).collect();
            assert_eq!(strs(l.split_terminator(p)), want);
        }
    }
}

#[test]
fn whitespace_split_agrees_with_plain_text() {
    let cases = ["", "  ", " a\tb\u{a0}c ", "one two\nthree", "\u{2003}wide\u{2003}gap\u{2003}"];
    for s in cases {
        let l = leaked(s);
        let want: Vec<&str> = s.split_whitespace().collect();
        assert_eq!(strs(l.split_whitespace()), want);
        let want_ascii: Vec<&str> = s.split_ascii_whitespace().collect();
        assert_eq!(strs(l.split_ascii_whitespace()), want_ascii);
    }
}

#[test]
fn whitespace_split_distinguishes_ascii() {
    let l = leaked(" a\tb\u{a0}c ");
    assert_eq!(strs(l.split_whitespace()), vec!["a", "b", "c"]);
    assert_eq!(strs(l.split_ascii_whitespace()), vec!["a", "b\u{a0}c"]);
}

#[test]
fn split_once_pairs() {
    let l = leaked("key=value=more");
    let (k, v) = l.split_once("=").unwrap();
    assert_eq!(k.as_str(), "key");
    assert_eq!(v.as_str(), "value=more");
    let (rk, rv) = l.rsplit_once("=").unwrap();
    assert_eq!(rk.as_str(), "key=value");
    assert_eq!(rv.as_str(), "more");
    assert!(l.split_once("#").is_none());
    assert!(l.rsplit_once("#").is_none());
    assert_eq!("key=value=more".split_once('='), Some(("key", "value=more")));
    assert_eq!("key=value=more".rsplit_once('='), Some(("key=value", "more")));
}

#[test]
fn split_at_scenario() {
    let l = leaked("h\u{e9}llo");
    let (a, b) = l.split_at(3);
    assert_eq!(a.as_str(), "h\u{e9}");
    assert_eq!(b.as_str(), "llo");
    assert!(l.split_at_checked(2).is_none());
}

#[test]
fn split_at_checked_scenario() {
    let l = leaked("hello");
    match l.split_at_checked(3) {
        Some((a, b)) => {
            assert_eq!(a.as_str(), "hel");
            assert_eq!(b.as_str(), "lo");
        },
        None => panic!("byte position 3 lies on a boundary of hello"),
    }
    assert!(l.split_at_checked(10).is_none());
    assert!(l.split_at_checked(5).is_some());
    assert!(l.split_at_checked(0).is_some());
}

#[test]
fn as_str_returns_original_bytes() {
    let l = leaked("unchanged text \u{3000} with wide space");
    assert_eq!(l.as_str(), "unchanged text \u{3000} with wide space");
    assert_eq!(l.as_str().as_bytes(), "unchanged text \u{3000} with wide space".as_bytes());
}
