use bimap::bimap;
use bimap::Bimap;
use core::fmt::Debug;
use core::hash::Hash;

/// Checks the representation: both sides hold the same number of pairs,
/// and every stored pair resolves backwards to its own key.
fn check_rep<K, V>(b: &Bimap<K, V>)
where
    K: Copy + Eq + Hash + Debug,
    V: Copy + Eq + Hash + Debug,
{
    assert_eq!(b.values().len(), b.size());
    for (k, v) in b.pairs() {
        assert_eq!(b.get_key(v), Ok(k));
    }
}

/// Interns a freshly formatted string so it can live in a `Copy` bimap.
fn bin(n: u64) -> &'static str {
    Box::leak(format!("{:b}", n).into_boxed_str())
}

#[test]
fn test_creation() {
    let mut b: Bimap<i64, &'static str> = bimap::<i64, &'static str>();
    check_rep(&b);

    b.insert(0, "abc");
    check_rep(&b);

    b.insert(1, "def");
    check_rep(&b);

    assert_eq!(b.get(0), Ok("abc"));
    assert_eq!(b.get(1), Ok("def"));

    assert_eq!(b.get_key("abc"), Ok(0));
    assert_eq!(b.get_key("def"), Ok(1));
}

/* The classic map workout, run over several key/value type combinations.
`insert` reports whether it overwrote an existing key: false on a fresh
key, true on an overwrite. */

#[test]
fn test_simple() {
    // uint -> uint
    let mut hbm_uu: Bimap<u64, u64> = bimap::<u64, u64>();
    assert!(!hbm_uu.insert(10, 12));
    assert!(!hbm_uu.insert(11, 13));
    assert!(!hbm_uu.insert(12, 14));
    assert_eq!(hbm_uu.get(11), Ok(13));
    assert_eq!(hbm_uu.get_key(13), Ok(11));
    assert_eq!(hbm_uu.get(12), Ok(14));
    assert_eq!(hbm_uu.get_key(14), Ok(12));
    assert_eq!(hbm_uu.get(10), Ok(12));
    assert_eq!(hbm_uu.get_key(12), Ok(10));
    assert!(hbm_uu.insert(12, 14));
    assert_eq!(hbm_uu.get(12), Ok(14));
    assert_eq!(hbm_uu.get_key(14), Ok(12));
    assert!(hbm_uu.insert(12, 12));
    assert_eq!(hbm_uu.get(12), Ok(12));
    assert_eq!(hbm_uu.get_key(12), Ok(12));

    let ten: &'static str = "ten";
    let eleven: &'static str = "eleven";
    let twelve: &'static str = "twelve";

    // str -> uint
    let mut hbm_su: Bimap<&'static str, u64> = bimap::<&'static str, u64>();
    assert!(!hbm_su.insert("ten", 12));
    assert!(!hbm_su.insert(eleven, 13));
    assert!(!hbm_su.insert("twelve", 14));
    assert_eq!(hbm_su.get(eleven), Ok(13));
    assert_eq!(hbm_su.get("eleven"), Ok(13));
    assert_eq!(hbm_su.get("twelve"), Ok(14));
    assert_eq!(hbm_su.get("ten"), Ok(12));
    assert!(hbm_su.insert("twelve", 14));
    assert_eq!(hbm_su.get("twelve"), Ok(14));
    assert!(hbm_su.insert("twelve", 12));
    assert_eq!(hbm_su.get("twelve"), Ok(12));

    // uint -> str
    let mut hbm_us: Bimap<u64, &'static str> = bimap::<u64, &'static str>();
    assert!(!hbm_us.insert(10, "twelve"));
    assert!(!hbm_us.insert(11, "thirteen"));
    assert!(!hbm_us.insert(12, "fourteen"));
    assert_eq!(hbm_us.get(11), Ok("thirteen"));
    assert_eq!(hbm_us.get(12), Ok("fourteen"));
    assert_eq!(hbm_us.get(10), Ok("twelve"));
    assert!(hbm_us.insert(12, "fourteen"));
    assert_eq!(hbm_us.get(12), Ok("fourteen"));
    assert!(hbm_us.insert(12, "twelve"));
    assert_eq!(hbm_us.get(12), Ok("twelve"));

    // str -> str
    let mut hbm_ss: Bimap<&'static str, &'static str> = bimap::<&'static str, &'static str>();
    assert!(!hbm_ss.insert(ten, "twelve"));
    assert!(!hbm_ss.insert(eleven, "thirteen"));
    assert!(!hbm_ss.insert(twelve, "fourteen"));
    assert_eq!(hbm_ss.get("eleven"), Ok("thirteen"));
    assert_eq!(hbm_ss.get("twelve"), Ok("fourteen"));
    assert_eq!(hbm_ss.get("ten"), Ok("twelve"));
    assert!(hbm_ss.insert("twelve", "fourteen"));
    assert_eq!(hbm_ss.get("twelve"), Ok("fourteen"));
    assert!(hbm_ss.insert("twelve", "twelve"));
    assert_eq!(hbm_ss.get("twelve"), Ok("twelve"));
}

/// Force index growth.
#[test]
fn test_growth() {
    let num_to_insert: u64 = 64;

    // uint -> uint
    let mut hbm_uu: Bimap<u64, u64> = bimap::<u64, u64>();
    let mut i: u64 = 0;
    while i < num_to_insert {
        assert!(!hbm_uu.insert(i, i * i));
        i += 1;
    }
    i = 0;
    while i < num_to_insert {
        assert_eq!(hbm_uu.get(i), Ok(i * i));
        i += 1;
    }
    assert!(!hbm_uu.insert(num_to_insert, 17));
    assert_eq!(hbm_uu.get(num_to_insert), Ok(17));
    i = 0;
    while i < num_to_insert {
        assert_eq!(hbm_uu.get(i), Ok(i * i));
        i += 1;
    }

    // str -> str
    let mut hbm_ss: Bimap<&'static str, &'static str> = bimap::<&'static str, &'static str>();
    i = 0;
    while i < num_to_insert {
        assert!(!hbm_ss.insert(bin(i), bin(i * i)));
        i += 1;
    }
    i = 0;
    while i < num_to_insert {
        assert_eq!(hbm_ss.get(bin(i)), Ok(bin(i * i)));
        i += 1;
    }
    assert!(!hbm_ss.insert(bin(num_to_insert), bin(17)));
    assert_eq!(hbm_ss.get(bin(num_to_insert)), Ok(bin(17)));
    i = 0;
    while i < num_to_insert {
        assert_eq!(hbm_ss.get(bin(i)), Ok(bin(i * i)));
        i += 1;
    }
}

#[test]
fn test_removal() {
    let num_to_insert: u64 = 64;
    let mut hbm: Bimap<u64, u64> = bimap::<u64, u64>();
    let mut i: u64 = 0;
    while i < num_to_insert {
        assert!(!hbm.insert(i, i * i));
        i += 1;
    }
    assert_eq!(hbm.size() as u64, num_to_insert);
    // removing evens
    i = 0;
    while i < num_to_insert {
        assert_eq!(hbm.remove(i), Some(i * i));
        i += 2;
    }
    assert_eq!(hbm.size() as u64, num_to_insert / 2);
    i = 1;
    while i < num_to_insert {
        assert_eq!(hbm.get(i), Ok(i * i));
        i += 2;
    }
    i = 1;
    while i < num_to_insert {
        assert_eq!(hbm.get(i), Ok(i * i));
        i += 2;
    }
    i = 0;
    while i < num_to_insert {
        assert!(!hbm.insert(i, i * i));
        i += 2;
    }
    assert_eq!(hbm.size() as u64, num_to_insert);
    i = 0;
    while i < num_to_insert {
        assert_eq!(hbm.get(i), Ok(i * i));
        i += 1;
    }
    assert_eq!(hbm.size() as u64, num_to_insert);
    i = 0;
    while i < num_to_insert {
        assert_eq!(hbm.get(i), Ok(i * i));
        i += 1;
    }
}

#[test]
fn test_contains_key() {
    let key = "k";
    let mut m: Bimap<&'static str, &'static str> = bimap::<&'static str, &'static str>();
    assert!(!m.contains_key(key));
    m.insert(key, "val");
    assert!(m.contains_key(key));
}

#[test]
fn test_find() {
    let key = "k";
    let mut m: Bimap<&'static str, &'static str> = bimap::<&'static str, &'static str>();
    assert!(m.find(key).is_none());
    m.insert(key, "val");
    assert_eq!(m.find(key), Some("val"));
}

#[test]
fn test_clear() {
    let key = "k";
    let mut m: Bimap<&'static str, &'static str> = bimap::<&'static str, &'static str>();
    m.insert(key, "val");
    assert_eq!(m.size(), 1);
    assert!(m.contains_key(key));
    m.clear();
    assert_eq!(m.size(), 0);
    assert!(!m.contains_key(key));
}
