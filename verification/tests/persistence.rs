use tarpit::chain::build_chain;
use tarpit::codec::{decode_chain, encode_chain};
use tarpit::startup::{init_chain, StartupError};

const EXAMPLE_CORPUS: &str = "the quick fox\n\njumps high\n";

#[test]
fn snapshot_round_trip() {
    let chain = build_chain(EXAMPLE_CORPUS, 2).expect("model");
    let snap = encode_chain(&chain);
    let back = decode_chain(&snap).expect("a written snapshot reads back");
    assert_eq!(back.depth, 2);
    assert_eq!(encode_chain(&back), snap);
}

#[test]
fn decode_rejects_garbage() {
    assert!(decode_chain("").is_none());
    assert!(decode_chain("not a snapshot").is_none());
    assert!(decode_chain("0\n").is_none());
    // A depth line alone has no entries, so no start context exists.
    assert!(decode_chain("2").is_none());
    // An entry line with too few items.
    assert!(decode_chain("2\n^").is_none());
    // An unknown item marker.
    assert!(decode_chain("2\n^ ^ !bad").is_none());
}

#[test]
fn decode_rejects_tampered_snapshot() {
    let chain = build_chain(EXAMPLE_CORPUS, 2).expect("model");
    let snap = encode_chain(&chain);
    let tampered = snap.replacen('2', "x", 1);
    assert!(decode_chain(&tampered).is_none());
}

#[test]
fn decode_rejects_repeated_context() {
    // The same context on two lines is invalid.
    assert!(decode_chain("1\n^ .a $\n^ .b $").is_none());
}

#[test]
fn load_ignores_corpus_when_snapshot_is_valid() {
    let chain = build_chain(EXAMPLE_CORPUS, 2).expect("model");
    let snap = encode_chain(&chain);
    // No corpus is supplied at all: loading must not need it.
    match init_chain(Some(&snap), true, None, 2) {
        Ok((loaded, to_write)) => {
            assert!(to_write.is_none());
            assert_eq!(encode_chain(&loaded), snap);
        },
        Err(_) => panic!("a valid snapshot must load"),
    }
}

#[test]
fn build_refuses_to_overwrite() {
    // An unreadable snapshot with a file present: fatal, never overwrite.
    match init_chain(Some("garbage"), true, Some(EXAMPLE_CORPUS), 2) {
        Err(e) => assert_eq!(e, StartupError::PersistCollision),
        Ok(_) => panic!("must not rebuild over an existing file"),
    }
    // The file exists but could not even be read.
    match init_chain(None, true, Some(EXAMPLE_CORPUS), 2) {
        Err(e) => assert_eq!(e, StartupError::PersistCollision),
        Ok(_) => panic!("must not rebuild over an existing file"),
    }
}

#[test]
fn build_needs_a_corpus() {
    match init_chain(None, false, None, 2) {
        Err(e) => assert_eq!(e, StartupError::CorpusNeeded),
        Ok(_) => panic!("nothing to build from"),
    }
}

#[test]
fn build_rejects_empty_corpus() {
    match init_chain(None, false, Some("\n  \n\t\n"), 2) {
        Err(e) => assert_eq!(e, StartupError::CorpusEmpty),
        Ok(_) => panic!("an empty corpus has no model"),
    }
}

#[test]
fn fresh_build_returns_snapshot_to_write() {
    match init_chain(None, false, Some(EXAMPLE_CORPUS), 2) {
        Ok((chain, to_write)) => {
            let snap = to_write.expect("a fresh build is persisted");
            assert_eq!(snap, encode_chain(&chain));
            let back = decode_chain(&snap).expect("snapshot reads back");
            assert_eq!(back.depth, 2);
        },
        Err(_) => panic!("a nonempty corpus builds"),
    }
}

#[test]
fn snapshot_exact_text() {
    let chain = build_chain("hi\n", 2).expect("model");
    assert_eq!(encode_chain(&chain), "2\n^ ^ .hi\n^ .hi $");
}

#[test]
fn decode_exact_text() {
    let back = decode_chain("2\n^ ^ .hi\n^ .hi $").expect("valid snapshot");
    assert_eq!(back.depth, 2);
    assert_eq!(encode_chain(&back), "2\n^ ^ .hi\n^ .hi $");
}

#[test]
fn load_then_build_agree() {
    let (built, snap) = match init_chain(None, false, Some(EXAMPLE_CORPUS), 2) {
        Ok((c, Some(s))) => (c, s),
        _ => panic!("fresh build"),
    };
    let (loaded, _) = match init_chain(Some(&snap), true, None, 2) {
        Ok(p) => p,
        Err(_) => panic!("load"),
    };
    assert_eq!(encode_chain(&built), encode_chain(&loaded));
}
