use tarpit::assemble::{random_word, ContentBundle};
use tarpit::chain::{build_chain, markov_generate, Chain};
use tarpit::codec::{decode_chain, encode_chain};
use tarpit::service::{respond, AppState, ApplicationConfig};
use tarpit::stream::Stream;

const EXAMPLE_CORPUS: &str = "the quick fox\n\njumps high\n";

fn example_state(corpus: &str, depth: usize, salt: &str) -> AppState {
    let chain: Chain = build_chain(corpus, depth).expect("corpus yields a model");
    let config = ApplicationConfig::new(String::from(salt), 0, 0).expect("valid config");
    AppState::new(chain, config)
}

fn bundles_equal(a: &ContentBundle, b: &ContentBundle) -> bool {
    a.title == b.title && a.paragraphs == b.paragraphs && a.author == b.author
        && a.links == b.links
}

#[test]
fn same_path_yields_identical_bundles() {
    let state = example_state(EXAMPLE_CORPUS, 2, "");
    let first = respond(&state, "/hello");
    let second = respond(&state, "/hello");
    assert!(bundles_equal(&first, &second));
}

#[test]
fn fresh_state_yields_identical_bundles() {
    let first = respond(&example_state(EXAMPLE_CORPUS, 2, ""), "/hello");
    let second = respond(&example_state(EXAMPLE_CORPUS, 2, ""), "/hello");
    assert!(bundles_equal(&first, &second));
}

#[test]
fn example_scenario_titles() {
    let state = example_state(EXAMPLE_CORPUS, 2, "");
    let hello = respond(&state, "/hello");
    let world = respond(&state, "/world");
    assert_eq!(hello.title, "jumps high");
    assert_eq!(world.title, "the quick fox");
    assert_ne!(hello.title, world.title);
}

#[test]
fn distinct_paths_distinct_titles() {
    let corpus = "alpha beta gamma\ndelta epsilon zeta\neta theta iota\nkappa lam mu\n";
    let state = example_state(corpus, 2, "");
    let a = respond(&state, "/a");
    let b = respond(&state, "/b");
    assert_ne!(a.title, b.title);
}

#[test]
fn salt_changes_content() {
    let plain = respond(&example_state(EXAMPLE_CORPUS, 2, ""), "/hello");
    let salted = respond(&example_state(EXAMPLE_CORPUS, 2, "pepper"), "/hello");
    assert!(plain.title != salted.title || plain.paragraphs != salted.paragraphs);
}

#[test]
fn title_word_count_bounds() {
    let state = example_state(EXAMPLE_CORPUS, 2, "");
    for path in ["/", "/a", "/b", "/hello", "/world", "/deep/nested/path"] {
        let bundle = respond(&state, path);
        let words = bundle.title.split(' ').count();
        assert!(2 <= words && words <= 5);
    }
}

#[test]
fn body_reaches_minimum_length() {
    let state = example_state(EXAMPLE_CORPUS, 2, "");
    let bundle = respond(&state, "/hello");
    let joined = bundle.paragraphs.join(" ");
    assert!(joined.chars().count() >= 1000);
}

#[test]
fn link_bounds() {
    let state = example_state(EXAMPLE_CORPUS, 2, "");
    for path in ["/", "/x", "/y", "/hello"] {
        let bundle = respond(&state, path);
        assert!(2 <= bundle.links.len() && bundle.links.len() <= 10);
        for link in &bundle.links {
            let n = link.chars().count();
            assert!(4 <= n && n <= 12);
            assert!(link.chars().all(|c| c.is_ascii_lowercase()));
        }
    }
}

#[test]
fn author_two_words_from_model() {
    let state = example_state(EXAMPLE_CORPUS, 2, "");
    let bundle = respond(&state, "/hello");
    assert_eq!(bundle.author.split(' ').count(), 2);
}

#[test]
fn author_falls_back_on_short_walk() {
    // Every walk of this corpus yields exactly one word, so the
    // author segment always has fewer than two.
    let state = example_state("hi\n", 2, "");
    let bundle = respond(&state, "/anything");
    assert_eq!(bundle.author, "Unknown author");
}

#[test]
fn single_token_corpus_exact_bundle() {
    let state = example_state("hi\n", 2, "");
    let bundle = respond(&state, "/x");
    assert_eq!(bundle.title, "hi hi");
    assert_eq!(bundle.paragraphs.len(), 334);
    let joined = bundle.paragraphs.join(" ");
    assert_eq!(joined.chars().count(), 1001);
}

#[test]
fn markov_generate_exact_walk() {
    let chain = build_chain("hi\n", 2).expect("model");
    let mut rng = Stream::from_seed("/x");
    assert_eq!(markov_generate(&chain, &mut rng), "hi");
}

#[test]
fn random_word_expected_value() {
    let mut rng = Stream::from_seed("wordseed");
    assert_eq!(random_word(&mut rng, 4, 12), "ruyzlmgrt");
}

#[test]
fn random_word_bounds_and_determinism() {
    let mut a = Stream::from_seed("s");
    let mut b = Stream::from_seed("s");
    for _ in 0..50 {
        let wa = random_word(&mut a, 4, 12);
        let wb = random_word(&mut b, 4, 12);
        assert_eq!(wa, wb);
        let n = wa.chars().count();
        assert!(4 <= n && n <= 12);
        assert!(wa.chars().all(|c| c.is_ascii_lowercase()));
    }
}

#[test]
fn loaded_model_generates_the_same_pages() {
    let built = build_chain(EXAMPLE_CORPUS, 2).expect("model");
    let snap = encode_chain(&built);
    let loaded = decode_chain(&snap).expect("snapshot reads back");
    let config = ApplicationConfig::new(String::new(), 0, 0).expect("valid config");
    let a = respond(
        &AppState::new(built, config),
        "/same",
    );
    let config2 = ApplicationConfig::new(String::new(), 0, 0).expect("valid config");
    let b = respond(&AppState::new(loaded, config2), "/same");
    assert!(bundles_equal(&a, &b));
}

#[test]
fn non_ascii_path_is_served() {
    let state = example_state(EXAMPLE_CORPUS, 2, "");
    let bundle = respond(&state, "/héllo/✓/päge");
    let words = bundle.title.split(' ').count();
    assert!(2 <= words && words <= 5);
    assert!(bundle.paragraphs.join(" ").chars().count() >= 1000);
    assert!(2 <= bundle.links.len() && bundle.links.len() <= 10);
}

#[test]
fn deeper_model_still_bounded() {
    let corpus = "one two three four five six\nseven eight nine ten\n";
    let state = example_state(corpus, 3, "");
    let bundle = respond(&state, "/p");
    let words = bundle.title.split(' ').count();
    assert!(2 <= words && words <= 5);
    assert!(bundle.paragraphs.join(" ").chars().count() >= 1000);
}
