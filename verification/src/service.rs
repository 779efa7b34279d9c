//! The per-request service layer: configuration, the shared state, the
//! page for one path, the response throttle and the request observer.

use vstd::prelude::*;
use vstd::string::*;

use crate::assemble::{
    assemble, phrase_cut, spec_assemble, ContentBundle, BODY_MIN_CHARS, LINK_MAX_COUNT,
    LINK_MAX_LEN, LINK_MIN_COUNT, LINK_MIN_LEN, TITLE_MAX_WORDS, TITLE_MIN_WORDS,
};
use crate::chain::{Chain, ChainModel};
use crate::stream::{is_lower, range_out, seed_state, step_state, Stream};
use crate::text::join_words;

verus! {

/// Why a configuration is rejected at startup.
#[derive(Debug, PartialEq, Eq)]
pub enum ConfigError {
    /// The least delay exceeds the greatest delay.
    InvalidDelayRange,
}

/// The configuration the generation core reads: the seed salt and the
/// response delay range, in milliseconds.
pub struct ApplicationConfig {
    /// The process-wide salt prepended to every request path.
    pub rng_seed: String,
    /// Least response delay.
    pub response_delay_min: u64,
    /// Greatest response delay; zero disables throttling.
    pub response_delay_max: u64,
}

impl ApplicationConfig {
    /// The startup invariant: the delay range is not inverted.
    pub open spec fn wf(self) -> bool {
        self.response_delay_min <= self.response_delay_max
    }

    /// Validates a configuration once at startup; an inverted delay
    /// range is a fatal configuration error.
    pub fn new(rng_seed: String, response_delay_min: u64, response_delay_max: u64) -> (r: Result<
        ApplicationConfig,
        ConfigError,
    >)
        ensures
            response_delay_min <= response_delay_max ==> r == Ok::<
                ApplicationConfig,
                ConfigError,
            >(ApplicationConfig { rng_seed, response_delay_min, response_delay_max }),
            response_delay_min > response_delay_max ==> r == Err::<
                ApplicationConfig,
                ConfigError,
            >(ConfigError::InvalidDelayRange),
            r is Ok ==> r->Ok_0.wf(),
    {
        if response_delay_min <= response_delay_max {
            Ok(ApplicationConfig { rng_seed, response_delay_min, response_delay_max })
        } else {
            Err(ConfigError::InvalidDelayRange)
        }
    }
}

/// Everything a request task needs: the model, built once before
/// serving starts and read-only afterwards, and the configuration.
pub struct AppState {
    /// The text model, shared read-only by all requests.
    pub chain: Chain,
    /// The validated configuration.
    pub config: ApplicationConfig,
}

impl AppState {
    /// The serving invariant: a well-formed productive model and a
    /// validated configuration.
    pub open spec fn wf(self) -> bool {
        self.chain.wf() && self.chain.productive() && self.config.wf()
    }

    /// Bundles the state once startup has validated its parts.
    pub fn new(chain: Chain, config: ApplicationConfig) -> (r: AppState)
        requires
            chain.wf(),
            chain.productive(),
            config.wf(),
        ensures
            r == (AppState { chain, config }),
            r.wf(),
    {
        AppState { chain, config }
    }
}

/// The shared model of the state.
pub fn get_chain(state: &AppState) -> (c: &Chain)
    ensures
        *c == state.chain,
{
    &state.chain
}

/// The configuration of the state.
pub fn get_config(state: &AppState) -> (c: &ApplicationConfig)
    ensures
        *c == state.config,
{
    &state.config
}

/// The stream state that a salt and a path determine: the seed
/// material is their concatenation.
pub open spec fn seed_of(salt: Seq<char>, path: Seq<char>) -> u64 {
    seed_state(salt + path)
}

/// The page for one request path: a stream is seeded from the salt
/// and the path, and the whole bundle is drawn from it.  The result
/// is a pure function of the model, the salt and the path; its title,
/// body and links obey the length bounds.
pub fn respond(state: &AppState, path: &str) -> (b: ContentBundle)
    requires
        state.wf(),
    ensures
        b@ == spec_assemble(
            state.chain.model(),
            state.chain.depth as nat,
            seed_of(state.config.rng_seed@, path@),
        ).0,
        join_words(b@.paragraphs).len() >= BODY_MIN_CHARS,
        TITLE_MIN_WORDS <= phrase_cut(
            state.chain.model(),
            state.chain.depth as nat,
            seed_of(state.config.rng_seed@, path@),
            TITLE_MIN_WORDS as nat,
            TITLE_MAX_WORDS as nat,
        ).len() <= TITLE_MAX_WORDS,
        b@.title == join_words(
            phrase_cut(
                state.chain.model(),
                state.chain.depth as nat,
                seed_of(state.config.rng_seed@, path@),
                TITLE_MIN_WORDS as nat,
                TITLE_MAX_WORDS as nat,
            ),
        ),
        LINK_MIN_COUNT <= b@.links.len() <= LINK_MAX_COUNT,
        forall|x: int|
            0 <= x < b@.links.len() ==> LINK_MIN_LEN <= #[trigger] b@.links[x].len()
                <= LINK_MAX_LEN,
        forall|x: int, y: int|
            0 <= x < b@.links.len() && 0 <= y < b@.links[x].len() ==> is_lower(
                #[trigger] b@.links[x][y],
            ),
{
    let mut seed: String = state.config.rng_seed.clone();
    seed.append(path);
    let mut rng: Stream = Stream::from_seed(seed.as_str());
    assemble(&state.chain, &mut rng)
}

/// Determinism of the page: what `respond` returns is pinned by the
/// model, the salt and the path alone, so two invocations with equal
/// salt and path — in the same process or in a fresh one — yield
/// byte-identical bundles.
pub proof fn lemma_page_deterministic(
    m: ChainModel,
    depth: nat,
    salt1: Seq<char>,
    path1: Seq<char>,
    salt2: Seq<char>,
    path2: Seq<char>,
)
    requires
        salt1 == salt2,
        path1 == path2,
    ensures
        spec_assemble(m, depth, seed_of(salt1, path1)) == spec_assemble(
            m,
            depth,
            seed_of(salt2, path2),
        ),
{
}

/// The delay that one draw yields: nothing when throttling is off.
pub open spec fn spec_delay(cfg: ApplicationConfig, s: u64) -> Option<u64> {
    if cfg.response_delay_max == 0 {
        None
    } else {
        Some(range_out(s, cfg.response_delay_min, cfg.response_delay_max))
    }
}

/// Samples the response delay: nothing when `response_delay_max` is
/// zero, else one draw from `[min, max]` inclusive.
pub fn delay_duration(cfg: &ApplicationConfig, rng: &mut Stream) -> (d: Option<u64>)
    requires
        cfg.wf(),
    ensures
        d == spec_delay(*cfg, old(rng)@),
        (cfg.response_delay_max == 0) <==> (d is None),
        d is Some ==> cfg.response_delay_min <= d->Some_0 <= cfg.response_delay_max,
        final(rng)@ == if cfg.response_delay_max == 0 {
            old(rng)@
        } else {
            step_state(old(rng)@)
        },
{
    if cfg.response_delay_max == 0 {
        None
    } else if cfg.response_delay_min == 0 && cfg.response_delay_max == u64::MAX {
        let d: u64 = rng.next_u64();
        proof {
            let x = crate::stream::stream_out(old(rng)@) as int;
            assert(0 <= x < 0x1_0000_0000_0000_0000);
            assert(x % 0x1_0000_0000_0000_0000 == x) by (nonlinear_arith)
                requires
                    0 <= x < 0x1_0000_0000_0000_0000,
            ;
            assert(d == range_out(old(rng)@, 0, u64::MAX));
        }
        Some(d)
    } else {
        Some(rng.next_uint_range(cfg.response_delay_min, cfg.response_delay_max))
    }
}

/// The labels of one request observation.  A missing label is an
/// empty string; observation never fails a request.
pub struct RequestLabels {
    /// The client address.
    pub ip: String,
    /// The user agent header.
    pub user_agent: String,
    /// The request path.
    pub path: String,
    /// The host header.
    pub host: String,
}

/// Resolves the four counter labels of one request, substituting the
/// empty string for whatever is absent.
pub fn request_labels(
    ip: Option<String>,
    user_agent: Option<String>,
    path: Option<String>,
    host: Option<String>,
) -> (r: RequestLabels)
    ensures
        r.ip@ == match ip {
            Some(s) => s@,
            None => Seq::<char>::empty(),
        },
        r.user_agent@ == match user_agent {
            Some(s) => s@,
            None => Seq::<char>::empty(),
        },
        r.path@ == match path {
            Some(s) => s@,
            None => Seq::<char>::empty(),
        },
        r.host@ == match host {
            Some(s) => s@,
            None => Seq::<char>::empty(),
        },
{
    RequestLabels {
        ip: match ip {
            Some(s) => s,
            None => String::new(),
        },
        user_agent: match user_agent {
            Some(s) => s,
            None => String::new(),
        },
        path: match path {
            Some(s) => s,
            None => String::new(),
        },
        host: match host {
            Some(s) => s,
            None => String::new(),
        },
    }
}

} // verus!
