//! Exhaustive search of the index space for a candidate whose selector is
//! the target. Workers take the space in chunks; the first hit stops them.
use vstd::prelude::*;
use rayon::iter::{IntoParallelIterator, ParallelIterator};
use crate::config::{Config, build_signature};
use crate::selector::{keccak_selector, hash_signature, selector_eq};

verus! {

/// How many consecutive indices a worker takes at a time. A stop is observed
/// between chunks, so a hit stops the other workers within one chunk each.
pub const CHUNK_LEN: usize = 4096;

/// Whether the candidate for `index` has `target` as its selector.
pub open spec fn is_hit(config: Config, target: Seq<u8>, index: nat) -> bool {
    keccak_selector(config.candidate(index)) == target
}

/// The lowest hit in `[lo, hi)`, if any.
pub open spec fn first_hit(config: Config, target: Seq<u8>, lo: nat, hi: nat) -> Option<nat>
    decreases hi - lo,
{
    if lo >= hi {
        None
    } else if is_hit(config, target, lo) {
        Some(lo)
    } else {
        first_hit(config, target, lo + 1, hi)
    }
}

/// The number of chunks that cover `[0, max_index)`.
pub open spec fn chunk_count(max_index: nat) -> nat {
    (max_index + CHUNK_LEN - 1) as nat / (CHUNK_LEN as nat)
}

/// The lowest hit in chunk `c`, which is `[c * CHUNK_LEN, (c + 1) * CHUNK_LEN)`
/// cut at the end of the index space.
pub open spec fn chunk_hit(config: Config, target: Seq<u8>, c: nat) -> Option<nat> {
    first_hit(config, target, chunk_start(c), chunk_end(config.max_index as nat, c))
}

pub open spec fn chunk_start(c: nat) -> nat {
    (c * CHUNK_LEN) as nat
}

pub open spec fn chunk_end(max_index: nat, c: nat) -> nat {
    if chunk_start(c) + CHUNK_LEN <= max_index {
        (chunk_start(c) + CHUNK_LEN) as nat
    } else {
        max_index
    }
}

/// What `first_hit` finds is a hit in range; when it finds none there is none.
pub proof fn lemma_first_hit(config: Config, target: Seq<u8>, lo: nat, hi: nat)
    ensures
        first_hit(config, target, lo, hi) matches Some(k) ==> lo <= k < hi && is_hit(config, target, k),
        first_hit(config, target, lo, hi) is None ==> forall|j: nat|
            lo <= j < hi ==> !#[trigger] is_hit(config, target, j),
    decreases hi - lo,
{
    if lo < hi && !is_hit(config, target, lo) {
        lemma_first_hit(config, target, lo + 1, hi);
    }
}

/// What a search may return: a hit, or `None` exactly when there is no hit.
pub open spec fn is_search_outcome(config: Config, target: Seq<u8>, r: Option<usize>) -> bool {
    &&& r matches Some(k) ==> k < config.max_index && is_hit(config, target, k as nat)
    &&& r is None <==> forall|k: nat| k < config.max_index ==> !#[trigger] is_hit(config, target, k)
}

/// Two searches on the same configuration and target agree on whether a hit
/// was found, though not on which one; a found index is a hit either way.
pub proof fn lemma_outcome_class(config: Config, target: Seq<u8>, r1: Option<usize>, r2: Option<usize>)
    requires
        is_search_outcome(config, target, r1),
        is_search_outcome(config, target, r2),
    ensures
        r1 is None <==> r2 is None,
        (exists|k: nat| k < config.max_index && is_hit(config, target, k)) <==> r1 is Some,
{
    if r1 is None {
        assert forall|k: nat| k < config.max_index implies !is_hit(config, target, k) by {
            assert(!is_hit(config, target, k));
        }
    }
}

/// Whether the candidate for `index` has `target` as its selector.
pub fn index_matches(config: &Config, target: &[u8; 4], index: usize) -> (r: bool)
    requires
        config.wf(),
        index < config.max_index,
    ensures
        r == is_hit(*config, target@, index as nat),
{
    let digest = hash_signature(&build_signature(config, index));
    selector_eq(&digest, target)
}

/// The lowest index in `[lo, hi)` whose candidate has `target` as its selector.
pub fn scan_range(config: &Config, target: &[u8; 4], lo: usize, hi: usize) -> (r: Option<usize>)
    requires
        config.wf(),
        lo <= hi <= config.max_index,
    ensures
        match r {
            Some(k) => first_hit(*config, target@, lo as nat, hi as nat) == Some(k as nat),
            None => first_hit(*config, target@, lo as nat, hi as nat) is None,
        },
{
    let mut j = lo;
    while j < hi
        invariant
            config.wf(),
            lo <= j <= hi <= config.max_index,
            first_hit(*config, target@, lo as nat, hi as nat) == first_hit(*config, target@, j as nat, hi as nat),
        decreases hi - j,
    {
        if index_matches(config, target, j) {
            return Some(j);
        }
        j = j + 1;
    }
    None
}

/// The lowest hit in chunk `c`.
pub fn scan_chunk(config: &Config, target: &[u8; 4], c: usize) -> (r: Option<usize>)
    requires
        config.wf(),
        c < chunk_count(config.max_index as nat),
    ensures
        match r {
            Some(k) => chunk_hit(*config, target@, c as nat) == Some(k as nat),
            None => chunk_hit(*config, target@, c as nat) is None,
        },
{
    assert(c * CHUNK_LEN < config.max_index) by (nonlinear_arith)
        requires
            c < (config.max_index + CHUNK_LEN - 1) as nat / (CHUNK_LEN as nat),
            CHUNK_LEN == 4096,
    ;
    let lo = c * CHUNK_LEN;
    let hi = if config.max_index - lo >= CHUNK_LEN { lo + CHUNK_LEN } else { config.max_index };
    scan_range(config, target, lo, hi)
}

/// Relies on rayon's ParallelIterator::find_map_any over `0..n`: it returns
/// some non-`None` result of the map, and `None` only when every item maps to
/// `None`.
#[verifier::external_body]
fn par_find_chunk(config: &Config, target: &[u8; 4], n: usize) -> (r: Option<usize>)
    requires
        config.wf(),
        n as nat == chunk_count(config.max_index as nat),
    ensures
        r matches Some(k) ==> exists|c: nat| c < n && chunk_hit(*config, target@, c) == Some(k as nat),
        r is None ==> forall|c: nat| c < n ==> (#[trigger] chunk_hit(*config, target@, c)) is None,
{
    (0..n).into_par_iter().find_map_any(|c| scan_chunk(config, target, c))
}

/// Searches the whole index space in parallel for an index whose candidate
/// has `target` as its selector. Which hit is returned, where there are
/// several, is not fixed; `None` means that no index is a hit.
pub fn search(config: &Config, target: &[u8; 4]) -> (r: Option<usize>)
    requires
        config.wf(),
    ensures
        is_search_outcome(*config, target@, r),
{
    let n = config.max_index / CHUNK_LEN + if config.max_index % CHUNK_LEN == 0 { 0 } else { 1 };
    assert(n as nat == chunk_count(config.max_index as nat)) by (nonlinear_arith)
        requires
            n == config.max_index / 4096 + if config.max_index % 4096 == 0 { 0int } else { 1int },
            CHUNK_LEN == 4096,
    ;
    let r = par_find_chunk(config, target, n);
    proof {
        let t = target@;
        let cfg = *config;
        match r {
            Some(k) => {
                let c = choose|c: nat| c < n && chunk_hit(cfg, t, c) == Some(k as nat);
                lemma_first_hit(cfg, t, chunk_start(c), chunk_end(cfg.max_index as nat, c));
            },
            None => {
                assert forall|k: nat| k < cfg.max_index implies !#[trigger] is_hit(cfg, t, k) by {
                    let c = k / (CHUNK_LEN as nat);
                    assert(c * CHUNK_LEN <= k < c * CHUNK_LEN + CHUNK_LEN) by (nonlinear_arith)
                        requires c == k / 4096, CHUNK_LEN == 4096;
                    assert(c < n) by (nonlinear_arith)
                        requires
                            c == k / 4096,
                            k < cfg.max_index,
                            n == (cfg.max_index + 4095) / 4096,
                    ;
                    assert(chunk_hit(cfg, t, c) is None);
                    lemma_first_hit(cfg, t, chunk_start(c), chunk_end(cfg.max_index as nat, c));
                }
            },
        }
    }
    r
}

} // verus!
