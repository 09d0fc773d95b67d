//! The search configuration and the encoder from index to candidate.
use vstd::prelude::*;
use vstd::arithmetic::power::*;
use crate::segment::{digit_of, segment_of, index_space, lemma_div_pow_step};

verus! {

/// Why a configuration was refused.
#[derive(Debug, Clone, Copy, PartialEq, Eq, Structural)]
pub enum ConfigError {
    /// `alphabet.len()` to the power `segment_len` does not fit in a `usize`.
    IndexSpaceOverflow,
}

/// What a search runs over: candidates `prefix + segment + "(" + arguments + ")"`,
/// where the segment has `segment_len` characters out of `alphabet`.
pub struct Config {
    pub alphabet: Vec<char>,
    pub segment_len: u32,
    pub prefix: String,
    pub arguments: String,
    /// The number of indices, `alphabet.len()` to the power `segment_len`.
    pub max_index: usize,
}

/// The candidate string for `index`.
pub open spec fn candidate_of(
    alphabet: Seq<char>,
    segment_len: nat,
    prefix: Seq<char>,
    arguments: Seq<char>,
    index: nat,
) -> Seq<char> {
    prefix + segment_of(alphabet, segment_len, index) + seq!['('] + arguments + seq![')']
}

impl Config {
    /// `max_index` holds the size of the index space.
    pub open spec fn wf(&self) -> bool {
        self.max_index as int == index_space(self.alphabet@.len(), self.segment_len as nat)
    }

    /// The candidate string that `index` stands for under this configuration.
    pub open spec fn candidate(&self, index: nat) -> Seq<char> {
        candidate_of(self.alphabet@, self.segment_len as nat, self.prefix@, self.arguments@, index)
    }

    /// Builds a configuration, refusing one whose index space does not fit in
    /// a `usize`.
    pub fn new(alphabet: Vec<char>, segment_len: u32, prefix: String, arguments: String) -> (r:
        Result<Config, ConfigError>)
        ensures
            r is Err <==> index_space(alphabet@.len(), segment_len as nat) > usize::MAX,
            r is Err ==> r == Err::<Config, ConfigError>(ConfigError::IndexSpaceOverflow),
            r matches Ok(c) ==> c.wf() && c.alphabet@ == alphabet@ && c.segment_len == segment_len
                && c.prefix@ == prefix@ && c.arguments@ == arguments@,
    {
        let base = alphabet.len();
        let mut acc: usize = 1;
        let mut i: u32 = 0;
        proof {
            lemma_pow0(base as int);
        }
        while i < segment_len
            invariant
                i <= segment_len,
                base == alphabet@.len(),
                acc as int == pow(base as int, i as nat),
            decreases segment_len - i,
        {
            proof {
                lemma_pow_adds(base as int, i as nat, 1);
                lemma_pow1(base as int);
            }
            match acc.checked_mul(base) {
                Some(v) => {
                    acc = v;
                },
                None => {
                    proof {
                        lemma_pow_increases(base as nat, (i + 1) as nat, segment_len as nat);
                    }
                    return Err(ConfigError::IndexSpaceOverflow);
                },
            }
            i = i + 1;
        }
        Ok(Config { alphabet, segment_len, prefix, arguments, max_index: acc })
    }

    /// The number of indices, `alphabet.len()` to the power `segment_len`.
    pub fn max_index(&self) -> (r: usize)
        requires
            self.wf(),
        ensures
            r as int == index_space(self.alphabet@.len(), self.segment_len as nat),
    {
        self.max_index
    }
}

/// Relies on String::push: appends the one character to the string.
#[verifier::external_body]
fn push_char(s: &mut String, c: char)
    ensures
        final(s)@ == old(s)@.push(c),
{
    s.push(c)
}

/// The candidate string for `permutation_index`: the prefix, the segment that
/// the index stands for, then the arguments in parentheses.
pub fn build_signature(config: &Config, permutation_index: usize) -> (r: String)
    requires
        config.wf(),
        permutation_index < config.max_index,
    ensures
        r@ == config.candidate(permutation_index as nat),
{
    let base = config.alphabet.len();
    let ghost segment = segment_of(config.alphabet@, config.segment_len as nat, permutation_index as nat);
    let mut r = String::new();
    r.append(config.prefix.as_str());
    if config.segment_len > 0 {
        proof {
            if base == 0 {
                lemma_pow0(0);
                lemma_pow_adds(0, 1, (config.segment_len - 1) as nat);
                lemma_pow1(0);
            }
        }
    }
    let mut rest: usize = permutation_index;
    let mut i: u32 = 0;
    proof {
        lemma_pow0(base as int);
    }
    while i < config.segment_len
        invariant
            config.wf(),
            permutation_index < config.max_index,
            base == config.alphabet@.len(),
            config.segment_len > 0 ==> base > 0,
            i <= config.segment_len,
            segment == segment_of(config.alphabet@, config.segment_len as nat, permutation_index as nat),
            rest as int == permutation_index as int / pow(base as int, i as nat),
            r@ == config.prefix@ + segment.subrange(0, i as int),
        decreases config.segment_len - i,
    {
        let d = rest % base;
        proof {
            assert(d as int == digit_of(permutation_index as nat, base as nat, i as nat));
            lemma_div_pow_step(permutation_index as nat, base as nat, i as nat);
            assert(segment.subrange(0, i as int + 1) =~= segment.subrange(0, i as int).push(config.alphabet@[d as int]));
        }
        push_char(&mut r, config.alphabet[d]);
        rest = rest / base;
        i = i + 1;
    }
    assert(segment.subrange(0, i as int) =~= segment);
    push_char(&mut r, '(');
    r.append(config.arguments.as_str());
    push_char(&mut r, ')');
    r
}

/// With a segment of length zero there is one index, and its candidate is the
/// prefix followed by the arguments in parentheses.
pub proof fn lemma_empty_segment(config: Config)
    requires
        config.wf(),
        config.segment_len == 0,
    ensures
        config.max_index == 1,
        config.candidate(0) == config.prefix@ + seq!['('] + config.arguments@ + seq![')'],
{
    lemma_pow0(config.alphabet@.len() as int);
    assert(segment_of(config.alphabet@, 0, 0) =~= Seq::<char>::empty());
    assert(config.candidate(0) =~= config.prefix@ + seq!['('] + config.arguments@ + seq![')']);
}

} // verus!
