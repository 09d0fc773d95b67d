//! The mixed-radix numeral system that maps an index to a segment.
use vstd::prelude::*;
use vstd::arithmetic::power::*;
use vstd::arithmetic::div_mod::*;

verus! {

/// Digit `i` (least significant first) of `index` written in base `base`.
pub open spec fn digit_of(index: nat, base: nat, i: nat) -> int {
    (index as int / pow(base as int, i)) % (base as int)
}

/// The segment of length `len` that `index` stands for: digit `i` of `index`,
/// in base `alphabet.len()`, picks the character at position `i`.
pub open spec fn segment_of(alphabet: Seq<char>, len: nat, index: nat) -> Seq<char> {
    Seq::new(len, |i: int| alphabet[digit_of(index, alphabet.len(), i as nat)])
}

/// Number of segments of length `len` over an alphabet of `base` characters.
pub open spec fn index_space(base: nat, len: nat) -> int {
    pow(base as int, len)
}

/// A string of length `len` whose characters all come from `alphabet`.
pub open spec fn is_word_over(alphabet: Seq<char>, len: nat, s: Seq<char>) -> bool {
    s.len() == len && forall|i: int| 0 <= i < s.len() ==> alphabet.contains(#[trigger] s[i])
}

/// Moving one digit up is dividing the index by the base.
pub proof fn lemma_digit_shift(index: nat, base: nat, i: nat)
    requires
        base > 0,
    ensures
        digit_of(index, base, i + 1) == digit_of((index / base) as nat, base, i),
{
    lemma_pow_positive(base as int, i);
    lemma_pow_adds(base as int, 1, i);
    lemma_pow1(base as int);
    lemma_div_denominator(index as int, base as int, pow(base as int, i));
    lemma_div_pos_is_pos(index as int, base as int);
    assert(pow(base as int, i + 1) == base * pow(base as int, i));
}

/// Dividing an index by `pow(base, i)` and then by `base` is dividing it by
/// `pow(base, i + 1)`.
pub proof fn lemma_div_pow_step(index: nat, base: nat, i: nat)
    requires
        base > 0,
    ensures
        pow(base as int, i) > 0,
        (index as int / pow(base as int, i)) / (base as int) == index as int / pow(base as int, i + 1),
{
    lemma_pow_positive(base as int, i);
    lemma_pow_adds(base as int, i, 1);
    lemma_pow1(base as int);
    lemma_div_denominator(index as int, pow(base as int, i), base as int);
}

/// The segment of length `len + 1` is the lowest digit's character followed
/// by the segment of length `len` of the index divided by the base.
pub proof fn lemma_segment_unfold(alphabet: Seq<char>, len: nat, index: nat)
    requires
        alphabet.len() > 0,
    ensures
        segment_of(alphabet, len + 1, index) == seq![alphabet[index as int % alphabet.len() as int]]
            + segment_of(alphabet, len, (index / alphabet.len()) as nat),
{
    let b = alphabet.len();
    let lhs = segment_of(alphabet, len + 1, index);
    let rhs = seq![alphabet[index as int % b as int]] + segment_of(alphabet, len, (index / b) as nat);
    assert forall|i: int| 0 <= i < len + 1 implies lhs[i] == rhs[i] by {
        if i == 0 {
            lemma_pow0(b as int);
        } else {
            lemma_digit_shift(index, b, (i - 1) as nat);
        }
    }
    assert(lhs =~= rhs);
}

/// Equal segments of length `len` come from equal indices.
proof fn lemma_segment_injective(alphabet: Seq<char>, len: nat, i: nat, j: nat)
    requires
        alphabet.len() > 0,
        alphabet.no_duplicates(),
        i < index_space(alphabet.len(), len),
        j < index_space(alphabet.len(), len),
        segment_of(alphabet, len, i) == segment_of(alphabet, len, j),
    ensures
        i == j,
    decreases len,
{
    let b = alphabet.len();
    if len == 0 {
        lemma_pow0(b as int);
    } else {
        let n = (len - 1) as nat;
        lemma_segment_unfold(alphabet, n, i);
        lemma_segment_unfold(alphabet, n, j);
        let si = segment_of(alphabet, len, i);
        let sj = segment_of(alphabet, len, j);
        assert(si[0] == sj[0]);
        lemma_mod_pos_bound(i as int, b as int);
        lemma_mod_pos_bound(j as int, b as int);
        assert(i as int % b as int == j as int % b as int);
        assert(si.subrange(1, len as int) =~= segment_of(alphabet, n, (i / b) as nat));
        assert(sj.subrange(1, len as int) =~= segment_of(alphabet, n, (j / b) as nat));
        lemma_pow_adds(b as int, 1, n);
        lemma_pow1(b as int);
        lemma_pow_positive(b as int, n);
        let p = pow(b as int, n);
        assert((i / b) < p && (j / b) < p) by (nonlinear_arith)
            requires
                i < b * p,
                j < b * p,
                b > 0,
        ;
        lemma_segment_injective(alphabet, n, (i / b) as nat, (j / b) as nat);
        lemma_fundamental_div_mod(i as int, b as int);
        lemma_fundamental_div_mod(j as int, b as int);
    }
}

/// Every word of length `len` over the alphabet is the segment of some index.
proof fn lemma_segment_onto(alphabet: Seq<char>, len: nat, s: Seq<char>) -> (i: nat)
    requires
        alphabet.len() > 0,
        is_word_over(alphabet, len, s),
    ensures
        i < index_space(alphabet.len(), len),
        segment_of(alphabet, len, i) == s,
    decreases len,
{
    let b = alphabet.len();
    if len == 0 {
        lemma_pow0(b as int);
        assert(segment_of(alphabet, len, 0) =~= s);
        0
    } else {
        let n = (len - 1) as nat;
        let rest = s.subrange(1, len as int);
        assert(is_word_over(alphabet, n, rest)) by {
            assert forall|k: int| 0 <= k < rest.len() implies alphabet.contains(#[trigger] rest[k]) by {
                assert(rest[k] == s[k + 1]);
            }
        }
        let r = lemma_segment_onto(alphabet, n, rest);
        assert(alphabet.contains(s[0]));
        let d = alphabet.index_of(s[0]);
        let i = d + b * r;
        lemma_pow_adds(b as int, 1, n);
        lemma_pow1(b as int);
        let p = pow(b as int, n);
        assert(i < b * p) by (nonlinear_arith)
            requires
                i == d + b * r,
                0 <= d < b,
                r < p,
        ;
        lemma_fundamental_div_mod_converse(i as int, b as int, r as int, d as int);
        lemma_segment_unfold(alphabet, n, i as nat);
        assert(segment_of(alphabet, len, i as nat) =~= s);
        i as nat
    }
}

/// The segments of the indices below `pow(alphabet.len(), len)` are exactly the
/// words of length `len` over the alphabet, each reached by one index only.
pub proof fn lemma_segment_bijection(alphabet: Seq<char>, len: nat)
    requires
        alphabet.len() > 0,
        alphabet.no_duplicates(),
    ensures
        forall|i: nat, j: nat|
            i < index_space(alphabet.len(), len) && j < index_space(alphabet.len(), len)
                && #[trigger] segment_of(alphabet, len, i) == #[trigger] segment_of(alphabet, len, j)
                ==> i == j,
        forall|i: nat|
            i < index_space(alphabet.len(), len) ==> is_word_over(alphabet, len, #[trigger] segment_of(alphabet, len, i)),
        forall|s: Seq<char>|
            #[trigger] is_word_over(alphabet, len, s) ==> exists|i: nat|
                i < index_space(alphabet.len(), len) && #[trigger] segment_of(alphabet, len, i) == s,
{
    let b = alphabet.len();
    assert forall|i: nat, j: nat|
        i < index_space(b, len) && j < index_space(b, len)
            && #[trigger] segment_of(alphabet, len, i) == #[trigger] segment_of(alphabet, len, j)
            implies i == j by {
        lemma_segment_injective(alphabet, len, i, j);
    }
    assert forall|i: nat| i < index_space(b, len) implies is_word_over(alphabet, len, #[trigger] segment_of(alphabet, len, i)) by {
        let w = segment_of(alphabet, len, i);
        assert forall|k: int| 0 <= k < w.len() implies alphabet.contains(#[trigger] w[k]) by {
            lemma_pow_positive(b as int, k as nat);
            lemma_div_pos_is_pos(i as int, pow(b as int, k as nat));
            lemma_mod_pos_bound(i as int / pow(b as int, k as nat), b as int);
        }
    }
    assert forall|s: Seq<char>| #[trigger] is_word_over(alphabet, len, s) implies exists|i: nat|
        i < index_space(b, len) && #[trigger] segment_of(alphabet, len, i) == s by {
        let i = lemma_segment_onto(alphabet, len, s);
    }
}

} // verus!
