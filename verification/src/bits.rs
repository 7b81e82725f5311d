//! Bits packed into machine words.
//!
//! A sequence of words stands for a sequence of bits: bit `i` is bit
//! `i % usize::BITS` of word `i / usize::BITS`.

use vstd::prelude::*;

verus! {

/// Whether bit `s` of the word `w` is set.
pub open spec fn word_bit(w: usize, s: int) -> bool {
    0 <= s < usize::BITS && (w & (1usize << (s as usize))) != 0
}

/// Whether bit `i` of the bits packed into `words` is set.
pub open spec fn bit_at(words: Seq<usize>, i: int) -> bool {
    word_bit(words[i / (usize::BITS as int)], i % (usize::BITS as int))
}

/// The first `n` bits packed into `words`.
pub open spec fn bits_of(words: Seq<usize>, n: int) -> Seq<bool> {
    Seq::new(n as nat, |i: int| bit_at(words, i))
}

/// `n / d`, rounded up.
pub open spec fn ceil_div(n: int, d: int) -> int {
    if n % d == 0 {
        n / d
    } else {
        n / d + 1
    }
}

/// The number of words that hold `bits` bits.
pub open spec fn words_for(bits: int) -> int {
    ceil_div(bits, usize::BITS as int)
}

/// `ceil_div(n, d)` is the least number of groups of `d` that hold `n`.
pub proof fn lemma_ceil_div(n: int, d: int, k: int)
    requires
        0 < d,
        0 <= n,
        (k - 1) * d < n <= k * d,
    ensures
        k == ceil_div(n, d),
{
    vstd::arithmetic::div_mod::lemma_fundamental_div_mod(n, d);
    let q = n / d;
    let r = n % d;
    assert(k == (if r == 0 {
        q
    } else {
        q + 1
    })) by (nonlinear_arith)
        requires
            0 < d,
            n == d * q + r,
            0 <= r < d,
            (k - 1) * d < n <= k * d,
    ;
}

/// `ceil_div(n, d)` groups of `d` hold `n`, and one group fewer does not.
pub proof fn lemma_ceil_div_bounds(n: int, d: int)
    requires
        0 < d,
        0 <= n,
    ensures
        (ceil_div(n, d) - 1) * d < n || n == 0,
        n <= ceil_div(n, d) * d,
        0 <= ceil_div(n, d),
        n > 0 ==> ceil_div(n, d) > 0,
{
    vstd::arithmetic::div_mod::lemma_fundamental_div_mod(n, d);
    let q = n / d;
    let r = n % d;
    let k = ceil_div(n, d);
    assert(((k - 1) * d < n || n == 0) && n <= k * d && 0 <= k && (n > 0 ==> k > 0))
        by (nonlinear_arith)
        requires
            0 < d,
            0 <= n,
            n == d * q + r,
            0 <= r < d,
            k == (if r == 0 {
                q
            } else {
                q + 1
            }),
    ;
}

/// The word with only bit `s` set.
pub open spec fn mask_of(s: int) -> usize {
    1usize << (s as usize)
}

/// How the bits of a word change when bit `s` is set or cleared.
pub proof fn lemma_word_bit_update(w: usize, s: usize, t: usize)
    requires
        s < usize::BITS,
        t < usize::BITS,
    ensures
        word_bit(w | (1usize << s), t as int) == (t == s || word_bit(w, t as int)),
        word_bit(w & !(1usize << s), t as int) == (t != s && word_bit(w, t as int)),
        !word_bit(0usize, t as int),
{
    assert(((w | (1usize << s)) & (1usize << t) != 0) == (t == s || (w & (1usize << t)) != 0))
        by (bit_vector)
        requires
            s < usize::BITS,
            t < usize::BITS,
    ;
    assert(((w & !(1usize << s)) & (1usize << t) != 0) == (t != s && (w & (1usize << t)) != 0))
        by (bit_vector)
        requires
            s < usize::BITS,
            t < usize::BITS,
    ;
    assert(0usize & (1usize << t) == 0) by (bit_vector);
}

/// The number of bits in a word.
pub fn bits_per_cell() -> (r: usize)
    ensures
        r == usize::BITS,
        r == 32 || r == 64,
{
    usize::BITS as usize
}

/// Where bit `base + j` lives when `base` is a whole number of words.
pub proof fn lemma_bit_at_shift(base: int, j: int)
    requires
        0 <= base,
        0 <= j,
        base % (usize::BITS as int) == 0,
    ensures
        (base + j) / (usize::BITS as int) == base / (usize::BITS as int) + j / (usize::BITS as int),
        (base + j) % (usize::BITS as int) == j % (usize::BITS as int),
{
    if usize::BITS == 32 {
        assert((base + j) / 32 == base / 32 + j / 32);
        assert((base + j) % 32 == j % 32);
    } else {
        assert((base + j) / 64 == base / 64 + j / 64);
        assert((base + j) % 64 == j % 64);
    }
}

/// The word that holds bit `i` of `n` bits is one of the `words_for(n)` words.
pub proof fn lemma_word_in_range(i: int, n: int)
    requires
        0 <= i < n,
    ensures
        0 <= i / (usize::BITS as int) < words_for(n),
        0 <= i % (usize::BITS as int) < usize::BITS,
{
    if usize::BITS == 32 {
        assert(i / 32 < words_for(n));
    } else {
        assert(i / 64 < words_for(n));
    }
}

/// Replacing the word of bit `i` by one that differs from it in that bit alone
/// changes bit `i` of the packed bits and no other.
pub proof fn lemma_bits_update(words: Seq<usize>, word: usize, n: int, i: int, value: bool)
    requires
        0 <= i < n,
        words_for(n) <= words.len(),
        forall|t: int|
            0 <= t < usize::BITS ==> #[trigger] word_bit(word, t) == (if t == i % (usize::BITS as int) {
                value
            } else {
                word_bit(words[i / (usize::BITS as int)], t)
            }),
    ensures
        bits_of(words.update(i / (usize::BITS as int), word), n) == bits_of(words, n).update(
            i,
            value,
        ),
{
    let bits = usize::BITS as int;
    let after = words.update(i / bits, word);
    assert forall|j: int| 0 <= j < n implies bit_at(after, j) == bits_of(words, n).update(
        i,
        value,
    )[j] by {
        lemma_word_in_range(j, n);
        if j / bits == i / bits {
            assert(word_bit(word, j % bits) == (if j % bits == i % bits {
                value
            } else {
                word_bit(words[i / bits], j % bits)
            }));
            if j % bits == i % bits {
                if usize::BITS == 32 {
                    assert(j == i);
                } else {
                    assert(j == i);
                }
            }
        }
    }
    assert(bits_of(after, n) =~= bits_of(words, n).update(i, value));
}

} // verus!
