//! Conversion between words (bytes and 32-bit words) and their bits,
//! most significant bit first.
use vstd::prelude::*;

verus! {

/// `2^n`.
pub open spec fn two_pow(n: nat) -> nat
    decreases n,
{
    if n == 0 {
        1
    } else {
        2 * two_pow((n - 1) as nat)
    }
}

/// The value of a bit string read most significant bit first.
pub open spec fn bits_value(s: Seq<bool>) -> nat
    decreases s.len(),
{
    if s.len() == 0 {
        0
    } else {
        2 * bits_value(s.drop_last()) + (if s.last() { 1nat } else { 0nat })
    }
}

/// The `n` lowest bits of `v`, most significant bit first.
pub open spec fn bits_of(v: nat, n: nat) -> Seq<bool>
    decreases n,
{
    if n == 0 {
        Seq::empty()
    } else {
        bits_of(v / 2, (n - 1) as nat).push(v % 2 == 1)
    }
}

/// Every word of `words` written as `width` bits, one word after the other.
pub open spec fn words_to_bits(words: Seq<int>, width: nat) -> Seq<bool>
    decreases words.len(),
{
    if words.len() == 0 {
        Seq::empty()
    } else {
        words_to_bits(words.drop_last(), width) + bits_of(words.last() as nat, width)
    }
}

/// The bits of a byte string, eight per byte, most significant bit first.
pub open spec fn bytes_to_bits(bytes: Seq<u8>) -> Seq<bool> {
    words_to_bits(bytes.map_values(|b: u8| b as int), 8)
}

/// The bits of a string of 32-bit words, most significant bit first.
pub open spec fn u32s_to_bits(words: Seq<u32>) -> Seq<bool> {
    words_to_bits(words.map_values(|w: u32| w as int), 32)
}

/// The words that the complete groups of `width` bits of `bits` make; bits
/// after the last complete group are left out.
pub open spec fn bits_to_words(bits: Seq<bool>, width: nat) -> Seq<int>
    recommends
        width > 0,
{
    Seq::new(
        bits.len() / width,
        |k: int| bits_value(bits.subrange(k * width, k * width + width)) as int,
    )
}

/// The bytes that the complete groups of eight bits of `bits` make.
pub open spec fn bits_to_bytes(bits: Seq<bool>) -> Seq<u8> {
    bits_to_words(bits, 8).map_values(|v: int| v as u8)
}

/// The 32-bit words that the complete groups of 32 bits of `bits` make.
pub open spec fn bits_to_u32s(bits: Seq<bool>) -> Seq<u32> {
    bits_to_words(bits, 32).map_values(|v: int| v as u32)
}

pub proof fn lemma_two_pow_values()
    ensures
        two_pow(8) == 256,
        two_pow(32) == 0x1_0000_0000,
{
    reveal_with_fuel(two_pow, 33);
}

pub proof fn lemma_bits_value_bound(s: Seq<bool>)
    ensures
        bits_value(s) < two_pow(s.len()),
    decreases s.len(),
{
    if s.len() > 0 {
        lemma_bits_value_bound(s.drop_last());
    }
}

pub proof fn lemma_bits_of_len(v: nat, n: nat)
    ensures
        bits_of(v, n).len() == n,
    decreases n,
{
    if n > 0 {
        lemma_bits_of_len(v / 2, (n - 1) as nat);
    }
}

/// Reading back the `n` bits of a value below `2^n` gives the value.
pub proof fn lemma_bits_value_of(v: nat, n: nat)
    requires
        v < two_pow(n),
    ensures
        bits_value(bits_of(v, n)) == v,
    decreases n,
{
    if n > 0 {
        lemma_bits_of_len(v / 2, (n - 1) as nat);
        lemma_bits_value_of(v / 2, (n - 1) as nat);
        let s = bits_of(v, n);
        assert(s.drop_last() =~= bits_of(v / 2, (n - 1) as nat));
    }
}

/// Writing out the value of a bit string in as many bits gives the string.
pub proof fn lemma_bits_of_value(s: Seq<bool>)
    ensures
        bits_of(bits_value(s), s.len()) == s,
    decreases s.len(),
{
    if s.len() > 0 {
        lemma_bits_of_value(s.drop_last());
        let v = bits_value(s);
        let b: nat = if s.last() { 1 } else { 0 };
        assert(v / 2 == bits_value(s.drop_last()));
        assert(v % 2 == b);
        assert(bits_of(v, s.len()) =~= s.drop_last().push(s.last()));
        assert(s.drop_last().push(s.last()) =~= s);
    }
}

pub proof fn lemma_words_to_bits_len(words: Seq<int>, width: nat)
    ensures
        words_to_bits(words, width).len() == words.len() * width,
    decreases words.len(),
{
    if words.len() > 0 {
        lemma_words_to_bits_len(words.drop_last(), width);
        lemma_bits_of_len(words.last() as nat, width);
        assert(words.len() * width == (words.len() - 1) * width + width) by (nonlinear_arith);
    }
}

/// The `k`-th group of `width` bits is the `k`-th word.
pub proof fn lemma_words_to_bits_group(words: Seq<int>, width: nat, k: int)
    requires
        0 <= k < words.len(),
    ensures
        words_to_bits(words, width).subrange(k * width, k * width + width) == bits_of(
            words[k] as nat,
            width,
        ),
    decreases words.len(),
{
    let all = words_to_bits(words, width);
    let front = words_to_bits(words.drop_last(), width);
    lemma_words_to_bits_len(words.drop_last(), width);
    lemma_bits_of_len(words.last() as nat, width);
    assert(front.len() == (words.len() - 1) * width);
    if k == words.len() - 1 {
        assert(all.subrange(k * width, k * width + width) =~= bits_of(words[k] as nat, width));
    } else {
        lemma_words_to_bits_group(words.drop_last(), width, k);
        assert(k * width + width <= (words.len() - 1) * width) by (nonlinear_arith)
            requires
                k + 1 <= words.len() - 1,
        ;
        assert(0 <= k * width) by (nonlinear_arith)
            requires
                0 <= k,
        ;
        assert(all.subrange(k * width, k * width + width) =~= front.subrange(
            k * width,
            k * width + width,
        ));
    }
}

/// Appending a word appends its bits.
pub proof fn lemma_words_to_bits_push(words: Seq<int>, w: int, width: nat)
    ensures
        words_to_bits(words.push(w), width) == words_to_bits(words, width) + bits_of(
            w as nat,
            width,
        ),
{
    assert(words.push(w).drop_last() =~= words);
}

/// Cutting bits into words and writing the words out again gives back the
/// bits when their number is a multiple of the width.
pub proof fn lemma_words_bits_roundtrip(bits: Seq<bool>, width: nat)
    requires
        width > 0,
        bits.len() % width == 0,
    ensures
        words_to_bits(bits_to_words(bits, width), width) == bits,
    decreases bits.len(),
{
    let words = bits_to_words(bits, width);
    if bits.len() == 0 {
        assert(words_to_bits(words, width) =~= bits);
    } else {
        let n = bits.len() / width;
        assert(n * width == bits.len()) by (nonlinear_arith)
            requires
                bits.len() % width == 0,
                n == bits.len() / width,
                width > 0,
        ;
        assert(n >= 1) by (nonlinear_arith)
            requires
                n * width == bits.len(),
                bits.len() > 0,
                width > 0,
        ;
        assert(width <= bits.len()) by (nonlinear_arith)
            requires
                n * width == bits.len(),
                n >= 1,
                width > 0,
        ;
        let front = bits.subrange(0, bits.len() - width);
        assert(front.len() == (n - 1) * width) by (nonlinear_arith)
            requires
                n * width == bits.len(),
                front.len() == bits.len() - width,
        ;
        assert(front.len() % width == 0) by {
            vstd::arithmetic::div_mod::lemma_mod_multiples_basic(n - 1, width as int);
            assert((n - 1) * width == width * (n - 1)) by (nonlinear_arith);
        }
        assert(front.len() / width == n - 1) by {
            vstd::arithmetic::div_mod::lemma_div_by_multiple(n - 1, width as int);
            assert((n - 1) * width == width * (n - 1)) by (nonlinear_arith);
        }
        lemma_words_bits_roundtrip(front, width);
        let fw = bits_to_words(front, width);
        assert(words.drop_last() =~= fw) by {
            assert forall|k: int| 0 <= k < n - 1 implies words.drop_last()[k] == fw[k] by {
                assert(k * width + width <= (n - 1) * width) by (nonlinear_arith)
                    requires
                        k + 1 <= n - 1,
                ;
                assert(0 <= k * width) by (nonlinear_arith)
                    requires
                        0 <= k,
                ;
                assert(bits.subrange(k * width, k * width + width) =~= front.subrange(
                    k * width,
                    k * width + width,
                ));
            }
        }
        let last = bits.subrange(bits.len() - width, bits.len() as int);
        assert((n - 1) * width == bits.len() - width) by (nonlinear_arith)
            requires
                n * width == bits.len(),
        ;
        assert(words.last() == bits_value(last));
        lemma_bits_of_value(last);
        assert(words_to_bits(words, width) =~= front + last);
        assert(front + last =~= bits);
    }
}

/// Writing words below `2^width` out as bits and cutting the bits into
/// words again gives back the words.
pub proof fn lemma_bits_words_roundtrip(words: Seq<int>, width: nat)
    requires
        width > 0,
        forall|k: int| 0 <= k < words.len() ==> 0 <= #[trigger] words[k] < two_pow(width),
    ensures
        bits_to_words(words_to_bits(words, width), width) == words,
{
    let bits = words_to_bits(words, width);
    lemma_words_to_bits_len(words, width);
    assert(bits.len() / width == words.len()) by {
        vstd::arithmetic::div_mod::lemma_div_by_multiple(words.len() as int, width as int);
        assert(words.len() * width == width * words.len()) by (nonlinear_arith);
    }
    let back = bits_to_words(bits, width);
    assert forall|k: int| 0 <= k < words.len() implies back[k] == words[k] by {
        lemma_words_to_bits_group(words, width, k);
        lemma_bits_value_of(words[k] as nat, width);
    }
    assert(back =~= words);
}

/// Writes the `n` lowest bits of `v`, most significant first, after `out`.
fn push_bits(out: &mut Vec<bool>, v: u32, n: usize)
    requires
        n <= 32,
    ensures
        final(out)@ == old(out)@ + bits_of(v as nat, n as nat),
    decreases n,
{
    if n > 0 {
        push_bits(out, v / 2, n - 1);
        out.push(v % 2 == 1);
        proof {
            assert((v / 2) as nat == (v as nat) / 2);
        }
    } else {
        assert(old(out)@ + Seq::<bool>::empty() =~= old(out)@);
    }
}

/// The value of the `width` bits that start at `start`.
fn pack_word(bits: &Vec<bool>, start: usize, width: usize) -> (v: u32)
    requires
        width <= 32,
        start + width <= bits.len(),
    ensures
        v as nat == bits_value(bits@.subrange(start as int, start + width)),
{
    let mut acc: u64 = 0;
    let mut j: usize = 0;
    proof {
        lemma_two_pow_values();
    }
    while j < width
        invariant
            j <= width,
            width <= 32,
            start + width <= bits.len(),
            two_pow(32) == 0x1_0000_0000,
            acc as nat == bits_value(bits@.subrange(start as int, start + j)),
        decreases width - j,
    {
        let ghost prev = bits@.subrange(start as int, start + j);
        let ghost next = bits@.subrange(start as int, start + j + 1);
        proof {
            assert(next.drop_last() =~= prev);
            lemma_bits_value_bound(prev);
            lemma_two_pow_monotone(j as nat, 32);
        }
        let bit: u64 = if bits[start + j] {
            1
        } else {
            0
        };
        acc = acc * 2 + bit;
        j = j + 1;
    }
    proof {
        lemma_bits_value_bound(bits@.subrange(start as int, start + width));
        lemma_two_pow_monotone(width as nat, 32);
    }
    acc as u32
}

pub proof fn lemma_two_pow_monotone(a: nat, b: nat)
    requires
        a <= b,
    ensures
        two_pow(a) <= two_pow(b),
    decreases b,
{
    if a < b {
        lemma_two_pow_monotone(a, (b - 1) as nat);
    }
}

/// The bits of each byte, most significant bit first.
pub fn rip_binary(byte_data: Vec<u8>) -> (binary_data: Vec<bool>)
    ensures
        binary_data@ == bytes_to_bits(byte_data@),
{
    let mut binary_data: Vec<bool> = Vec::new();
    let ghost words = byte_data@.map_values(|b: u8| b as int);
    let mut i: usize = 0;
    while i < byte_data.len()
        invariant
            i <= byte_data.len(),
            words == byte_data@.map_values(|b: u8| b as int),
            binary_data@ == words_to_bits(words.take(i as int), 8),
        decreases byte_data.len() - i,
    {
        push_bits(&mut binary_data, byte_data[i] as u32, 8);
        proof {
            assert(words.take(i + 1) =~= words.take(i as int).push(words[i as int]));
            lemma_words_to_bits_push(words.take(i as int), words[i as int], 8);
        }
        i = i + 1;
    }
    assert(words.take(i as int) =~= words);
    binary_data
}

/// The bits of each 32-bit word, most significant bit first.
pub fn rip_binary_u32(bytes: Vec<u32>) -> (binary_data: Vec<bool>)
    ensures
        binary_data@ == u32s_to_bits(bytes@),
{
    let mut binary_data: Vec<bool> = Vec::new();
    let ghost words = bytes@.map_values(|w: u32| w as int);
    let mut i: usize = 0;
    while i < bytes.len()
        invariant
            i <= bytes.len(),
            words == bytes@.map_values(|w: u32| w as int),
            binary_data@ == words_to_bits(words.take(i as int), 32),
        decreases bytes.len() - i,
    {
        push_bits(&mut binary_data, bytes[i], 32);
        proof {
            assert(words.take(i + 1) =~= words.take(i as int).push(words[i as int]));
            lemma_words_to_bits_push(words.take(i as int), words[i as int], 32);
        }
        i = i + 1;
    }
    assert(words.take(i as int) =~= words);
    binary_data
}

/// The bytes that each complete group of eight bits makes, most significant
/// bit first; bits after the last complete group are dropped.
pub fn translate_u8(binary_data: Vec<bool>) -> (byte_data: Vec<u8>)
    ensures
        byte_data@ == bits_to_bytes(binary_data@),
{
    let mut byte_data: Vec<u8> = Vec::new();
    let n = binary_data.len() / 8;
    let mut k: usize = 0;
    proof {
        lemma_two_pow_values();
    }
    while k < n
        invariant
            k <= n,
            n == binary_data.len() / 8,
            two_pow(8) == 256,
            byte_data@ =~= bits_to_bytes(binary_data@).take(k as int),
        decreases n - k,
    {
        let v = pack_word(&binary_data, 8 * k, 8);
        proof {
            lemma_bits_value_bound(binary_data@.subrange(8 * k, 8 * k + 8));
        }
        byte_data.push(v as u8);
        k = k + 1;
    }
    byte_data
}

/// The 32-bit words that each complete group of 32 bits makes, most
/// significant bit first; bits after the last complete group are dropped.
pub fn translate_u32(binary_data: Vec<bool>) -> (words: Vec<u32>)
    ensures
        words@ == bits_to_u32s(binary_data@),
{
    let mut words: Vec<u32> = Vec::new();
    let n = binary_data.len() / 32;
    let mut k: usize = 0;
    while k < n
        invariant
            k <= n,
            n == binary_data.len() / 32,
            words@ =~= bits_to_u32s(binary_data@).take(k as int),
        decreases n - k,
    {
        let v = pack_word(&binary_data, 32 * k, 32);
        words.push(v);
        k = k + 1;
    }
    words
}

/// Cutting the bits of bytes back into bytes gives the bytes.
pub proof fn law_bytes_roundtrip(bytes: Seq<u8>)
    ensures
        bits_to_bytes(bytes_to_bits(bytes)) == bytes,
{
    let words = bytes.map_values(|b: u8| b as int);
    lemma_two_pow_values();
    lemma_bits_words_roundtrip(words, 8);
    assert(bits_to_bytes(bytes_to_bits(bytes)) =~= bytes);
}

/// Cutting the bits of 32-bit words back into words gives the words.
pub proof fn law_u32s_roundtrip(words: Seq<u32>)
    ensures
        bits_to_u32s(u32s_to_bits(words)) == words,
{
    let ws = words.map_values(|w: u32| w as int);
    lemma_two_pow_values();
    lemma_bits_words_roundtrip(ws, 32);
    assert(bits_to_u32s(u32s_to_bits(words)) =~= words);
}

/// A bit string whose length is a multiple of eight is the bits of the
/// bytes it makes.
pub proof fn law_bits_roundtrip(bits: Seq<bool>)
    requires
        bits.len() % 8 == 0,
    ensures
        bytes_to_bits(bits_to_bytes(bits)) == bits,
{
    let words = bits_to_words(bits, 8);
    lemma_two_pow_values();
    assert forall|k: int| 0 <= k < words.len() implies 0 <= #[trigger] words[k] < 256 by {
        assert(0 <= k * 8) by (nonlinear_arith)
            requires
                0 <= k,
        ;
        lemma_bits_value_bound(bits.subrange(k * 8, k * 8 + 8));
    }
    assert(bits_to_bytes(bits).map_values(|b: u8| b as int) =~= words);
    lemma_words_bits_roundtrip(bits, 8);
}


/// Cutting two bit strings into bytes one after the other gives the same
/// bytes as cutting them joined, when the first holds whole bytes.
pub proof fn law_bits_to_bytes_append(a: Seq<bool>, b: Seq<bool>)
    requires
        a.len() % 8 == 0,
    ensures
        bits_to_bytes(a + b) == bits_to_bytes(a) + bits_to_bytes(b),
{
    let ab = a + b;
    let na = a.len() / 8;
    let nb = b.len() / 8;
    assert(na * 8 == a.len()) by {
        vstd::arithmetic::div_mod::lemma_fundamental_div_mod(a.len() as int, 8);
    }
    assert(ab.len() / 8 == na + nb) by {
        vstd::arithmetic::div_mod::lemma_fundamental_div_mod(b.len() as int, 8);
        vstd::arithmetic::div_mod::lemma_fundamental_div_mod_converse(
            ab.len() as int,
            8,
            (na + nb) as int,
            b.len() as int % 8,
        );
    }
    let lhs = bits_to_bytes(ab);
    let rhs = bits_to_bytes(a) + bits_to_bytes(b);
    assert forall|k: int| 0 <= k < na + nb implies #[trigger] lhs[k] == rhs[k] by {
        if k < na {
            assert(ab.subrange(k * 8, k * 8 + 8) =~= a.subrange(k * 8, k * 8 + 8));
        } else {
            let j = k - na;
            assert(ab.subrange(k * 8, k * 8 + 8) =~= b.subrange(j * 8, j * 8 + 8));
        }
    }
    assert(lhs =~= rhs);
}

} // verus!
