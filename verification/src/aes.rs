//! AES-128, the block cipher every LoRaWAN key drives, and the two uses that are
//! made of it: CMAC (RFC 4493) for the MIC, and the counter blocks that encrypt
//! the `FRMPayload`. Encryption only: CMAC and the counter mode never decrypt a
//! block, so the inverse cipher is not here.

use vstd::prelude::*;

use crate::sbox;

verus! {

/// One block, and one key: sixteen bytes.
pub const BLOCK: usize = 16;

// ---------------------------------------------------------------------------
// The cipher as FIPS 197 defines it, over sequences of bytes
// ---------------------------------------------------------------------------

/// Two sequences of bytes, added bit by bit.
pub open spec fn xor_bytes(a: Seq<u8>, b: Seq<u8>) -> Seq<u8> {
    Seq::new(a.len(), |i: int| a[i] ^ b[i])
}

/// `SubBytes`: each byte through the S-box.
pub open spec fn sub_bytes(state: Seq<u8>) -> Seq<u8> {
    Seq::new(state.len(), |i: int| sbox::sub_byte(state[i]))
}

/// `ShiftRows`: row `r` of the column-major state rotates left by `r`.
pub open spec fn shift_rows(state: Seq<u8>) -> Seq<u8> {
    Seq::new(16, |i: int| state[((i / 4 + i % 4) % 4) * 4 + i % 4])
}

/// One byte of a mixed column: the row's byte twice, the next three times,
/// the other two once.
#[verifier::opaque]
pub open spec fn mixed(column: Seq<u8>, row: int) -> u8 {
    sbox::times(column[row], 2) ^ sbox::times(column[(row + 1) % 4], 3) ^ column[(row + 2) % 4]
        ^ column[(row + 3) % 4]
}

/// `MixColumns`: each column of four bytes, mixed.
pub open spec fn mix_columns(state: Seq<u8>) -> Seq<u8> {
    Seq::new(16, |i: int| mixed(state.subrange(i / 4 * 4, i / 4 * 4 + 4), i % 4))
}

/// The round constant: two to the power `round - 1` in GF(2^8).
pub open spec fn round_constant(round: nat) -> u8
    decreases round,
{
    if round <= 1 {
        1
    } else {
        sbox::times_two(round_constant((round - 1) as nat))
    }
}

/// Word `i` of the key schedule. The first four words are the key; each later
/// one is the word four before it, added to the word before it, which at the
/// start of a round is rotated by a byte, put through the S-box and given the
/// round constant first.
pub open spec fn schedule_word(key: Seq<u8>, i: nat) -> Seq<u8>
    decreases i,
{
    if i < 4 {
        key.subrange(4 * (i as int), 4 * (i as int) + 4)
    } else {
        let back = schedule_word(key, (i - 4) as nat);
        let last = schedule_word(key, (i - 1) as nat);
        if i % 4 == 0 {
            let turned = sub_bytes(seq![last[1], last[2], last[3], last[0]]);
            xor_bytes(back, turned.update(0, turned[0] ^ round_constant(i / 4)))
        } else {
            xor_bytes(back, last)
        }
    }
}

/// The key of `round`: four words of the schedule.
pub open spec fn round_key(key: Seq<u8>, round: nat) -> Seq<u8> {
    schedule_word(key, 4 * round) + schedule_word(key, 4 * round + 1) + schedule_word(
        key,
        4 * round + 2,
    ) + schedule_word(key, 4 * round + 3)
}

/// The state once `round` full rounds have passed.
pub open spec fn after_round(key: Seq<u8>, block: Seq<u8>, round: nat) -> Seq<u8>
    decreases round,
{
    if round == 0 {
        xor_bytes(block, round_key(key, 0))
    } else {
        xor_bytes(
            mix_columns(shift_rows(sub_bytes(after_round(key, block, (round - 1) as nat)))),
            round_key(key, round),
        )
    }
}

/// One block under `key`: nine full rounds, and a tenth without `MixColumns`.
#[verifier::opaque]
pub open spec fn cipher(key: Seq<u8>, block: Seq<u8>) -> Seq<u8> {
    xor_bytes(shift_rows(sub_bytes(after_round(key, block, 9))), round_key(key, 10))
}

// ---------------------------------------------------------------------------
// The cipher
// ---------------------------------------------------------------------------

/// Multiplication by two in GF(2^8) with the AES polynomial.
fn xtime(byte: u8) -> (out: u8)
    ensures
        out == sbox::times_two(byte),
{
    proof {
        lemma_times_two_bits(byte);
    }
    (byte << 1) ^ (if byte & 0x80 != 0 {
        0x1b
    } else {
        0
    })
}

/// The first word of a round's key before it is added: the last word of the
/// round before, rotated by a byte, through the S-box, with the round
/// constant.
fn turned_word(previous: &[u8; BLOCK], rcon: u8) -> (word: [u8; 4])
    ensures
        word@ == ({
            let turned = sub_bytes(seq![previous[13], previous[14], previous[15], previous[12]]);
            turned.update(0, turned[0] ^ rcon)
        }),
{
    [
        sbox::substitute(previous[13]) ^ rcon,
        sbox::substitute(previous[14]),
        sbox::substitute(previous[15]),
        sbox::substitute(previous[12]),
    ]
}

/// The key of one round from the key of the round before.
fn next_round_key(previous: &[u8; BLOCK], rcon: u8, key: Ghost<Seq<u8>>, round: Ghost<nat>) -> (next:
    [u8; BLOCK])
    requires
        round@ >= 1,
        key@.len() == 16,
        previous@ == round_key(key@, (round@ - 1) as nat),
        rcon == round_constant(round@),
    ensures
        next@ == round_key(key@, round@),
{
    let word = turned_word(previous, rcon);
    let mut next = [0u8; BLOCK];
    let mut at: usize = 0;
    while at < BLOCK
        invariant
            at <= BLOCK,
            forall|i: int|
                0 <= i < at ==> next@[i] == previous@[i] ^ (if i < 4 {
                    word@[i]
                } else {
                    next@[i - 4]
                }),
        decreases BLOCK - at,
    {
        let carried = if at < 4 {
            word[at]
        } else {
            next[at - 4]
        };
        next[at] = previous[at] ^ carried;
        at += 1;
    }
    proof {
        let k = key@;
        let r = round@;
        lemma_schedule_word_len(k, (4 * r - 4) as nat);
        lemma_schedule_word_len(k, (4 * r - 3) as nat);
        lemma_schedule_word_len(k, (4 * r - 2) as nat);
        lemma_schedule_word_len(k, (4 * r - 1) as nat);
        lemma_schedule_word_len(k, 4 * r);
        lemma_schedule_word_len(k, 4 * r + 1);
        lemma_schedule_word_len(k, 4 * r + 2);
        lemma_schedule_word_len(k, 4 * r + 3);
        assert(schedule_word(k, (4 * r - 4) as nat) == previous@.subrange(0, 4));
        assert(schedule_word(k, (4 * r - 3) as nat) == previous@.subrange(4, 8));
        assert(schedule_word(k, (4 * r - 2) as nat) == previous@.subrange(8, 12));
        assert(schedule_word(k, (4 * r - 1) as nat) == previous@.subrange(12, 16));
        assert(4 * r / 4 == r);
        assert(schedule_word(k, 4 * r) == next@.subrange(0, 4));
        assert(schedule_word(k, 4 * r + 1) == next@.subrange(4, 8));
        assert(schedule_word(k, 4 * r + 2) == next@.subrange(8, 12));
        assert(schedule_word(k, 4 * r + 3) == next@.subrange(12, 16));
    }
    next
}

/// Every word of the schedule is four bytes.
proof fn lemma_schedule_word_len(key: Seq<u8>, i: nat)
    requires
        key.len() == 16,
    ensures
        schedule_word(key, i).len() == 4,
    decreases i,
{
    if i >= 4 {
        lemma_schedule_word_len(key, (i - 4) as nat);
    }
}

/// The eleven round keys of AES-128.
fn expand(key: &[u8; BLOCK]) -> (round_keys: [[u8; BLOCK]; 11])
    ensures
        forall|r: int| 0 <= r < 11 ==> #[trigger] round_keys@[r]@ == round_key(key@, r as nat),
{
    let mut round_keys = [[0u8; BLOCK]; 11];
    round_keys[0] = *key;
    assert(round_keys@[0]@ == round_key(key@, 0));
    let mut rcon: u8 = 1;
    let mut round: usize = 1;
    while round < 11
        invariant
            1 <= round <= 11,
            round <= 10 ==> rcon == round_constant(round as nat),
            forall|r: int| 0 <= r < round ==> #[trigger] round_keys@[r]@ == round_key(key@, r as nat),
        decreases 11 - round,
    {
        let previous = round_keys[round - 1];
        let next = next_round_key(&previous, rcon, Ghost(key@), Ghost(round as nat));
        round_keys[round] = next;
        rcon = xtime(rcon);
        round += 1;
    }
    round_keys
}

/// One column of the state, mixed: each byte takes the sum of all four and
/// twice its sum with the next.
fn mix_column(column: [u8; 4]) -> (out: [u8; 4])
    ensures
        forall|row: int| 0 <= row < 4 ==> #[trigger] out@[row] == mixed(column@, row),
{
    let (a, b, c, d) = (column[0], column[1], column[2], column[3]);
    let all = a ^ b ^ c ^ d;
    proof {
        reveal(mixed);
        lemma_mixed(a, b, c, d);
        lemma_mixed(b, c, d, a);
        lemma_mixed(c, d, a, b);
        lemma_mixed(d, a, b, c);
        assert(b ^ c ^ d ^ a == a ^ b ^ c ^ d && c ^ d ^ a ^ b == a ^ b ^ c ^ d && d ^ a ^ b ^ c == a
            ^ b ^ c ^ d) by (bit_vector);
    }
    [
        a ^ (all ^ xtime(a ^ b)),
        b ^ (all ^ xtime(b ^ c)),
        c ^ (all ^ xtime(c ^ d)),
        d ^ (all ^ xtime(d ^ a)),
    ]
}

/// Adding all four bytes and twice a sum is the mixing that `MixColumns`
/// defines: multiplication by two distributes over addition.
proof fn lemma_mixed(a: u8, b: u8, c: u8, d: u8)
    ensures
        a ^ ((a ^ b ^ c ^ d) ^ sbox::times_two(a ^ b)) == sbox::times(a, 2) ^ sbox::times(b, 3) ^ c
            ^ d,
{
    sbox::lemma_small_times(a);
    sbox::lemma_small_times(b);
    lemma_times_two_adds(a, b);
    let ta = sbox::times_two(a);
    let tb = sbox::times_two(b);
    assert(a ^ ((a ^ b ^ c ^ d) ^ (ta ^ tb)) == ta ^ (tb ^ b) ^ c ^ d) by (bit_vector);
}

/// Multiplication by two distributes over addition.
proof fn lemma_times_two_adds(a: u8, b: u8)
    ensures
        sbox::times_two(a ^ b) == sbox::times_two(a) ^ sbox::times_two(b),
{
    lemma_times_two_bits(a);
    lemma_times_two_bits(b);
    lemma_times_two_bits(a ^ b);
    assert(((a ^ b) << 1) ^ (if (a ^ b) & 0x80 != 0 { 0x1bu8 } else { 0u8 })
        == ((a << 1) ^ (if a & 0x80 != 0 { 0x1bu8 } else { 0u8 })) ^ ((b << 1) ^ (if b & 0x80 != 0 {
        0x1bu8
    } else {
        0u8
    }))) by (bit_vector);
}

/// Multiplication by two on the bits of a byte.
proof fn lemma_times_two_bits(x: u8)
    ensures
        sbox::times_two(x) == (x << 1) ^ (if x & 0x80 != 0 {
            0x1bu8
        } else {
            0u8
        }),
{
    assert((x < 0x80 ==> (x << 1) == 2 * x && x & 0x80 == 0) && (x >= 0x80 ==> (x << 1) == 2 * x
        - 0x100 && x & 0x80 != 0) && (x << 1) ^ 0 == x << 1) by (bit_vector);
}

/// Two blocks, added.
fn add_block(a: &[u8; BLOCK], b: &[u8; BLOCK]) -> (out: [u8; BLOCK])
    ensures
        out@ == xor_bytes(a@, b@),
{
    let mut out = [0u8; BLOCK];
    let mut at: usize = 0;
    while at < BLOCK
        invariant
            at <= BLOCK,
            forall|i: int| 0 <= i < at ==> out@[i] == a@[i] ^ b@[i],
        decreases BLOCK - at,
    {
        out[at] = a[at] ^ b[at];
        at += 1;
    }
    assert(out@ == xor_bytes(a@, b@));
    out
}

/// Each byte of the state through the S-box.
fn substitute(state: &[u8; BLOCK]) -> (out: [u8; BLOCK])
    ensures
        out@ == sub_bytes(state@),
{
    let mut out = [0u8; BLOCK];
    let mut at: usize = 0;
    while at < BLOCK
        invariant
            at <= BLOCK,
            forall|i: int| 0 <= i < at ==> out@[i] == sbox::sub_byte(state@[i]),
        decreases BLOCK - at,
    {
        out[at] = sbox::substitute(state[at]);
        at += 1;
    }
    assert(out@ == sub_bytes(state@));
    out
}

/// Row `r` of the column-major state, rotated left by `r`.
fn shift(state: &[u8; BLOCK]) -> (out: [u8; BLOCK])
    ensures
        out@ == shift_rows(state@),
{
    let mut out = [0u8; BLOCK];
    let mut at: usize = 0;
    while at < BLOCK
        invariant
            at <= BLOCK,
            forall|i: int|
                0 <= i < at ==> out@[i] == state@[((i / 4 + i % 4) % 4) * 4 + i % 4],
        decreases BLOCK - at,
    {
        let column: usize = at / 4;
        let row: usize = at % 4;
        out[at] = state[((column + row) % 4) * 4 + row];
        at += 1;
    }
    assert(out@ == shift_rows(state@));
    out
}

/// Each column of the state, mixed.
fn mix(state: &[u8; BLOCK]) -> (out: [u8; BLOCK])
    ensures
        out@ == mix_columns(state@),
{
    let first = mix_column([state[0], state[1], state[2], state[3]]);
    let second = mix_column([state[4], state[5], state[6], state[7]]);
    let third = mix_column([state[8], state[9], state[10], state[11]]);
    let fourth = mix_column([state[12], state[13], state[14], state[15]]);
    let out = [
        first[0], first[1], first[2], first[3],
        second[0], second[1], second[2], second[3],
        third[0], third[1], third[2], third[3],
        fourth[0], fourth[1], fourth[2], fourth[3],
    ];
    proof {
        let columns = mix_columns(state@);
        assert(state@.subrange(0, 4) == seq![state@[0], state@[1], state@[2], state@[3]]);
        assert(state@.subrange(4, 8) == seq![state@[4], state@[5], state@[6], state@[7]]);
        assert(state@.subrange(8, 12) == seq![state@[8], state@[9], state@[10], state@[11]]);
        assert(state@.subrange(12, 16) == seq![state@[12], state@[13], state@[14], state@[15]]);
        assert(out@ =~= columns);
    }
    out
}

/// One block under `key`.
pub fn encrypt(key: &[u8; BLOCK], block: &[u8; BLOCK]) -> (out: [u8; BLOCK])
    ensures
        out@ == cipher(key@, block@),
{
    proof {
        reveal(cipher);
    }
    let round_keys = expand(key);
    let mut state = add_block(block, &round_keys[0]);
    let mut round: usize = 1;
    while round < 10
        invariant
            1 <= round <= 10,
            forall|r: int| 0 <= r < 11 ==> #[trigger] round_keys@[r]@ == round_key(key@, r as nat),
            state@ == after_round(key@, block@, (round - 1) as nat),
        decreases 10 - round,
    {
        state = add_block(&mix(&shift(&substitute(&state))), &round_keys[round]);
        round += 1;
    }
    add_block(&shift(&substitute(&state)), &round_keys[10])
}

// ---------------------------------------------------------------------------
// The cipher takes no two blocks to one
// ---------------------------------------------------------------------------

/// Adding the same bytes keeps different bytes different.
proof fn lemma_xor_is_one_to_one(a: Seq<u8>, b: Seq<u8>, k: Seq<u8>)
    requires
        a.len() == b.len(),
        xor_bytes(a, k) == xor_bytes(b, k),
    ensures
        a == b,
{
    assert forall|i: int| 0 <= i < a.len() implies a[i] == b[i] by {
        let (x, y, z) = (a[i], b[i], k[i]);
        assert(xor_bytes(a, k)[i] == x ^ z && xor_bytes(b, k)[i] == y ^ z);
        assert(x ^ z == y ^ z ==> x == y) by (bit_vector);
    }
    assert(a =~= b);
}

/// `SubBytes` keeps different states different.
proof fn lemma_sub_is_one_to_one(a: Seq<u8>, b: Seq<u8>)
    requires
        a.len() == b.len(),
        sub_bytes(a) == sub_bytes(b),
    ensures
        a == b,
{
    assert forall|i: int| 0 <= i < a.len() implies a[i] == b[i] by {
        assert(sub_bytes(a)[i] == sbox::sub_byte(a[i]));
        assert(sub_bytes(b)[i] == sbox::sub_byte(b[i]));
        if a[i] != b[i] {
            sbox::sub_byte_is_one_to_one(a[i], b[i]);
        }
    }
    assert(a =~= b);
}

/// `ShiftRows` keeps different states different.
proof fn lemma_shift_is_one_to_one(a: Seq<u8>, b: Seq<u8>)
    requires
        a.len() == 16,
        b.len() == 16,
        shift_rows(a) == shift_rows(b),
    ensures
        a == b,
{
    assert forall|i: int| 0 <= i < 16 implies a[i] == b[i] by {
        let from = ((i / 4 + 4 - i % 4) % 4) * 4 + i % 4;
        assert(from / 4 == (i / 4 + 4 - i % 4) % 4 && from % 4 == i % 4);
        assert(((from / 4 + from % 4) % 4) * 4 + from % 4 == i);
        assert(shift_rows(a)[from] == a[i] && shift_rows(b)[from] == b[i]);
    }
    assert(a =~= b);
}

/// The first byte of a mixed column.
spec fn mixed_first(a: u8, b: u8, c: u8, d: u8) -> u8 {
    sbox::times_two(a) ^ (sbox::times_two(b) ^ b) ^ c ^ d
}

/// The first byte of a column mixed twice, which depends on two of its bytes.
spec fn mixed_twice(a: u8, c: u8) -> u8 {
    sbox::times_two(sbox::times_two(a)) ^ a ^ sbox::times_two(sbox::times_two(c))
}

/// A column mixed four times is what it was.
proof fn lemma_mixed_four_times(a: u8, b: u8, c: u8, d: u8)
    ensures
        mixed_first(
            mixed_first(a, b, c, d),
            mixed_first(b, c, d, a),
            mixed_first(c, d, a, b),
            mixed_first(d, a, b, c),
        ) == mixed_twice(a, c),
        mixed_twice(mixed_twice(a, c), mixed_twice(c, a)) == a,
{
    assert(mixed_first(
        mixed_first(a, b, c, d),
        mixed_first(b, c, d, a),
        mixed_first(c, d, a, b),
        mixed_first(d, a, b, c),
    ) == mixed_twice(a, c)) by (bit_vector);
    assert(mixed_twice(mixed_twice(a, c), mixed_twice(c, a)) == a) by (bit_vector);
}

/// A mixed column is the first byte of each of its rotations, mixed.
proof fn lemma_mixed_rows(column: Seq<u8>)
    requires
        column.len() == 4,
    ensures
        mixed(column, 0) == mixed_first(column[0], column[1], column[2], column[3]),
        mixed(column, 1) == mixed_first(column[1], column[2], column[3], column[0]),
        mixed(column, 2) == mixed_first(column[2], column[3], column[0], column[1]),
        mixed(column, 3) == mixed_first(column[3], column[0], column[1], column[2]),
{
    reveal(mixed);
    sbox::lemma_small_times(column[0]);
    sbox::lemma_small_times(column[1]);
    sbox::lemma_small_times(column[2]);
    sbox::lemma_small_times(column[3]);
}

/// Mixing keeps different columns different.
proof fn lemma_column_is_one_to_one(a: Seq<u8>, b: Seq<u8>)
    requires
        a.len() == 4,
        b.len() == 4,
        forall|row: int| 0 <= row < 4 ==> #[trigger] mixed(a, row) == mixed(b, row),
    ensures
        a == b,
{
    lemma_mixed_rows(a);
    lemma_mixed_rows(b);
    assert(mixed(a, 0) == mixed(b, 0) && mixed(a, 1) == mixed(b, 1));
    assert(mixed(a, 2) == mixed(b, 2) && mixed(a, 3) == mixed(b, 3));
    lemma_mixed_four_times(a[0], a[1], a[2], a[3]);
    lemma_mixed_four_times(a[1], a[2], a[3], a[0]);
    lemma_mixed_four_times(a[2], a[3], a[0], a[1]);
    lemma_mixed_four_times(a[3], a[0], a[1], a[2]);
    lemma_mixed_four_times(b[0], b[1], b[2], b[3]);
    lemma_mixed_four_times(b[1], b[2], b[3], b[0]);
    lemma_mixed_four_times(b[2], b[3], b[0], b[1]);
    lemma_mixed_four_times(b[3], b[0], b[1], b[2]);
    assert(a =~= b);
}

/// `MixColumns` keeps different states different.
proof fn lemma_mix_is_one_to_one(a: Seq<u8>, b: Seq<u8>)
    requires
        a.len() == 16,
        b.len() == 16,
        mix_columns(a) == mix_columns(b),
    ensures
        a == b,
{
    assert forall|i: int| 0 <= i < 16 implies a[i] == b[i] by {
        let start = i / 4 * 4;
        let (p, q) = (a.subrange(start, start + 4), b.subrange(start, start + 4));
        assert forall|row: int| 0 <= row < 4 implies #[trigger] mixed(p, row) == mixed(q, row) by {
            let at = start + row;
            assert(at / 4 * 4 == start && at % 4 == row);
            assert(mix_columns(a)[at] == mixed(p, row));
            assert(mix_columns(b)[at] == mixed(q, row));
        }
        lemma_column_is_one_to_one(p, q);
        assert(a[i] == p[i - start] && b[i] == q[i - start]);
    }
    assert(a =~= b);
}

/// The rounds keep different blocks different.
proof fn lemma_rounds_are_one_to_one(key: Seq<u8>, a: Seq<u8>, b: Seq<u8>, round: nat)
    requires
        a.len() == 16,
        b.len() == 16,
        after_round(key, a, round) == after_round(key, b, round),
    ensures
        a == b,
    decreases round,
{
    if round == 0 {
        lemma_xor_is_one_to_one(a, b, round_key(key, 0));
    } else {
        let p = after_round(key, a, (round - 1) as nat);
        let q = after_round(key, b, (round - 1) as nat);
        lemma_round_len(key, a, (round - 1) as nat);
        lemma_round_len(key, b, (round - 1) as nat);
        lemma_xor_is_one_to_one(
            mix_columns(shift_rows(sub_bytes(p))),
            mix_columns(shift_rows(sub_bytes(q))),
            round_key(key, round),
        );
        lemma_mix_is_one_to_one(shift_rows(sub_bytes(p)), shift_rows(sub_bytes(q)));
        lemma_shift_is_one_to_one(sub_bytes(p), sub_bytes(q));
        lemma_sub_is_one_to_one(p, q);
        lemma_rounds_are_one_to_one(key, a, b, (round - 1) as nat);
    }
}

/// The state stays sixteen bytes.
proof fn lemma_round_len(key: Seq<u8>, block: Seq<u8>, round: nat)
    requires
        block.len() == 16,
    ensures
        after_round(key, block, round).len() == 16,
{
}

/// Under one key the cipher takes no two blocks to one: it permutes the blocks.
pub proof fn cipher_is_one_to_one(key: Seq<u8>, a: Seq<u8>, b: Seq<u8>)
    requires
        a.len() == 16,
        b.len() == 16,
        a != b,
    ensures
        cipher(key, a) != cipher(key, b),
{
    reveal(cipher);
    if cipher(key, a) == cipher(key, b) {
        let p = after_round(key, a, 9);
        let q = after_round(key, b, 9);
        lemma_round_len(key, a, 9);
        lemma_round_len(key, b, 9);
        lemma_xor_is_one_to_one(
            shift_rows(sub_bytes(p)),
            shift_rows(sub_bytes(q)),
            round_key(key, 10),
        );
        lemma_shift_is_one_to_one(sub_bytes(p), sub_bytes(q));
        lemma_sub_is_one_to_one(p, q);
        lemma_rounds_are_one_to_one(key, a, b, 9);
    }
}

// ---------------------------------------------------------------------------
// CMAC as RFC 4493 defines it, and the counter stream
// ---------------------------------------------------------------------------

/// A block of zeros.
pub open spec fn zero_block() -> Seq<u8> {
    Seq::new(16, |i: int| 0u8)
}

/// A block shifted left by one bit.
pub open spec fn shifted_left(block: Seq<u8>) -> Seq<u8> {
    Seq::new(
        16,
        |i: int|
            (2 * block[i] % 0x100 + (if i < 15 {
                block[i + 1] / 0x80
            } else {
                0
            })) as u8,
    )
}

/// The subkey step: shift left by one, and reduce by the polynomial where a
/// bit falls out of the block.
pub open spec fn subkey_step(block: Seq<u8>) -> Seq<u8> {
    let shifted = shifted_left(block);
    if block[0] >= 0x80 {
        shifted.update(15, shifted[15] ^ 0x87)
    } else {
        shifted
    }
}

/// The subkey of a message whose last block is whole.
pub open spec fn subkey_one(key: Seq<u8>) -> Seq<u8> {
    subkey_step(cipher(key, zero_block()))
}

/// The subkey of a message whose last block is padded.
pub open spec fn subkey_two(key: Seq<u8>) -> Seq<u8> {
    subkey_step(subkey_one(key))
}

/// How many blocks a message of `len` bytes is: one at least.
pub open spec fn block_count(len: nat) -> nat {
    if len == 0 {
        1
    } else {
        (len + 15) / 16
    }
}

/// A cut block, padded to a whole one: a bit set, then zeros.
pub open spec fn padded(tail: Seq<u8>) -> Seq<u8> {
    Seq::new(
        16,
        |i: int|
            if i < tail.len() {
                tail[i]
            } else if i == tail.len() {
                0x80u8
            } else {
                0u8
            },
    )
}

/// The last block of `message` as CMAC takes it: under the first subkey where
/// it is whole, else padded and under the second.
pub open spec fn last_block(key: Seq<u8>, message: Seq<u8>) -> Seq<u8> {
    let tail = message.skip(16 * (block_count(message.len()) - 1));
    if tail.len() == 16 {
        xor_bytes(tail, subkey_one(key))
    } else {
        xor_bytes(padded(tail), subkey_two(key))
    }
}

/// The chaining value once the first `n` blocks of `message` have passed.
pub open spec fn chained(key: Seq<u8>, message: Seq<u8>, n: nat) -> Seq<u8>
    decreases n,
{
    if n == 0 {
        zero_block()
    } else {
        cipher(
            key,
            xor_bytes(
                message.subrange(16 * (n - 1), 16 * n as int),
                chained(key, message, (n - 1) as nat),
            ),
        )
    }
}

/// AES-CMAC of `message` under `key`.
#[verifier::opaque]
pub open spec fn cmac_of(key: Seq<u8>, message: Seq<u8>) -> Seq<u8> {
    cipher(
        key,
        xor_bytes(
            last_block(key, message),
            chained(key, message, (block_count(message.len()) - 1) as nat),
        ),
    )
}

/// Counter block `index`: `first` with its last byte counting from one, and
/// staying at the most a byte holds.
pub open spec fn counter_block(first: Seq<u8>, index: int) -> Seq<u8> {
    first.update(
        15,
        if index + 1 < 0xff {
            (index + 1) as u8
        } else {
            0xffu8
        },
    )
}

/// A block stays sixteen bytes under the cipher.
pub proof fn lemma_cipher_len(key: Seq<u8>, block: Seq<u8>)
    ensures
        cipher(key, block).len() == 16,
{
    reveal(cipher);
}

/// A CMAC is sixteen bytes.
pub proof fn lemma_cmac_len(key: Seq<u8>, message: Seq<u8>)
    ensures
        cmac_of(key, message).len() == 16,
{
    reveal(cmac_of);
    lemma_cipher_len(
        key,
        xor_bytes(
            last_block(key, message),
            chained(key, message, (block_count(message.len()) - 1) as nat),
        ),
    );
}

/// Byte `i` of the key stream.
pub open spec fn stream_byte(key: Seq<u8>, first: Seq<u8>, i: int) -> u8 {
    cipher(key, counter_block(first, i / 16))[i % 16]
}

/// `bytes` under the key stream of the counter blocks of `first`.
pub open spec fn under_stream(key: Seq<u8>, first: Seq<u8>, bytes: Seq<u8>) -> Seq<u8> {
    Seq::new(bytes.len(), |i: int| bytes[i] ^ stream_byte(key, first, i))
}

/// The counter stream is its own inverse: under the same key and first block,
/// what it was put on comes back.
pub proof fn stream_is_its_own_inverse(key: Seq<u8>, first: Seq<u8>, bytes: Seq<u8>)
    ensures
        under_stream(key, first, under_stream(key, first, bytes)) == bytes,
{
    let once = under_stream(key, first, bytes);
    assert forall|i: int| 0 <= i < bytes.len() implies #[trigger] under_stream(key, first, once)[i]
        == bytes[i] by {
        let b = bytes[i];
        let s = stream_byte(key, first, i);
        assert((b ^ s) ^ s == b) by (bit_vector);
    }
    assert(under_stream(key, first, once) =~= bytes);
}

// ---------------------------------------------------------------------------
// CMAC and the counter stream
// ---------------------------------------------------------------------------

/// The CMAC subkey step: shift left by one and reduce by the polynomial.
fn double(block: &[u8; BLOCK]) -> (out: [u8; BLOCK])
    ensures
        out@ == subkey_step(block@),
{
    let mut out = [0u8; BLOCK];
    let mut carry: u8 = 0;
    let mut left: usize = BLOCK;
    while left > 0
        invariant
            left <= BLOCK,
            carry == (if left < 16 {
                block@[left as int] / 0x80
            } else {
                0
            }),
            forall|i: int| left <= i < 16 ==> #[trigger] out@[i] == shifted_left(block@)[i],
        decreases left,
    {
        let at: usize = left - 1;
        let byte = block[at];
        proof {
            assert(byte >> 7 == byte / 0x80 && (carry <= 1 ==> (byte << 1) | carry == 2 * byte % 0x100
                + carry)) by (bit_vector);
        }
        out[at] = (byte << 1) | carry;
        carry = byte >> 7;
        left = at;
    }
    assert(out@ =~= shifted_left(block@));
    let top = block[0];
    assert(top & 0x80 != 0 <==> top >= 0x80) by (bit_vector);
    if top & 0x80 != 0 {
        out[BLOCK - 1] = out[BLOCK - 1] ^ 0x87;
    }
    out
}

/// A block of zeros.
fn zeros() -> (block: [u8; BLOCK])
    ensures
        block@ == zero_block(),
{
    let block = [0, 0, 0, 0, 0, 0, 0, 0, 0, 0, 0, 0, 0, 0, 0, 0];
    assert(block@ =~= zero_block());
    block
}

/// AES-CMAC of `message` under `key`, RFC 4493.
pub fn cmac(key: &[u8; BLOCK], message: &[u8]) -> (mac: [u8; BLOCK])
    ensures
        mac@ == cmac_of(key@, message@),
{
    let zero = zeros();
    let k1 = double(&encrypt(key, &zero));
    let k2 = double(&k1);
    let mut mac = zero;
    let mut at: usize = 0;
    let ghost mut n: nat = 0;
    while message.len() - at > BLOCK
        invariant
            at == 16 * n,
            at <= message@.len(),
            n == 0 || at < message@.len(),
            mac@ == chained(key@, message@, n),
        decreases message@.len() - at,
    {
        let block = block_at(message, at);
        mac = encrypt(key, &add_block(&block, &mac));
        at += BLOCK;
        proof {
            n = n + 1;
        }
    }
    proof {
        let len = message@.len();
        assert(n == block_count(len) - 1) by {
            if len > 0 {
                assert((len + 15) / 16 == n + 1) by (nonlinear_arith)
                    requires
                        16 * n < len <= 16 * n + 16,
                ;
            }
        }
        assert(message@.skip(at as int).len() == len - at);
    }
    let ghost tail = message@.skip(at as int);
    let cut: usize = message.len() - at;
    let last = if cut == BLOCK {
        let block = block_at(message, at);
        assert(block@ == tail);
        add_block(&block, &k1)
    } else {
        let block = padded_at(message, at);
        add_block(&block, &k2)
    };
    assert(last@ == last_block(key@, message@));
    proof {
        reveal(cmac_of);
    }
    encrypt(key, &add_block(&last, &mac))
}

/// The whole block of `message` at `at`.
fn block_at(message: &[u8], at: usize) -> (block: [u8; BLOCK])
    requires
        at + 16 <= message@.len(),
    ensures
        block@ == message@.subrange(at as int, at + 16),
{
    let mut block = [0u8; BLOCK];
    let mut i: usize = 0;
    while i < BLOCK
        invariant
            i <= BLOCK,
            at + 16 <= message.len(),
            forall|j: int| 0 <= j < i ==> block@[j] == message@[at + j],
        decreases BLOCK - i,
    {
        block[i] = message[at + i];
        i += 1;
    }
    assert(block@ =~= message@.subrange(at as int, at + 16));
    block
}

/// What is left of `message` from `at`, less than a block, padded.
fn padded_at(message: &[u8], at: usize) -> (block: [u8; BLOCK])
    requires
        at <= message@.len() < at + 16,
    ensures
        block@ == padded(message@.skip(at as int)),
{
    let mut block = zeros();
    let cut: usize = message.len() - at;
    let mut i: usize = 0;
    while i < cut
        invariant
            i <= cut < 16,
            cut == message.len() - at,
            forall|j: int| 0 <= j < i ==> block@[j] == message@[at + j],
            forall|j: int| i <= j < 16 ==> block@[j] == 0,
        decreases cut - i,
    {
        block[i] = message[at + i];
        i += 1;
    }
    block[cut] = 0x80;
    assert(block@ =~= padded(message@.skip(at as int)));
    block
}

/// `bytes` under the key stream of counter blocks `first` onward, each block
/// `first` with its last byte counting from one: LoRaWAN's `FRMPayload`
/// encryption, which is its own inverse.
pub fn counter(key: &[u8; BLOCK], first: &[u8; BLOCK], bytes: &[u8]) -> (out: Vec<u8>)
    ensures
        out@ == under_stream(key@, first@, bytes@),
{
    let mut out: Vec<u8> = Vec::with_capacity(bytes.len());
    let mut index: usize = 0;
    while out.len() < bytes.len()
        invariant
            out@.len() == bytes@.len() || out@.len() == 16 * index,
            out@.len() <= bytes@.len(),
            forall|i: int|
                0 <= i < out@.len() ==> #[trigger] out@[i] == under_stream(key@, first@, bytes@)[i],
        decreases bytes@.len() - out@.len(),
    {
        let mut block = *first;
        block[BLOCK - 1] = if index < 0xfe {
            (index + 1) as u8
        } else {
            0xff
        };
        assert(block@ == counter_block(first@, index as int));
        let stream = encrypt(key, &block);
        let start: usize = out.len();
        let mut at: usize = 0;
        while at < BLOCK && start + at < bytes.len()
            invariant
                at <= BLOCK,
                start == 16 * index,
                start + at <= bytes@.len(),
                out@.len() == start + at,
                start < bytes@.len(),
                stream@ == cipher(key@, counter_block(first@, index as int)),
                forall|i: int|
                    0 <= i < out@.len() ==> #[trigger] out@[i] == under_stream(
                        key@,
                        first@,
                        bytes@,
                    )[i],
            decreases BLOCK - at,
        {
            proof {
                let i = start + at;
                assert(i / 16 == index && i % 16 == at);
            }
            out.push(bytes[start + at] ^ stream[at]);
            at += 1;
        }
        index += 1;
    }
    assert(out@ =~= under_stream(key@, first@, bytes@));
    out
}

// ---------------------------------------------------------------------------
// Laws
// ---------------------------------------------------------------------------

/// Adding a byte twice takes it away again.
proof fn lemma_added_twice(x: u8, y: u8)
    ensures
        (x ^ y) ^ y == x,
        (x ^ y) ^ x == y,
        x ^ 0 == x,
        x ^ y == y ^ x,
{
    assert((x ^ y) ^ y == x && (x ^ y) ^ x == y && x ^ 0 == x && x ^ y == y ^ x) by (bit_vector);
}

/// A mixed column is unmixed by the factors fourteen, eleven, thirteen and nine.
pub proof fn mixing_is_undone(column: Seq<u8>, row: int)
    requires
        column.len() == 4,
        0 <= row < 4,
    ensures
        sbox::times(mixed(column, row), 14) ^ sbox::times(mixed(column, (row + 1) % 4), 11)
            ^ sbox::times(mixed(column, (row + 2) % 4), 13) ^ sbox::times(
            mixed(column, (row + 3) % 4),
            9,
        ) == column[row],
{
    lemma_mixed_rows(column);
    let (a, b, c, d) = (
        column[row],
        column[(row + 1) % 4],
        column[(row + 2) % 4],
        column[(row + 3) % 4],
    );
    lemma_unmixed(a, b, c, d);
    assert(mixed(column, row) == mixed_first(a, b, c, d));
    assert(mixed(column, (row + 1) % 4) == mixed_first(b, c, d, a));
    assert(mixed(column, (row + 2) % 4) == mixed_first(c, d, a, b));
    assert(mixed(column, (row + 3) % 4) == mixed_first(d, a, b, c));
}

/// What unmixing makes of a sum is the sum of what it makes of each.
proof fn lemma_unmixing_adds(x: u8, y: u8)
    ensures
        sbox::times(x ^ y, 14) == sbox::times(x, 14) ^ sbox::times(y, 14),
        sbox::times(x ^ y, 11) == sbox::times(x, 11) ^ sbox::times(y, 11),
        sbox::times(x ^ y, 13) == sbox::times(x, 13) ^ sbox::times(y, 13),
        sbox::times(x ^ y, 9) == sbox::times(x, 9) ^ sbox::times(y, 9),
{
    assert(sbox::times(x ^ y, 14) == sbox::times(x, 14) ^ sbox::times(y, 14) && sbox::times(x ^ y, 11)
        == sbox::times(x, 11) ^ sbox::times(y, 11) && sbox::times(x ^ y, 13) == sbox::times(x, 13)
        ^ sbox::times(y, 13) && sbox::times(x ^ y, 9) == sbox::times(x, 9) ^ sbox::times(y, 9))
        by (bit_vector);
}

/// What unmixing makes of the sum of four.
proof fn lemma_unmixing_adds_four(w: u8, x: u8, y: u8, z: u8)
    ensures
        sbox::times(w ^ x ^ y ^ z, 14) == sbox::times(w, 14) ^ sbox::times(x, 14) ^ sbox::times(y, 14)
            ^ sbox::times(z, 14),
        sbox::times(w ^ x ^ y ^ z, 11) == sbox::times(w, 11) ^ sbox::times(x, 11) ^ sbox::times(y, 11)
            ^ sbox::times(z, 11),
        sbox::times(w ^ x ^ y ^ z, 13) == sbox::times(w, 13) ^ sbox::times(x, 13) ^ sbox::times(y, 13)
            ^ sbox::times(z, 13),
        sbox::times(w ^ x ^ y ^ z, 9) == sbox::times(w, 9) ^ sbox::times(x, 9) ^ sbox::times(y, 9)
            ^ sbox::times(z, 9),
{
    lemma_unmixing_adds(w, x);
    lemma_unmixing_adds(w ^ x, y);
    lemma_unmixing_adds(w ^ x ^ y, z);
}

/// What unmixing makes of each byte of a mixed column: in its own place the byte
/// itself, in the others nothing.
proof fn lemma_unmixed_byte(x: u8)
    ensures
        ({
            let two = sbox::times_two(x);
            let three = sbox::times_two(x) ^ x;
            &&& sbox::times(two, 14) ^ sbox::times(x, 11) ^ sbox::times(x, 13) ^ sbox::times(three, 9)
                == x
            &&& sbox::times(three, 14) ^ sbox::times(two, 11) ^ sbox::times(x, 13) ^ sbox::times(x, 9)
                == 0
            &&& sbox::times(x, 14) ^ sbox::times(three, 11) ^ sbox::times(two, 13) ^ sbox::times(x, 9)
                == 0
            &&& sbox::times(x, 14) ^ sbox::times(x, 11) ^ sbox::times(three, 13) ^ sbox::times(two, 9)
                == 0
        }),
{
    let two = sbox::times_two(x);
    let three = sbox::times_two(x) ^ x;
    assert((two == sbox::times_two(x) && three == sbox::times_two(x) ^ x) ==> sbox::times(two, 14)
        ^ sbox::times(x, 11) ^ sbox::times(x, 13) ^ sbox::times(three, 9) == x && sbox::times(three, 14)
        ^ sbox::times(two, 11) ^ sbox::times(x, 13) ^ sbox::times(x, 9) == 0 && sbox::times(x, 14)
        ^ sbox::times(three, 11) ^ sbox::times(two, 13) ^ sbox::times(x, 9) == 0 && sbox::times(x, 14)
        ^ sbox::times(x, 11) ^ sbox::times(three, 13) ^ sbox::times(two, 9) == 0) by (bit_vector);
}

/// Sixteen bytes that cancel but for the first four.
proof fn lemma_cancel(p: Seq<u8>, q: Seq<u8>, r: Seq<u8>, s: Seq<u8>, a: u8)
    requires
        p.len() == 4,
        q.len() == 4,
        r.len() == 4,
        s.len() == 4,
        p[0] ^ q[0] ^ r[0] ^ s[0] == a,
        p[1] ^ q[1] ^ r[1] ^ s[1] == 0,
        p[2] ^ q[2] ^ r[2] ^ s[2] == 0,
        p[3] ^ q[3] ^ r[3] ^ s[3] == 0,
    ensures
        (p[0] ^ p[1] ^ p[2] ^ p[3]) ^ (q[0] ^ q[1] ^ q[2] ^ q[3]) ^ (r[0] ^ r[1] ^ r[2] ^ r[3]) ^ (s[0]
            ^ s[1] ^ s[2] ^ s[3]) == a,
{
    let (p0, p1, p2, p3) = (p[0], p[1], p[2], p[3]);
    let (q0, q1, q2, q3) = (q[0], q[1], q[2], q[3]);
    let (r0, r1, r2, r3) = (r[0], r[1], r[2], r[3]);
    let (s0, s1, s2, s3) = (s[0], s[1], s[2], s[3]);
    assert((p0 ^ p1 ^ p2 ^ p3) ^ (q0 ^ q1 ^ q2 ^ q3) ^ (r0 ^ r1 ^ r2 ^ r3) ^ (s0 ^ s1 ^ s2 ^ s3) == a)
        by (bit_vector)
        requires
            p0 ^ q0 ^ r0 ^ s0 == a,
            p1 ^ q1 ^ r1 ^ s1 == 0,
            p2 ^ q2 ^ r2 ^ s2 == 0,
            p3 ^ q3 ^ r3 ^ s3 == 0,
    ;
}

/// Unmixing gives back the first byte of a column.
proof fn lemma_unmixed(a: u8, b: u8, c: u8, d: u8)
    ensures
        sbox::times(mixed_first(a, b, c, d), 14) ^ sbox::times(mixed_first(b, c, d, a), 11)
            ^ sbox::times(mixed_first(c, d, a, b), 13) ^ sbox::times(mixed_first(d, a, b, c), 9) == a,
{
    let (a2, b2, c2, d2) = (
        sbox::times_two(a),
        sbox::times_two(b),
        sbox::times_two(c),
        sbox::times_two(d),
    );
    let (a3, b3, c3, d3) = (a2 ^ a, b2 ^ b, c2 ^ c, d2 ^ d);
    lemma_unmixed_byte(a);
    lemma_unmixed_byte(b);
    lemma_unmixed_byte(c);
    lemma_unmixed_byte(d);
    lemma_unmixing_adds_four(a2, b3, c, d);
    lemma_unmixing_adds_four(b2, c3, d, a);
    lemma_unmixing_adds_four(c2, d3, a, b);
    lemma_unmixing_adds_four(d2, a3, b, c);
    let e = |x: u8| sbox::times(x, 14);
    let b_ = |x: u8| sbox::times(x, 11);
    let d_ = |x: u8| sbox::times(x, 13);
    let n = |x: u8| sbox::times(x, 9);
    let (e0, e1, e2, e3) = (e(a2), e(b3), e(c), e(d));
    let (f0, f1, f2, f3) = (b_(b2), b_(c3), b_(d), b_(a));
    let (g0, g1, g2, g3) = (d_(c2), d_(d3), d_(a), d_(b));
    let (h0, h1, h2, h3) = (n(d2), n(a3), n(b), n(c));
    lemma_cancel(
        seq![e0, e1, e2, e3],
        seq![f3, f0, f1, f2],
        seq![g2, g3, g0, g1],
        seq![h1, h2, h3, h0],
        a,
    );
    assert(f3 ^ f0 ^ f1 ^ f2 == f0 ^ f1 ^ f2 ^ f3 && g2 ^ g3 ^ g0 ^ g1 == g0 ^ g1 ^ g2 ^ g3 && h1 ^ h2
        ^ h3 ^ h0 == h0 ^ h1 ^ h2 ^ h3) by (bit_vector);
}

/// The ten round constants.
pub proof fn round_constants_double()
    ensures
        round_constant(1) == 0x01,
        round_constant(2) == 0x02,
        round_constant(3) == 0x04,
        round_constant(4) == 0x08,
        round_constant(5) == 0x10,
        round_constant(6) == 0x20,
        round_constant(7) == 0x40,
        round_constant(8) == 0x80,
        round_constant(9) == 0x1b,
        round_constant(10) == 0x36,
{
    reveal_with_fuel(round_constant, 11);
    lemma_added_twice(0x1b, 0);
    lemma_added_twice(0, 0x1b);
}

/// The key schedule runs on from the key: a word added to the one four before it
/// is the word before it, which at the start of a round is turned by a byte, put
/// through the S-box and given the round constant.
pub proof fn schedule_runs_on(key: Seq<u8>, i: nat, j: int)
    requires
        key.len() == 16,
        0 <= j < 4,
    ensures
        schedule_word(key, i).len() == 4,
        i < 4 ==> schedule_word(key, i)[j] == key[4 * i + j],
        i >= 4 && i % 4 != 0 ==> schedule_word(key, i)[j] ^ schedule_word(key, (i - 4) as nat)[j]
            == schedule_word(key, (i - 1) as nat)[j],
        i >= 4 && i % 4 == 0 ==> schedule_word(key, i)[j] ^ schedule_word(key, (i - 4) as nat)[j]
            == sbox::sub_byte(schedule_word(key, (i - 1) as nat)[(j + 1) % 4]) ^ (if j == 0 {
            round_constant(i / 4)
        } else {
            0
        }),
        i % 4 == 0 && j == 0 ==> round_key(key, i / 4).len() == 16,
        round_key(key, i / 4)[4 * (i % 4) as int + j] == schedule_word(key, i)[j],
{
    lemma_schedule_word_len(key, i);
    lemma_schedule_word_len(key, 4 * (i / 4));
    lemma_schedule_word_len(key, 4 * (i / 4) + 1);
    lemma_schedule_word_len(key, 4 * (i / 4) + 2);
    lemma_schedule_word_len(key, 4 * (i / 4) + 3);
    if i >= 4 {
        let back = schedule_word(key, (i - 4) as nat);
        let last = schedule_word(key, (i - 1) as nat);
        lemma_schedule_word_len(key, (i - 4) as nat);
        lemma_schedule_word_len(key, (i - 1) as nat);
        let turned = sub_bytes(seq![last[1], last[2], last[3], last[0]]);
        let added = if i % 4 == 0 {
            turned.update(0, turned[0] ^ round_constant(i / 4))
        } else {
            last
        };
        assert(schedule_word(key, i)[j] == back[j] ^ added[j]);
        lemma_added_twice(back[j], added[j]);
        lemma_added_twice(sbox::sub_byte(last[(j + 1) % 4]), 0);
    }
}

/// Every round can be taken back: less its key and unmixed, the state is the one
/// before it, through the S-box, each row turned by its number.
pub proof fn rounds_are_undone(key: Seq<u8>, block: Seq<u8>, round: nat, column: int, row: int)
    requires
        key.len() == 16,
        block.len() == 16,
        0 <= column < 4,
        0 <= row < 4,
    ensures
        after_round(key, block, round).len() == 16,
        after_round(key, block, 0)[4 * column + row] == block[4 * column + row] ^ key[4 * column
            + row],
        round >= 1 ==> {
            let less = |r: int|
                after_round(key, block, round)[4 * column + r % 4] ^ round_key(key, round)[4 * column
                    + r % 4];
            sbox::times(less(row), 14) ^ sbox::times(less(row + 1), 11) ^ sbox::times(
                less(row + 2),
                13,
            ) ^ sbox::times(less(row + 3), 9) == sbox::sub_byte(
                after_round(key, block, (round - 1) as nat)[4 * ((column + row) % 4) + row],
            )
        },
        cipher(key, block).len() == 16,
        cipher(key, block)[4 * column + row] ^ round_key(key, 10)[4 * column + row]
            == sbox::sub_byte(after_round(key, block, 9)[4 * ((column + row) % 4) + row]),
{
    reveal(cipher);
    let at = 4 * column + row;
    lemma_round_len(key, block, round);
    lemma_round_len(key, block, 9);
    assert(round_key(key, 0)[at] == key[at]) by {
        schedule_runs_on(key, column as nat, row);
        assert(4 * ((column as nat) % 4) as int + row == at);
    }
    assert(at / 4 == column && at % 4 == row);
    let last = sub_bytes(after_round(key, block, 9));
    assert(shift_rows(last)[at] == last[4 * ((column + row) % 4) + row]);
    lemma_added_twice(shift_rows(last)[at], round_key(key, 10)[at]);
    if round >= 1 {
        let before = sub_bytes(after_round(key, block, (round - 1) as nat));
        lemma_round_len(key, block, (round - 1) as nat);
        let state = shift_rows(before);
        let mixed_state = mix_columns(state);
        let bytes = state.subrange(4 * column, 4 * column + 4);
        assert forall|r: int| 0 <= r < 4 implies (#[trigger] after_round(key, block, round)[4
            * column + r]) ^ round_key(key, round)[4 * column + r] == mixed(bytes, r) by {
            let i = 4 * column + r;
            assert(i / 4 == column && i % 4 == r && i / 4 * 4 == 4 * column);
            assert(mixed_state[i] == mixed(bytes, r));
            lemma_added_twice(mixed_state[i], round_key(key, round)[i]);
        }
        mixing_is_undone(bytes, row);
        assert(bytes[row] == state[at]);
        assert(state[at] == before[4 * ((column + row) % 4) + row]);
        let s = after_round(key, block, round);
        let k = round_key(key, round);
        assert(s[4 * column + (row + 1) % 4] ^ k[4 * column + (row + 1) % 4] == mixed(
            bytes,
            (row + 1) % 4,
        ));
        assert(s[4 * column + (row + 2) % 4] ^ k[4 * column + (row + 2) % 4] == mixed(
            bytes,
            (row + 2) % 4,
        ));
        assert(s[4 * column + (row + 3) % 4] ^ k[4 * column + (row + 3) % 4] == mixed(
            bytes,
            (row + 3) % 4,
        ));
        assert(s[4 * column + row % 4] ^ k[4 * column + row % 4] == mixed(bytes, row));
    }
}

/// The subkey step doubles: every bit moves up by one, and the bit that falls out
/// comes back as the polynomial.
pub proof fn subkey_step_doubles(block: Seq<u8>, i: int)
    requires
        block.len() == 16,
        0 <= i < 16,
    ensures
        subkey_step(block).len() == 16,
        i < 15 ==> subkey_step(block)[i] == (block[i] << 1) | (block[i + 1] >> 7),
        subkey_step(block)[15] == (block[15] << 1) ^ (if block[0] & 0x80 != 0 {
            0x87
        } else {
            0
        }),
{
    let (x, y, top, low) = (block[i], block[(i + 1) % 16], block[0], block[15]);
    assert((x << 1) | (y >> 7) == 2 * x % 0x100 + y / 0x80 && low << 1 == 2 * low % 0x100 && (low << 1)
        ^ 0 == low << 1 && (top & 0x80 != 0 <==> top >= 0x80)) by (bit_vector);
}

/// Every block of a message goes through the cipher in its turn, added to what
/// the blocks before it came to.
pub proof fn every_block_is_chained(key: Seq<u8>, message: Seq<u8>, n: nat)
    requires
        16 * n <= message.len(),
    ensures
        chained(key, message, 0) == Seq::new(16, |i: int| 0u8),
        chained(key, message, n).len() == 16,
        n >= 1 ==> chained(key, message, n) == cipher(
            key,
            Seq::new(
                16,
                |i: int| message[16 * (n - 1) + i] ^ chained(key, message, (n - 1) as nat)[i],
            ),
        ),
{
    lemma_chained_len(key, message, n);
    if n >= 1 {
        let block = message.subrange(16 * (n - 1), 16 * n as int);
        let before = chained(key, message, (n - 1) as nat);
        assert(xor_bytes(block, before) =~= Seq::new(16, |i: int| message[16 * (n - 1) + i] ^ before[i]));
    }
}

/// A chaining value is sixteen bytes.
proof fn lemma_chained_len(key: Seq<u8>, message: Seq<u8>, n: nat)
    ensures
        chained(key, message, n).len() == 16,
{
    if n > 0 {
        lemma_cipher_len(
            key,
            xor_bytes(
                message.subrange(16 * (n - 1), 16 * n as int),
                chained(key, message, (n - 1) as nat),
            ),
        );
    }
}

/// The CMAC of a message of `n` blocks, the empty one being one: its last block,
/// where it is cut a bit set and zeros behind it, is added to what the blocks
/// before it came to and to a subkey, the first for a whole block and the second
/// for a cut one, and goes through the cipher.
pub proof fn mac_ends_with_the_last_block(key: Seq<u8>, message: Seq<u8>, n: nat)
    requires
        n >= 1,
        message.len() <= 16 * n,
        16 * (n - 1) < message.len() || (message.len() == 0 && n == 1),
    ensures
        ({
            let one = subkey_step(cipher(key, Seq::new(16, |i: int| 0u8)));
            let two = subkey_step(one);
            cmac_of(key, message) == cipher(
                key,
                Seq::new(
                    16,
                    |i: int|
                        (if 16 * (n - 1) + i < message.len() {
                            message[16 * (n - 1) + i]
                        } else if 16 * (n - 1) + i == message.len() {
                            0x80u8
                        } else {
                            0u8
                        }) ^ (if message.len() == 16 * n {
                            one[i]
                        } else {
                            two[i]
                        }) ^ chained(key, message, (n - 1) as nat)[i],
                ),
            )
        }),
{
    reveal(cmac_of);
    let len = message.len();
    assert(block_count(len) == n) by {
        if len > 0 {
            assert((len + 15) / 16 == n) by (nonlinear_arith)
                requires
                    16 * (n - 1) < len <= 16 * n,
            ;
        }
    }
    let one = subkey_step(cipher(key, Seq::new(16, |i: int| 0u8)));
    let two = subkey_step(one);
    assert(zero_block() =~= Seq::new(16, |i: int| 0u8));
    let tail = message.skip(16 * (n - 1));
    let chain = chained(key, message, (n - 1) as nat);
    lemma_chained_len(key, message, (n - 1) as nat);
    let stated = Seq::new(
        16,
        |i: int|
            (if 16 * (n - 1) + i < len {
                message[16 * (n - 1) + i]
            } else if 16 * (n - 1) + i == len {
                0x80u8
            } else {
                0u8
            }) ^ (if len == 16 * n {
                one[i]
            } else {
                two[i]
            }) ^ chain[i],
    );
    assert(tail.len() == len - 16 * (n - 1));
    assert(xor_bytes(last_block(key, message), chain) =~= stated);
}

/// Messages of one length that differ in exactly one block have different CMACs.
pub proof fn one_block_changes_the_mac(key: Seq<u8>, a: Seq<u8>, b: Seq<u8>, n: nat)
    requires
        a.len() == b.len(),
        a != b,
        forall|i: int| 0 <= i < a.len() && i / 16 != n ==> #[trigger] a[i] == b[i],
    ensures
        cmac_of(key, a) != cmac_of(key, b),
{
    reveal(cmac_of);
    let len = a.len();
    let count = block_count(len);
    let last = (count - 1) as nat;
    assert(len > 0) by {
        if len == 0 {
            assert(a =~= b);
        }
    }
    assert(16 * last < len <= 16 * last + 16);
    if forall|i: int| 0 <= i < len ==> a[i] == b[i] {
        assert(a =~= b);
    }
    let at = choose|i: int| 0 <= i < len && a[i] != b[i];
    assert(at / 16 == n);
    assert(n <= last);
    lemma_chained_len(key, a, last);
    lemma_chained_len(key, b, last);
    lemma_last_block_len(key, a);
    lemma_last_block_len(key, b);
    lemma_chains_meet(key, a, b, n, last);
    let (ta, tb) = (a.skip(16 * last as int), b.skip(16 * last as int));
    let x = xor_bytes(last_block(key, a), chained(key, a, last));
    let y = xor_bytes(last_block(key, b), chained(key, b, last));
    if x == y {
        if n == last {
            lemma_xor_is_one_to_one(
                last_block(key, a),
                last_block(key, b),
                chained(key, a, last),
            );
            lemma_last_block_is_one_to_one(key, a, b);
            assert(ta[at - 16 * last] == tb[at - 16 * last]);
        } else {
            assert(ta =~= tb) by {
                assert forall|i: int| 0 <= i < ta.len() implies ta[i] == tb[i] by {
                    assert((16 * last + i) / 16 == last);
                    assert(a[16 * last + i] == b[16 * last + i]);
                }
            }
            lemma_xor_swaps(last_block(key, a), chained(key, a, last));
            lemma_xor_swaps(last_block(key, b), chained(key, b, last));
            lemma_xor_is_one_to_one(
                chained(key, a, last),
                chained(key, b, last),
                last_block(key, a),
            );
        }
    }
    cipher_is_one_to_one(key, x, y);
}

/// A last block is sixteen bytes.
proof fn lemma_last_block_len(key: Seq<u8>, message: Seq<u8>)
    ensures
        last_block(key, message).len() == 16,
{
}

/// Sixteen bytes can be added in either order.
proof fn lemma_xor_swaps(a: Seq<u8>, b: Seq<u8>)
    requires
        a.len() == b.len(),
    ensures
        xor_bytes(a, b) == xor_bytes(b, a),
{
    assert forall|i: int| 0 <= i < a.len() implies #[trigger] xor_bytes(a, b)[i] == xor_bytes(
        b,
        a,
    )[i] by {
        lemma_added_twice(a[i], b[i]);
    }
    assert(xor_bytes(a, b) =~= xor_bytes(b, a));
}

/// The last blocks of messages of one length tell their tails apart.
proof fn lemma_last_block_is_one_to_one(key: Seq<u8>, a: Seq<u8>, b: Seq<u8>)
    requires
        a.len() == b.len(),
        last_block(key, a) == last_block(key, b),
    ensures
        a.skip(16 * (block_count(a.len()) - 1)) == b.skip(16 * (block_count(a.len()) - 1)),
{
    let start = 16 * (block_count(a.len()) - 1);
    let (p, q) = (a.skip(start), b.skip(start));
    if p.len() == 16 {
        lemma_xor_is_one_to_one(p, q, subkey_one(key));
    } else {
        lemma_xor_is_one_to_one(padded(p), padded(q), subkey_two(key));
        assert forall|i: int| 0 <= i < p.len() implies p[i] == q[i] by {
            assert(padded(p)[i] == p[i] && padded(q)[i] == q[i]);
        }
        assert(p =~= q);
    }
}

/// Up to the block in which two messages differ their chains are the same, and
/// past it they differ for good.
proof fn lemma_chains_meet(key: Seq<u8>, a: Seq<u8>, b: Seq<u8>, n: nat, m: nat)
    requires
        a.len() == b.len(),
        16 * m < a.len(),
        forall|i: int| 0 <= i < a.len() && i / 16 != n ==> #[trigger] a[i] == b[i],
        exists|i: int| 0 <= i < a.len() && a[i] != b[i],
    ensures
        m <= n ==> chained(key, a, m) == chained(key, b, m),
        m > n ==> chained(key, a, m) != chained(key, b, m),
    decreases m,
{
    if m > 0 {
        let before = (m - 1) as nat;
        lemma_chains_meet(key, a, b, n, before);
        lemma_chained_len(key, a, before);
        lemma_chained_len(key, b, before);
        let (p, q) = (a.subrange(16 * (m - 1), 16 * m as int), b.subrange(16 * (m - 1), 16 * m as int));
        let (c, d) = (chained(key, a, before), chained(key, b, before));
        if before != n {
            assert(p =~= q) by {
                assert forall|i: int| 0 <= i < 16 implies p[i] == q[i] by {
                    assert((16 * before + i) / 16 == before);
                    assert(a[16 * before + i] == b[16 * before + i]);
                }
            }
        }
        if m > n {
            let (x, y) = (xor_bytes(p, c), xor_bytes(q, d));
            if x == y {
                if before == n {
                    lemma_xor_is_one_to_one(p, q, c);
                    let at = choose|i: int| 0 <= i < a.len() && a[i] != b[i];
                    assert(at / 16 == n);
                    assert(p[at - 16 * n] == q[at - 16 * n]);
                } else {
                    lemma_xor_swaps(p, c);
                    lemma_xor_swaps(q, d);
                    lemma_xor_is_one_to_one(c, d, p);
                }
            }
            cipher_is_one_to_one(key, x, y);
        }
    }
}

/// Byte `i` under the counter stream is the byte added to byte `i % 16` of the
/// cipher of the first block with its last byte set to `i / 16 + 1`, or to the
/// most a byte holds past that.
pub proof fn stream_counts_its_blocks(key: Seq<u8>, first: Seq<u8>, bytes: Seq<u8>, i: int)
    requires
        0 <= i < bytes.len(),
    ensures
        under_stream(key, first, bytes).len() == bytes.len(),
        i < 16 * 255 ==> under_stream(key, first, bytes)[i] == bytes[i] ^ cipher(
            key,
            first.update(15, (i / 16 + 1) as u8),
        )[i % 16],
        i >= 16 * 255 ==> under_stream(key, first, bytes)[i] == bytes[i] ^ cipher(
            key,
            first.update(15, 0xff),
        )[i % 16],
{
}

/// No block of the key stream comes twice while the count lasts.
pub proof fn stream_blocks_differ(key: Seq<u8>, first: Seq<u8>, i: int, j: int)
    requires
        first.len() == 16,
        0 <= i < j < 255,
    ensures
        Seq::new(16, |k: int| stream_byte(key, first, 16 * i + k)) != Seq::new(
            16,
            |k: int| stream_byte(key, first, 16 * j + k),
        ),
{
    let (x, y) = (first.update(15, (i + 1) as u8), first.update(15, (j + 1) as u8));
    assert(x[15] != y[15]);
    cipher_is_one_to_one(key, x, y);
    lemma_cipher_len(key, x);
    lemma_cipher_len(key, y);
    let p = Seq::new(16, |k: int| stream_byte(key, first, 16 * i + k));
    let q = Seq::new(16, |k: int| stream_byte(key, first, 16 * j + k));
    assert forall|k: int| 0 <= k < 16 implies #[trigger] p[k] == cipher(key, x)[k] && q[k] == cipher(
        key,
        y,
    )[k] by {
        assert((16 * i + k) / 16 == i && (16 * i + k) % 16 == k);
        assert((16 * j + k) / 16 == j && (16 * j + k) % 16 == k);
    }
    assert(p =~= cipher(key, x));
    assert(q =~= cipher(key, y));
}

} // verus!
