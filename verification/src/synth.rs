//! Synthetic data, covering the range from fully repetitive to incompressible.
//!
//! Each generator is the start of one endless byte sequence, so that a shorter
//! text is always a prefix of a longer one.

use vstd::arithmetic::div_mod::lemma_add_mod_noop;
use vstd::arithmetic::div_mod::lemma_small_mod;
use vstd::prelude::*;

verus! {

/// The state that the palette generator starts from.
pub const PALETTE_SEED: u32 = 0x9E37_79B1;

/// The state that the noise generator starts from.
pub const NOISE_SEED: u64 = 0x0123_4567_89AB_CDEF;

/// The text of `n` zero bytes.
pub open spec fn solid(n: nat) -> Seq<u8> {
    Seq::new(n, |i: int| 0u8)
}

/// The text of `n` bytes that goes through the values below eight in turn, each
/// for sixty-four bytes, over and over.
pub open spec fn run_length(n: nat) -> Seq<u8> {
    Seq::new(n, |i: int| ((i / 64) % 8) as u8)
}

/// The palette generator's state after `state`: a linear congruence modulo two
/// to the thirty-second.
pub open spec fn palette_next(state: u32) -> u32 {
    ((state * 1103515245 + 12345) % 0x1_0000_0000) as u32
}

/// The byte of the run that `state` stands for: one of sixteen.
pub open spec fn palette_byte(state: u32) -> u8 {
    ((state / 0x100_0000) % 16) as u8
}

/// The length of the run that `state` stands for: from sixteen to forty-seven.
pub open spec fn palette_run(state: u32) -> nat {
    (16 + (state / 0x1_0000) % 32) as nat
}

/// The next `n` bytes of the palette generator in state `state`: run after run,
/// the last one cut short where the bytes end.
pub open spec fn palette_from(state: u32, n: nat) -> Seq<u8>
    decreases n,
{
    let next = palette_next(state);
    if n <= palette_run(next) {
        Seq::new(n, |i: int| palette_byte(next))
    } else {
        Seq::new(palette_run(next), |i: int| palette_byte(next)) + palette_from(
            next,
            (n - palette_run(next)) as nat,
        )
    }
}

/// The text of `n` bytes in runs of one of sixteen values.
pub open spec fn palette16(n: nat) -> Seq<u8> {
    palette_from(PALETTE_SEED, n)
}

/// The noise generator's state after `state`: a linear congruence modulo two to
/// the sixty-fourth.
pub open spec fn noise_next(state: u64) -> u64 {
    ((state * 6364136223846793005 + 1442695040888963407) % 0x1_0000_0000_0000_0000) as u64
}

/// The noise generator's state after `k` steps.
pub open spec fn noise_state(k: nat) -> u64
    decreases k,
{
    if k == 0 {
        NOISE_SEED
    } else {
        noise_next(noise_state((k - 1) as nat))
    }
}

/// The highest byte of a state.
pub open spec fn noise_byte(state: u64) -> u8 {
    (state / 0x100_0000_0000_0000) as u8
}

/// The text of `n` bytes of noise: the highest byte of each state.
pub open spec fn random(n: nat) -> Seq<u8> {
    Seq::new(n, |i: int| noise_byte(noise_state((i + 1) as nat)))
}

/// A product and a sum, each reduced modulo `m` as it is made, are their exact
/// value reduced once.
proof fn lemma_reduced_once(x: int, c: int, m: int)
    requires
        0 < m,
        0 <= c < m,
    ensures
        (x % m + c) % m == (x + c) % m,
{
    lemma_small_mod(c as nat, m as nat);
    lemma_add_mod_noop(x, c, m);
}

/// A run, or as much of it as there is room for, and then what follows it.
proof fn lemma_palette_cut(state: u32, n: nat, k: nat)
    requires
        k == if n <= palette_run(palette_next(state)) {
            n
        } else {
            palette_run(palette_next(state))
        },
    ensures
        palette_from(state, n) == Seq::new(k, |i: int| palette_byte(palette_next(state)))
            + palette_from(palette_next(state), (n - k) as nat),
{
    let next = palette_next(state);
    if n <= palette_run(next) {
        assert(palette_from(next, 0) =~= Seq::empty());
        assert(palette_from(state, n) =~= Seq::new(k, |i: int| palette_byte(next))
            + palette_from(next, 0));
    }
}

/// One step of the palette generator.
fn palette_step(state: u32) -> (next: u32)
    ensures
        next == palette_next(state),
{
    let next = state.wrapping_mul(1103515245).wrapping_add(12345);
    proof {
        lemma_reduced_once(state * 1103515245, 12345, 0x1_0000_0000);
    }
    next
}

/// One step of the noise generator.
fn noise_step(state: u64) -> (next: u64)
    ensures
        next == noise_next(state),
{
    let next = state.wrapping_mul(6364136223846793005).wrapping_add(1442695040888963407);
    proof {
        lemma_reduced_once(
            state * 6364136223846793005,
            1442695040888963407,
            0x1_0000_0000_0000_0000,
        );
    }
    next
}

/// `n` zero bytes.
pub fn make_solid(n: usize) -> (out: Vec<u8>)
    ensures
        out@ == solid(n as nat),
{
    let out = vec![0u8; n];
    assert(out@ =~= solid(n as nat));
    out
}

/// `n` bytes in runs of sixty-four, going through eight values in turn.
pub fn make_run_length(n: usize) -> (out: Vec<u8>)
    ensures
        out@ == run_length(n as nat),
{
    let mut out: Vec<u8> = Vec::with_capacity(n);
    let palette: [u8; 8] = [0, 1, 2, 3, 4, 5, 6, 7];
    let mut i: usize = 0;
    while out.len() < n
        invariant
            i == out@.len(),
            i <= n,
            palette@ == seq![0u8, 1, 2, 3, 4, 5, 6, 7],
            out@ == run_length(i as nat),
        decreases n - i,
    {
        let p = palette[(i / 64) % 8];
        out.push(p);
        i += 1;
        assert(out@ =~= run_length(i as nat));
    }
    out
}

/// `n` bytes in runs of sixteen to forty-seven, each of one of sixteen values.
#[verifier::rlimit(60)]
#[verifier::spinoff_prover]
pub fn make_palette16(n: usize) -> (out: Vec<u8>)
    ensures
        out@ == palette16(n as nat),
{
    let mut out: Vec<u8> = Vec::with_capacity(n);
    let mut state: u32 = PALETTE_SEED;
    while out.len() < n
        invariant
            out@.len() <= n,
            palette16(n as nat) == out@ + palette_from(state, (n - out@.len()) as nat),
        decreases n - out@.len(),
    {
        let ghost before = out@;
        let ghost last = state;
        state = palette_step(state);
        proof {
            let s = state;
            assert((s >> 24) & 0x0F == (s / 0x100_0000) % 16) by (bit_vector);
            assert((s >> 16) & 0x1F == (s / 0x1_0000) % 32) by (bit_vector);
        }
        let base = ((state >> 24) & 0x0F) as u8;
        let run_len = 16 + ((state >> 16) & 0x1F) as usize;
        let ghost room = (n - before.len()) as nat;
        let mut k: usize = 0;
        while k < run_len && out.len() < n
            invariant
                k <= run_len,
                before.len() + k == out@.len(),
                out@.len() <= n,
                out@ == before + Seq::new(k as nat, |i: int| base),
            decreases run_len - k,
        {
            out.push(base);
            k += 1;
            assert(out@ =~= before + Seq::new(k as nat, |i: int| base));
        }
        proof {
            lemma_palette_cut(last, room, k as nat);
            assert(out@ + palette_from(state, (room - k) as nat) =~= before + palette_from(
                last,
                room,
            ));
        }
    }
    out
}

/// `n` bytes of noise.
pub fn make_random(n: usize) -> (out: Vec<u8>)
    ensures
        out@ == random(n as nat),
{
    let mut out: Vec<u8> = Vec::with_capacity(n);
    let mut state: u64 = NOISE_SEED;
    for i in 0..n
        invariant
            out@ == random(i as nat),
            state == noise_state(i as nat),
    {
        state = noise_step(state);
        proof {
            let s = state;
            assert(s >> 56 == s / 0x100_0000_0000_0000) by (bit_vector);
        }
        out.push((state >> 56) as u8);
        assert(out@ =~= random((i + 1) as nat));
    }
    out
}

proof fn lemma_palette_from(state: u32, m: nat, n: nat)
    requires
        m <= n,
    ensures
        palette_from(state, n).len() == n,
        palette_from(state, m) == palette_from(state, n).take(m as int),
        forall|i: int| 0 <= i < n ==> #[trigger] palette_from(state, n)[i] < 16,
    decreases n,
{
    let next = palette_next(state);
    let run = palette_run(next);
    if n > run {
        let rest = (n - run) as nat;
        if m > run {
            lemma_palette_from(next, (m - run) as nat, rest);
        } else {
            lemma_palette_from(next, 0, rest);
        }
    }
    assert(palette_from(state, m) =~= palette_from(state, n).take(m as int));
}

/// A text is as long as it was asked to be.
pub proof fn law_texts_have_the_length_asked_for(n: nat)
    ensures
        solid(n).len() == n,
        run_length(n).len() == n,
        palette16(n).len() == n,
        random(n).len() == n,
{
    lemma_palette_from(PALETTE_SEED, 0, n);
}

/// A shorter text is a prefix of a longer one of its kind.
pub proof fn law_shorter_texts_are_prefixes(m: nat, n: nat)
    requires
        m <= n,
    ensures
        solid(m) == solid(n).take(m as int),
        run_length(m) == run_length(n).take(m as int),
        palette16(m) == palette16(n).take(m as int),
        random(m) == random(n).take(m as int),
{
    lemma_palette_from(PALETTE_SEED, m, n);
    assert(solid(m) =~= solid(n).take(m as int));
    assert(run_length(m) =~= run_length(n).take(m as int));
    assert(random(m) =~= random(n).take(m as int));
}

/// A palette text holds no more than sixteen different bytes.
pub proof fn law_palette_text_has_sixteen_values(n: nat, i: int)
    requires
        0 <= i < n,
    ensures
        palette16(n)[i] < 16,
{
    lemma_palette_from(PALETTE_SEED, 0, n);
}

/// A run-length text repeats itself after eight runs of sixty-four bytes.
pub proof fn law_run_length_text_is_periodic(n: nat, i: int)
    requires
        0 <= i,
        i + 512 < n,
    ensures
        run_length(n)[i] < 8,
        run_length(n)[i + 512] == run_length(n)[i],
{
}

/// A solid text holds no byte but zero.
pub proof fn law_solid_text_is_zero(n: nat, i: int)
    requires
        0 <= i < n,
    ensures
        solid(n)[i] == 0,
{
}

/// The byte of a run-length text tells in which eighth of its 512 bytes it
/// stands, so every value below eight comes up, for sixty-four bytes on end.
pub proof fn law_run_length_byte_tells_its_place(n: nat, i: int)
    requires
        0 <= i < n,
    ensures
        64 * run_length(n)[i] <= i % 512 < 64 * run_length(n)[i] + 64,
{
    let eighths = i / 64;
    assert(i % 512 == 64 * (eighths % 8) + i % 64);
}

/// The byte of a run is the low four bits of the highest byte of its state, and
/// nothing else of the state counts.
pub proof fn law_palette_byte_is_four_bits(state: u32, v: u8)
    requires
        v < 16,
    ensures
        palette_byte(state) == v <==> (state >> 24) & 0x0F == v,
{
    assert((state >> 24) & 0x0F == (state / 0x100_0000) % 16) by (bit_vector);
}

/// Every value below sixteen is the byte of some state.
pub proof fn law_palette_uses_all_sixteen_values(v: u8) -> (state: u32)
    requires
        v < 16,
    ensures
        palette_byte(state) == v,
{
    (v * 0x100_0000) as u32
}

/// The length of a run is sixteen and the low five bits of the third byte of its
/// state.
pub proof fn law_palette_run_is_five_bits(state: u32)
    ensures
        palette_run(state) == 16 + ((state >> 16) & 0x1F),
{
    assert((state >> 16) & 0x1F == (state / 0x1_0000) % 32) by (bit_vector);
}

/// The states of the palette generator follow one another with equal steps: zero
/// goes to 12345, and of two neighbouring states the second goes 1103515245
/// further, modulo two to the thirty-second.
pub proof fn law_palette_states_step_evenly(state: u32)
    ensures
        palette_next(0) == 12345,
        state < u32::MAX ==> (palette_next((state + 1) as u32) - palette_next(state) - 1103515245)
            % 0x1_0000_0000 == 0,
{
    if state < u32::MAX {
        let x = state * 1103515245 + 12345;
        let y = (state + 1) * 1103515245 + 12345;
        lemma_remainders_differ(x, y, 1103515245, 0x1_0000_0000);
    }
}

/// The states of the noise generator follow one another with equal steps: zero
/// goes to 1442695040888963407, and of two neighbouring states the second goes
/// 6364136223846793005 further, modulo two to the sixty-fourth.
pub proof fn law_noise_states_step_evenly(state: u64)
    ensures
        noise_next(0) == 1442695040888963407,
        state < u64::MAX ==> (noise_next((state + 1) as u64) - noise_next(state)
            - 6364136223846793005) % 0x1_0000_0000_0000_0000 == 0,
{
    if state < u64::MAX {
        let x = state * 6364136223846793005 + 1442695040888963407;
        let y = (state + 1) * 6364136223846793005 + 1442695040888963407;
        lemma_remainders_differ(x, y, 6364136223846793005, 0x1_0000_0000_0000_0000);
    }
}

/// Numbers that are `d` apart leave remainders that are `d` apart.
proof fn lemma_remainders_differ(x: int, y: int, d: int, m: int)
    requires
        y == x + d,
        m > 0,
    ensures
        (y % m - x % m - d) % m == 0,
{
    assert((y % m - x % m - d) % m == 0) by (nonlinear_arith)
        requires
            y == x + d,
            m > 0,
    {
        let q = x / m - y / m;
        assert(x == m * (x / m) + x % m);
        assert(y == m * (y / m) + y % m);
        assert(y % m - x % m - d == q * m);
        assert((q * m) % m == 0);
    }
}

/// A palette text is made of runs: the state moves on once, the bytes up to the
/// length of its run are the four bits of its byte, and what follows is the text
/// that the generator goes on with from there.
pub proof fn law_palette_text_is_made_of_runs(state: u32, n: nat, i: int)
    requires
        0 <= i < n,
    ensures
        ({
            let next = palette_next(state);
            let run = 16 + ((next >> 16) & 0x1F);
            if i < run {
                palette_from(state, n)[i] == (next >> 24) & 0x0F
            } else {
                palette_from(state, n)[i] == palette_from(next, (n - run) as nat)[i - run]
            }
        }),
{
    let next = palette_next(state);
    law_palette_run_is_five_bits(next);
    assert(palette_byte(next) < 16 && palette_byte(next) == (next >> 24) & 0x0F) by {
        law_palette_byte_is_four_bits(next, palette_byte(next));
    }
    lemma_palette_byte_at(state, next, palette_run(next), palette_byte(next), n, i);
}

#[verifier::rlimit(60)]
#[verifier::spinoff_prover]
proof fn lemma_palette_byte_at(state: u32, next: u32, run: nat, byte: u8, n: nat, i: int)
    requires
        0 <= i < n,
        next == palette_next(state),
        run == palette_run(next),
        byte == palette_byte(next),
    ensures
        palette_from(state, n)[i] == if i < run {
            byte
        } else {
            palette_from(next, (n - run) as nat)[i - run]
        },
{
    let k = if n <= run {
        n
    } else {
        run
    };
    let head = Seq::new(k, |j: int| palette_byte(palette_next(state)));
    let tail = palette_from(next, (n - k) as nat);
    assert(palette_from(state, n) == head + tail) by {
        lemma_palette_cut(state, n, k);
    }
    assert(tail.len() == n - k) by {
        lemma_palette_from(next, 0, (n - k) as nat);
    }
    if i < k {
        assert((head + tail)[i] == head[i]);
    } else {
        assert((head + tail)[i] == tail[i - k]);
    }
}

/// The palette text is what the generator makes from the state 0x9E3779B1.
pub proof fn law_palette_text_starts_from_its_seed(n: nat)
    ensures
        palette16(n) == palette_from(0x9E37_79B1, n),
{
}

/// A noise text is the highest bytes of states that follow one another: the
/// first is the one behind 0x0123456789ABCDEF.
pub proof fn law_noise_text_is_the_highest_bytes(n: nat, i: int)
    requires
        0 <= i < n,
    ensures
        noise_state(0) == 0x0123_4567_89AB_CDEF,
        noise_state((i + 1) as nat) == noise_next(noise_state(i as nat)),
        random(n)[i] == noise_state((i + 1) as nat) >> 56,
{
    let s = noise_state((i + 1) as nat);
    assert(s >> 56 == s / 0x100_0000_0000_0000) by (bit_vector);
    assert(s / 0x100_0000_0000_0000 < 256) by (bit_vector);
}

} // verus!
