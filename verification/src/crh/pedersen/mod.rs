//! The Pedersen hash on the JubJub curve, and a keyed Blake2s hash.

mod blake2;
pub mod jubjub;

use crate::crh::FixedLengthCRH;
use crate::Error;
use vstd::prelude::*;

verus! {

/// The shape of the Pedersen hash: its input is cut into `NUM_WINDOWS` windows of
/// `WINDOW_SIZE` bits.
pub trait Window {
    const WINDOW_SIZE: usize;
    const NUM_WINDOWS: usize;
}

/// The parameters of the Pedersen hash: for each window, a base point and its
/// successive doublings, each point in its projective encoding.
pub struct Parameters {
    pub generators: Vec<Vec<[u8; 128]>>,
}

impl Parameters {
    /// The generators, each as its byte encoding.
    pub open spec fn generators_view(self) -> Seq<Seq<Seq<u8>>> {
        self.generators@.map_values(|row: Vec<[u8; 128]>| row@.map_values(|g: [u8; 128]| g@))
    }

    /// Parameters that make no field elements for a constraint system: none are needed.
    pub fn to_field_elements(&self) -> (r: Option<Vec<Vec<u8>>>)
        ensures
            r matches Some(v) && v@.len() == 0,
    {
        Some(Vec::new())
    }
}

impl Clone for Parameters {
    /// Copies the generators.
    fn clone(&self) -> (r: Self)
        ensures
            r.generators_view() == self.generators_view(),
            r.generators@.len() == self.generators@.len(),
            forall|i: int| 0 <= i < r.generators@.len() ==> (#[trigger] r.generators@[i])@ == self.generators@[i]@,
    {
        let mut generators: Vec<Vec<[u8; 128]>> = Vec::new();
        let mut i: usize = 0;
        while i < self.generators.len()
            invariant
                i <= self.generators@.len(),
                generators@.len() == i,
                forall|k: int| 0 <= k < i ==> (#[trigger] generators@[k])@ == self.generators@[k]@,
            decreases self.generators@.len() - i,
        {
            let row = &self.generators[i];
            let mut copy: Vec<[u8; 128]> = Vec::new();
            let mut j: usize = 0;
            while j < row.len()
                invariant
                    j <= row@.len(),
                    copy@ == row@.take(j as int),
                decreases row@.len() - j,
            {
                copy.push(row[j]);
                assert(row@.take(j + 1) =~= row@.take(j as int).push(row@[j as int]));
                j += 1;
            }
            assert(row@.take(row@.len() as int) =~= row@);
            generators.push(copy);
            i += 1;
        }
        let r = Parameters { generators };
        assert(r.generators_view() =~= self.generators_view());
        r
    }
}

impl Default for Parameters {
    /// No generators.
    fn default() -> (r: Self)
        ensures
            r.generators@.len() == 0,
    {
        Parameters { generators: Vec::new() }
    }
}

/// The Pedersen hash on JubJub: bit `j` of window `i` of the input, when set, adds the
/// generator `2^j * G_i` to the result.
pub struct CRH<W: Window> {
    window: core::marker::PhantomData<W>,
}

/// The bits of `bytes`, least significant bit of each byte first.
pub open spec fn spec_bytes_to_bits(bytes: Seq<u8>) -> Seq<bool> {
    Seq::new(8 * bytes.len(), |t: int| (bytes[t / 8] >> ((t % 8) as u32)) & 1u8 == 1u8)
}

/// The bits of `bytes`, least significant bit of each byte first.
pub fn bytes_to_bits(bytes: &[u8]) -> (bits: Vec<bool>)
    requires
        bytes.len() * 8 <= usize::MAX,
    ensures
        bits@ == spec_bytes_to_bits(bytes@),
{
    let mut bits: Vec<bool> = Vec::with_capacity(bytes.len() * 8);
    let mut k: usize = 0;
    while k < bytes.len()
        invariant
            k <= bytes.len(),
            bits@.len() == 8 * k,
            forall|t: int|
                0 <= t < bits@.len() ==> #[trigger] bits@[t] == ((bytes@[t / 8] >> ((t % 8) as u32))
                    & 1u8 == 1u8),
        decreases bytes.len() - k,
    {
        let byte = bytes[k];
        let mut i: u32 = 0;
        while i < 8
            invariant
                k < bytes.len(),
                byte == bytes@[k as int],
                i <= 8,
                bits@.len() == 8 * k + i,
                forall|t: int|
                    0 <= t < bits@.len() ==> #[trigger] bits@[t] == ((bytes@[t / 8] >> ((t % 8) as u32))
                        & 1u8 == 1u8),
            decreases 8 - i,
        {
            let bit = (byte >> i) & 1;
            bits.push(bit == 1);
            i += 1;
        }
        k += 1;
    }
    assert(bits@ == spec_bytes_to_bits(bytes@));
    bits
}

/// Whether each point of `row` is the double of the one before it, and each decodes.
pub open spec fn is_doubling_chain(row: Seq<Seq<u8>>) -> bool {
    &&& forall|k: int| 0 <= k < row.len() ==> jubjub::jubjub_decodes(#[trigger] row[k])
    &&& forall|k: int|
        0 <= k < row.len() - 1 ==> #[trigger] row[k + 1] == jubjub::jubjub_double(row[k])@
}

/// The sum of an accumulated point and a generator, none where the generator does not
/// decode.
pub open spec fn add_generator(acc: Seq<u8>, g: Seq<u8>) -> Option<Seq<u8>> {
    if jubjub::jubjub_decodes(g) {
        Some(jubjub::jubjub_add(acc, g)@)
    } else {
        None
    }
}

/// Whether every generator decodes.
pub open spec fn generators_decode(generators: Seq<Seq<Seq<u8>>>) -> bool {
    forall|i: int, k: int|
        0 <= i < generators.len() && 0 <= k < generators[i].len() ==> jubjub::jubjub_decodes(
            #[trigger] generators[i][k],
        )
}

/// The sum of the first `n` powers whose bits are set, added from the first on,
/// starting from the identity.
pub open spec fn window_sum(bits: Seq<bool>, powers: Seq<Seq<u8>>, n: nat) -> Option<Seq<u8>>
    decreases n,
{
    if n == 0 {
        Some(jubjub::projective_zero_encoding())
    } else {
        match window_sum(bits, powers, (n - 1) as nat) {
            None => None,
            Some(acc) => if bits[n - 1] {
                add_generator(acc, powers[n - 1])
            } else {
                Some(acc)
            },
        }
    }
}

/// The bits of window `i`: `w` bits from bit `i * w` on, fewer in a last window that the
/// bits do not fill.
pub open spec fn window_bits(bits: Seq<bool>, w: nat, i: nat) -> Seq<bool> {
    bits.subrange((i * w) as int, if (i + 1) * w < bits.len() { ((i + 1) * w) as int } else {
        bits.len() as int
    })
}

/// The sum of the window sums of the first `n` windows, added from the first on,
/// starting from the identity.
pub open spec fn windows_sum(bits: Seq<bool>, generators: Seq<Seq<Seq<u8>>>, w: nat, n: nat) -> Option<Seq<u8>>
    decreases n,
{
    if n == 0 {
        Some(jubjub::projective_zero_encoding())
    } else {
        match windows_sum(bits, generators, w, (n - 1) as nat) {
            None => None,
            Some(s) => {
                let chunk = window_bits(bits, w, (n - 1) as nat);
                let row = generators[n - 1];
                let len = if chunk.len() < row.len() { chunk.len() } else { row.len() };
                match window_sum(chunk, row, len) {
                    None => None,
                    Some(e) => Some(jubjub::jubjub_add(s, e)@),
                }
            },
        }
    }
}

/// The input, padded with zero bytes to `total_bits / 8` bytes where it has fewer than
/// `total_bits` bits.
pub open spec fn spec_padded_input(input: Seq<u8>, total_bits: nat) -> Seq<u8> {
    if input.len() * 8 < total_bits {
        input + Seq::new((total_bits / 8 - input.len()) as nat, |i: int| 0u8)
    } else {
        input
    }
}

/// The number of windows that `bits_len` bits start, at most `num_generators`.
pub open spec fn window_count(bits_len: nat, w: nat, num_generators: nat) -> nat {
    if w == 0 {
        0
    } else {
        let c = ((bits_len + w - 1) as nat) / w;
        if c < num_generators {
            c
        } else {
            num_generators
        }
    }
}

/// The Pedersen hash of `input` under `generators`, on windows of `w` bits, as a
/// projective point before it is put into affine coordinates.
pub open spec fn pedersen_sum(generators: Seq<Seq<Seq<u8>>>, w: nat, n: nat, input: Seq<u8>) -> Option<Seq<u8>> {
    let bits = spec_bytes_to_bits(spec_padded_input(input, w * n));
    windows_sum(bits, generators, w, window_count(bits.len(), w, generators.len()))
}

proof fn lemma_window_sum_none(bits: Seq<bool>, powers: Seq<Seq<u8>>, m: nat, n: nat)
    requires
        m <= n,
        window_sum(bits, powers, m) is None,
    ensures
        window_sum(bits, powers, n) is None,
    decreases n,
{
    if m < n {
        lemma_window_sum_none(bits, powers, m, (n - 1) as nat);
    }
}

proof fn lemma_windows_sum_none(bits: Seq<bool>, generators: Seq<Seq<Seq<u8>>>, w: nat, m: nat, n: nat)
    requires
        m <= n,
        windows_sum(bits, generators, w, m) is None,
    ensures
        windows_sum(bits, generators, w, n) is None,
    decreases n,
{
    if m < n {
        lemma_windows_sum_none(bits, generators, w, m, (n - 1) as nat);
    }
}

proof fn lemma_window_count(bits_len: nat, w: nat, i: nat)
    requires
        w > 0,
    ensures
        (i * w < bits_len) <==> (i < ((bits_len + w - 1) as nat) / w),
{
    let c = ((bits_len + w - 1) as nat) / w;
    assert((i * w < bits_len) <==> (i < c)) by (nonlinear_arith)
        requires
            w > 0,
            c == ((bits_len + w - 1) as nat) / w,
    ;
}

proof fn lemma_window_sum_some(bits: Seq<bool>, powers: Seq<Seq<u8>>, n: nat)
    requires
        n <= powers.len(),
        forall|k: int| 0 <= k < powers.len() ==> jubjub::jubjub_decodes(#[trigger] powers[k]),
    ensures
        window_sum(bits, powers, n) is Some,
    decreases n,
{
    if n > 0 {
        lemma_window_sum_some(bits, powers, (n - 1) as nat);
    }
}

proof fn lemma_windows_sum_some(bits: Seq<bool>, generators: Seq<Seq<Seq<u8>>>, w: nat, n: nat)
    requires
        n <= generators.len(),
        generators_decode(generators),
    ensures
        windows_sum(bits, generators, w, n) is Some,
    decreases n,
{
    if n > 0 {
        lemma_windows_sum_some(bits, generators, w, (n - 1) as nat);
        let row = generators[n - 1];
        let chunk = window_bits(bits, w, (n - 1) as nat);
        let len = if chunk.len() < row.len() { chunk.len() } else { row.len() };
        assert forall|k: int| 0 <= k < row.len() implies jubjub::jubjub_decodes(#[trigger] row[k]) by {
            assert(jubjub::jubjub_decodes(generators[n - 1][k]));
        }
        lemma_window_sum_some(chunk, row, len);
    }
}

/// Where every generator decodes, every input has a Pedersen sum.
proof fn lemma_pedersen_sum_some(generators: Seq<Seq<Seq<u8>>>, w: nat, n: nat, input: Seq<u8>)
    requires
        generators_decode(generators),
    ensures
        pedersen_sum(generators, w, n, input) is Some,
{
    let bits = spec_bytes_to_bits(spec_padded_input(input, w * n));
    lemma_windows_sum_some(bits, generators, w, window_count(bits.len(), w, generators.len()));
}

proof fn lemma_window_sum_unset(bits: Seq<bool>, powers: Seq<Seq<u8>>, n: nat)
    requires
        n <= bits.len(),
        forall|k: int| 0 <= k < bits.len() ==> !#[trigger] bits[k],
    ensures
        window_sum(bits, powers, n) == Some(jubjub::projective_zero_encoding()),
    decreases n,
{
    if n > 0 {
        lemma_window_sum_unset(bits, powers, (n - 1) as nat);
        assert(!bits[n - 1]);
    }
}

proof fn lemma_windows_sum_unset(bits: Seq<bool>, generators: Seq<Seq<Seq<u8>>>, w: nat, n: nat)
    requires
        w > 0,
        n <= window_count(bits.len(), w, generators.len()),
        forall|k: int| 0 <= k < bits.len() ==> !#[trigger] bits[k],
        jubjub::jubjub_add(jubjub::projective_zero_encoding(), jubjub::projective_zero_encoding())@
            == jubjub::projective_zero_encoding(),
    ensures
        windows_sum(bits, generators, w, n) == Some(jubjub::projective_zero_encoding()),
    decreases n,
{
    if n > 0 {
        let i = (n - 1) as nat;
        lemma_windows_sum_unset(bits, generators, w, i);
        lemma_window_count(bits.len(), w, i);
        let start = i * w;
        let end = if (i + 1) * w < bits.len() { ((i + 1) * w) as int } else { bits.len() as int };
        assert(start <= end) by (nonlinear_arith)
            requires
                start == i * w,
                start < bits.len(),
                end == if (i + 1) * w < bits.len() { ((i + 1) * w) as int } else { bits.len() as int },
                w > 0,
        ;
        let chunk = window_bits(bits, w, i);
        assert(chunk == bits.subrange(start as int, end));
        assert forall|k: int| 0 <= k < chunk.len() implies !#[trigger] chunk[k] by {
            assert(chunk[k] == bits[start + k]);
        }
        let row = generators[i as int];
        let len = if chunk.len() < row.len() { chunk.len() } else { row.len() };
        lemma_window_sum_unset(chunk, row, len);
    }
}

/// The bits of zero bytes are all unset.
proof fn lemma_zero_bytes_unset(bytes: Seq<u8>)
    requires
        forall|k: int| 0 <= k < bytes.len() ==> bytes[k] == 0u8,
    ensures
        forall|t: int|
            0 <= t < spec_bytes_to_bits(bytes).len() ==> !#[trigger] spec_bytes_to_bits(bytes)[t],
{
    assert forall|t: int| 0 <= t < spec_bytes_to_bits(bytes).len() implies !#[trigger] spec_bytes_to_bits(
        bytes,
    )[t] by {
        let b = bytes[t / 8];
        let s = (t % 8) as u32;
        assert(b == 0u8);
        assert((b >> s) & 1u8 == 0u8) by (bit_vector)
            requires
                b == 0u8,
        ;
    }
}

/// An input of zero bytes sums to the identity, which normalizes to the affine identity.
proof fn lemma_zero_input_sum(generators: Seq<Seq<Seq<u8>>>, w: nat, n: nat, input: Seq<u8>)
    requires
        w > 0,
        forall|k: int| 0 <= k < input.len() ==> input[k] == 0u8,
        jubjub::jubjub_add(jubjub::projective_zero_encoding(), jubjub::projective_zero_encoding())@
            == jubjub::projective_zero_encoding(),
    ensures
        pedersen_sum(generators, w, n, input) == Some(jubjub::projective_zero_encoding()),
{
    let padded = spec_padded_input(input, w * n);
    assert forall|k: int| 0 <= k < padded.len() implies padded[k] == 0u8 by {
        if k >= input.len() {
            assert(input.len() * 8 < w * n);
        }
    }
    lemma_zero_bytes_unset(padded);
    let bits = spec_bytes_to_bits(padded);
    lemma_windows_sum_unset(bits, generators, w, window_count(bits.len(), w, generators.len()));
}

/// Whether bit `i * w + j` of `bits` is set and selects generator `j` of window `i`:
/// the window has a row of generators, and `j` is below the window size and the row length.
pub open spec fn bit_selects(bits: Seq<bool>, generators: Seq<Seq<Seq<u8>>>, w: nat, i: int, j: int) -> bool {
    &&& 0 <= i < generators.len()
    &&& 0 <= j < w
    &&& j < generators[i].len()
    &&& i * w + j < bits.len()
    &&& bits[i * w + j]
}

/// Whether the input, padded to `w * n` bits, selects generator `j` of window `i`.
pub open spec fn selects(generators: Seq<Seq<Seq<u8>>>, w: nat, n: nat, input: Seq<u8>, i: int, j: int) -> bool {
    bit_selects(spec_bytes_to_bits(spec_padded_input(input, w * n)), generators, w, i, j)
}

proof fn lemma_chunk(bits: Seq<bool>, w: nat, i: nat)
    requires
        w > 0,
        i * w < bits.len(),
    ensures
        window_bits(bits, w, i).len() <= w,
        i * w + window_bits(bits, w, i).len() <= bits.len(),
        window_bits(bits, w, i).len() == (if (i + 1) * w < bits.len() { w as int } else { bits.len() - i * w }),
        forall|k: int| 0 <= k < window_bits(bits, w, i).len() ==> #[trigger] window_bits(bits, w, i)[k] == bits[i * w + k],
{
    let start = i * w;
    let end = if (i + 1) * w < bits.len() { ((i + 1) * w) as int } else { bits.len() as int };
    assert(start <= end && end - start <= w && (i + 1) * w == i * w + w) by (nonlinear_arith)
        requires
            start == i * w,
            start < bits.len(),
            end == if (i + 1) * w < bits.len() { ((i + 1) * w) as int } else { bits.len() as int },
            w > 0,
    ;
}

proof fn lemma_window_sum_local(bits: Seq<bool>, p: Seq<Seq<u8>>, q: Seq<Seq<u8>>, n: nat)
    requires
        forall|k: int| 0 <= k < n && bits[k] ==> p[k] == q[k],
    ensures
        window_sum(bits, p, n) == window_sum(bits, q, n),
    decreases n,
{
    if n > 0 {
        lemma_window_sum_local(bits, p, q, (n - 1) as nat);
    }
}

proof fn lemma_window_sum_none_iff(bits: Seq<bool>, p: Seq<Seq<u8>>, n: nat)
    ensures
        window_sum(bits, p, n) is None <==> exists|k: int|
            0 <= k < n && bits[k] && !jubjub::jubjub_decodes(#[trigger] p[k]),
    decreases n,
{
    if n > 0 {
        let m = (n - 1) as nat;
        lemma_window_sum_none_iff(bits, p, m);
        if window_sum(bits, p, m) is None {
            let k = choose|k: int| 0 <= k < m && bits[k] && !jubjub::jubjub_decodes(#[trigger] p[k]);
            assert(!jubjub::jubjub_decodes(p[k]));
        } else if bits[m as int] && !jubjub::jubjub_decodes(p[m as int]) {
            assert(!jubjub::jubjub_decodes(p[m as int]));
        } else {
            assert forall|k: int| 0 <= k < n && bits[k] implies jubjub::jubjub_decodes(#[trigger] p[k]) by {
                if k < m {
                    if !jubjub::jubjub_decodes(p[k]) {
                        assert(exists|k2: int| 0 <= k2 < m && bits[k2] && !jubjub::jubjub_decodes(#[trigger] p[k2]));
                    }
                }
            }
        }
    }
}

proof fn lemma_windows_sum_local(
    bits: Seq<bool>,
    g: Seq<Seq<Seq<u8>>>,
    h: Seq<Seq<Seq<u8>>>,
    w: nat,
    n: nat,
)
    requires
        w > 0,
        n <= window_count(bits.len(), w, g.len()),
        g.len() == h.len(),
        forall|i: int| 0 <= i < g.len() ==> (#[trigger] g[i]).len() == h[i].len(),
        forall|i: int, j: int| bit_selects(bits, g, w, i, j) ==> g[i][j] == h[i][j],
    ensures
        windows_sum(bits, g, w, n) == windows_sum(bits, h, w, n),
    decreases n,
{
    if n > 0 {
        let i = (n - 1) as nat;
        lemma_windows_sum_local(bits, g, h, w, i);
        lemma_window_count(bits.len(), w, i);
        lemma_chunk(bits, w, i);
        let chunk = window_bits(bits, w, i);
        let len = if chunk.len() < g[i as int].len() { chunk.len() } else { g[i as int].len() };
        assert forall|k: int| 0 <= k < len && chunk[k] implies g[i as int][k] == h[i as int][k] by {
            assert(chunk[k] == bits[i * w + k]);
            assert(bit_selects(bits, g, w, i as int, k));
        }
        lemma_window_sum_local(chunk, g[i as int], h[i as int], len);
    }
}

proof fn lemma_windows_sum_none_iff(bits: Seq<bool>, g: Seq<Seq<Seq<u8>>>, w: nat, n: nat)
    requires
        w > 0,
        n <= window_count(bits.len(), w, g.len()),
    ensures
        windows_sum(bits, g, w, n) is None <==> exists|i: int, j: int|
            0 <= i < n && #[trigger] bit_selects(bits, g, w, i, j) && !jubjub::jubjub_decodes(g[i][j]),
    decreases n,
{
    if n > 0 {
        let i = (n - 1) as nat;
        lemma_windows_sum_none_iff(bits, g, w, i);
        lemma_window_count(bits.len(), w, i);
        lemma_chunk(bits, w, i);
        let chunk = window_bits(bits, w, i);
        let row = g[i as int];
        let len = if chunk.len() < row.len() { chunk.len() } else { row.len() };
        lemma_window_sum_none_iff(chunk, row, len);
        if windows_sum(bits, g, w, i) is None {
            let (a, b) = choose|a: int, b: int|
                0 <= a < i && #[trigger] bit_selects(bits, g, w, a, b) && !jubjub::jubjub_decodes(g[a][b]);
            assert(bit_selects(bits, g, w, a, b));
        } else if window_sum(chunk, row, len) is None {
            let k = choose|k: int| 0 <= k < len && chunk[k] && !jubjub::jubjub_decodes(#[trigger] row[k]);
            assert(chunk[k] == bits[i * w + k]);
            assert(bit_selects(bits, g, w, i as int, k));
        } else {
            assert forall|a: int, b: int|
                0 <= a < n && #[trigger] bit_selects(bits, g, w, a, b) implies jubjub::jubjub_decodes(g[a][b]) by {
                if a < i {
                    if !jubjub::jubjub_decodes(g[a][b]) {
                        assert(exists|a2: int, b2: int|
                            0 <= a2 < i && #[trigger] bit_selects(bits, g, w, a2, b2)
                                && !jubjub::jubjub_decodes(g[a2][b2]));
                    }
                } else {
                    assert(a == i);
                    assert(chunk[b] == bits[i * w + b]);
                    if !jubjub::jubjub_decodes(row[b]) {
                        assert(exists|k: int| 0 <= k < len && chunk[k] && !jubjub::jubjub_decodes(#[trigger] row[k]));
                    }
                }
            }
        }
    }
}

/// Padding an input with zero bytes up to the full input length does not change its
/// Pedersen hash.
pub proof fn lemma_padding_keeps_hash<W: Window>(parameters: Parameters, input: Seq<u8>)
    ensures
        <CRH<W> as FixedLengthCRH>::spec_evaluate(
            parameters,
            spec_padded_input(input, (W::WINDOW_SIZE * W::NUM_WINDOWS) as nat),
        ) == <CRH<W> as FixedLengthCRH>::spec_evaluate(parameters, input),
{
    let t = (W::WINDOW_SIZE * W::NUM_WINDOWS) as nat;
    let y = spec_padded_input(input, t);
    if input.len() * 8 < t {
        assert(y.len() * 8 <= t);
        assert(spec_padded_input(y, t) =~= y);
    }
}

/// The Pedersen hash of an input depends on the generators that its set bits select and
/// on nothing else of the parameters (beyond the shape of the rows): bit `j` of window `i`
/// selects generator `j` of row `i`, so parameters that agree on every selected generator
/// give the same hash.
pub proof fn lemma_selected_generators_decide<W: Window>(p: Parameters, q: Parameters, input: Seq<u8>)
    requires
        W::WINDOW_SIZE > 0,
        p.generators_view().len() == q.generators_view().len(),
        forall|i: int|
            0 <= i < p.generators_view().len() ==> (#[trigger] p.generators_view()[i]).len()
                == q.generators_view()[i].len(),
        forall|i: int, j: int|
            selects(p.generators_view(), W::WINDOW_SIZE as nat, W::NUM_WINDOWS as nat, input, i, j)
                ==> p.generators_view()[i][j] == q.generators_view()[i][j],
    ensures
        <CRH<W> as FixedLengthCRH>::spec_evaluate(p, input) == <CRH<W> as FixedLengthCRH>::spec_evaluate(
            q,
            input,
        ),
{
    let w = W::WINDOW_SIZE as nat;
    let g = p.generators_view();
    let h = q.generators_view();
    let bits = spec_bytes_to_bits(spec_padded_input(input, w * W::NUM_WINDOWS as nat));
    assert forall|i: int, j: int| bit_selects(bits, g, w, i, j) implies g[i][j] == h[i][j] by {
        assert(selects(g, w, W::NUM_WINDOWS as nat, input, i, j));
    }
    lemma_windows_sum_local(bits, g, h, w, window_count(bits.len(), w, g.len()));
}

/// The Pedersen hash of an input fails exactly where one of the generators that its set
/// bits select does not decode.
pub proof fn lemma_evaluate_fails_exactly<W: Window>(p: Parameters, input: Seq<u8>)
    requires
        W::WINDOW_SIZE > 0,
    ensures
        <CRH<W> as FixedLengthCRH>::spec_evaluate(p, input) is None <==> exists|i: int, j: int|
            #[trigger] selects(p.generators_view(), W::WINDOW_SIZE as nat, W::NUM_WINDOWS as nat, input, i, j)
                && !jubjub::jubjub_decodes(p.generators_view()[i][j]),
{
    let w = W::WINDOW_SIZE as nat;
    let n = W::NUM_WINDOWS as nat;
    let g = p.generators_view();
    let bits = spec_bytes_to_bits(spec_padded_input(input, w * n));
    let wc = window_count(bits.len(), w, g.len());
    lemma_windows_sum_none_iff(bits, g, w, wc);
    if <CRH<W> as FixedLengthCRH>::spec_evaluate(p, input) is None {
        let (a, b) = choose|a: int, b: int|
            0 <= a < wc && #[trigger] bit_selects(bits, g, w, a, b) && !jubjub::jubjub_decodes(g[a][b]);
        assert(selects(g, w, n, input, a, b));
    } else {
        assert forall|a: int, b: int| #[trigger] selects(g, w, n, input, a, b) implies jubjub::jubjub_decodes(
            g[a][b],
        ) by {
            assert(bit_selects(bits, g, w, a, b));
            lemma_window_count(bits.len(), w, a as nat);
            assert(a * w <= a * w + b) by (nonlinear_arith)
                requires
                    b >= 0,
            ;
            assert(a < wc);
            if !jubjub::jubjub_decodes(g[a][b]) {
                assert(exists|a2: int, b2: int|
                    0 <= a2 < wc && #[trigger] bit_selects(bits, g, w, a2, b2)
                        && !jubjub::jubjub_decodes(g[a2][b2]));
            }
        }
    }
}

impl<W: Window> CRH<W> {
    /// Draws `NUM_WINDOWS` rows of `WINDOW_SIZE` generators from `rng`.
    pub fn create_generators(rng: &mut ark_std::rand::rngs::StdRng) -> (r: Vec<Vec<[u8; 128]>>)
        ensures
            r@.len() == W::NUM_WINDOWS,
            forall|i: int| 0 <= i < r@.len() ==> (#[trigger] r@[i])@.len() == W::WINDOW_SIZE,
            forall|i: int|
                0 <= i < r@.len() ==> is_doubling_chain(
                    (#[trigger] r@[i])@.map_values(|g: [u8; 128]| g@),
                ),
            forall|i: int, k: int|
                0 <= i < r@.len() && 0 <= k < r@[i]@.len() ==> jubjub::jubjub_decodes(
                    (#[trigger] r@[i]@[k])@,
                ),
    {
        let mut generators_powers: Vec<Vec<[u8; 128]>> = Vec::new();
        let mut i: usize = 0;
        while i < W::NUM_WINDOWS
            invariant
                i <= W::NUM_WINDOWS,
                generators_powers@.len() == i,
                forall|k: int|
                    0 <= k < i ==> (#[trigger] generators_powers@[k])@.len() == W::WINDOW_SIZE,
                forall|k: int|
                    0 <= k < i ==> is_doubling_chain(
                        (#[trigger] generators_powers@[k])@.map_values(|g: [u8; 128]| g@),
                    ),
                forall|k: int, t: int|
                    0 <= k < i && 0 <= t < generators_powers@[k]@.len() ==> jubjub::jubjub_decodes(
                        (#[trigger] generators_powers@[k]@[t])@,
                    ),
            decreases W::NUM_WINDOWS - i,
        {
            generators_powers.push(Self::generator_powers(W::WINDOW_SIZE, rng));
            i += 1;
        }
        generators_powers
    }

    /// A random point and its first `num_powers - 1` doublings.
    pub fn generator_powers(num_powers: usize, rng: &mut ark_std::rand::rngs::StdRng) -> (r: Vec<[u8; 128]>)
        ensures
            r@.len() == num_powers,
            forall|k: int| 0 <= k < r@.len() ==> jubjub::jubjub_decodes((#[trigger] r@[k])@),
            is_doubling_chain(r@.map_values(|g: [u8; 128]| g@)),
    {
        let mut cur_gen_powers: Vec<[u8; 128]> = Vec::with_capacity(num_powers);
        let mut base = jubjub::random_point(rng);
        let mut i: usize = 0;
        while i < num_powers
            invariant
                i <= num_powers,
                cur_gen_powers@.len() == i,
                jubjub::jubjub_decodes(base@),
                i > 0 ==> base == jubjub::jubjub_double(cur_gen_powers@[i - 1]@),
                is_doubling_chain(cur_gen_powers@.map_values(|g: [u8; 128]| g@)),
            decreases num_powers - i,
        {
            let ghost prev = cur_gen_powers@.map_values(|g: [u8; 128]| g@);
            cur_gen_powers.push(base);
            proof {
                let cur = cur_gen_powers@.map_values(|g: [u8; 128]| g@);
                assert(cur == prev.push(base@));
                assert forall|k: int| 0 <= k < cur.len() - 1 implies #[trigger] cur[k + 1]
                    == jubjub::jubjub_double(cur[k])@ by {
                    if k < cur.len() - 2 {
                        assert(prev[k + 1] == jubjub::jubjub_double(prev[k])@);
                    }
                }
            }
            base = jubjub::double(&base);
            i += 1;
        }
        proof {
            let cur = cur_gen_powers@.map_values(|g: [u8; 128]| g@);
            assert forall|k: int| 0 <= k < cur_gen_powers@.len() implies jubjub::jubjub_decodes(
                (#[trigger] cur_gen_powers@[k])@,
            ) by {
                assert(cur[k] == cur_gen_powers@[k]@);
            }
        }
        cur_gen_powers
    }
}

impl<W: Window> FixedLengthCRH for CRH<W> {
    const INPUT_SIZE_BITS: usize = W::WINDOW_SIZE * W::NUM_WINDOWS;

    type Parameters = Parameters;

    open spec fn output_size() -> nat {
        64
    }

    open spec fn output_decodes(d: Seq<u8>) -> bool {
        jubjub::jubjub_affine_decodes(d)
    }

    open spec fn evaluate_accepts(parameters: Parameters, input: Seq<u8>) -> bool {
        &&& W::WINDOW_SIZE > 0
        &&& W::WINDOW_SIZE * W::NUM_WINDOWS <= usize::MAX
        &&& input.len() * 8 <= W::WINDOW_SIZE * W::NUM_WINDOWS
        &&& parameters.generators@.len() == W::NUM_WINDOWS
    }

    open spec fn spec_evaluate(parameters: Parameters, input: Seq<u8>) -> Option<Seq<u8>> {
        match pedersen_sum(
            parameters.generators_view(),
            W::WINDOW_SIZE as nat,
            W::NUM_WINDOWS as nat,
            input,
        ) {
            Some(s) => Some(jubjub::jubjub_normalize(s)@),
            None => None,
        }
    }

    open spec fn spec_read_output(bytes: Seq<u8>) -> Option<Seq<u8>> {
        if bytes.len() >= 64 && jubjub::jubjub_affine_decodes(bytes.take(64)) {
            Some(bytes.take(64))
        } else {
            None
        }
    }

    open spec fn spec_default_output() -> Seq<u8> {
        jubjub::affine_zero_encoding()
    }

    open spec fn evaluate_total(parameters: Parameters) -> bool {
        generators_decode(parameters.generators_view())
    }

    proof fn lemma_output_size() {
    }

    proof fn lemma_evaluate_output(parameters: Parameters, input: Seq<u8>) {
    }

    proof fn lemma_read_output(bytes: Seq<u8>) {
    }

    proof fn lemma_evaluate_total(parameters: Parameters, input: Seq<u8>) {
        lemma_pedersen_sum_some(
            parameters.generators_view(),
            W::WINDOW_SIZE as nat,
            W::NUM_WINDOWS as nat,
            input,
        );
    }

    /// Draws the generators from `rng`.
    fn setup(rng: &mut ark_std::rand::rngs::StdRng) -> (r: Result<Parameters, Error>)
        ensures
            r matches Ok(p) && p.generators@.len() == W::NUM_WINDOWS && (forall|i: int|
                0 <= i < p.generators@.len() ==> (#[trigger] p.generators@[i])@.len()
                    == W::WINDOW_SIZE && is_doubling_chain(
                    p.generators@[i]@.map_values(|g: [u8; 128]| g@),
                )) && generators_decode(p.generators_view()),
    {
        let generators = Self::create_generators(rng);
        let p = Parameters { generators };
        proof {
            let gens = p.generators_view();
            assert forall|i: int, k: int|
                0 <= i < gens.len() && 0 <= k < gens[i].len() implies jubjub::jubjub_decodes(
                #[trigger] gens[i][k],
            ) by {
                assert(gens[i][k] == p.generators@[i]@[k]@);
            }
        }
        Ok(p)
    }

    /// Evaluates the Pedersen hash; an input of zero bytes (the empty input among them)
    /// hashes to the affine identity.
    fn evaluate(parameters: &Parameters, input: &[u8]) -> (r: Result<Vec<u8>, Error>)
        ensures
            (forall|k: int| 0 <= k < input@.len() ==> input@[k] == 0u8) ==> (r matches Ok(d)
                && d@ == jubjub::affine_zero_encoding()),
    {
        let mut result = jubjub::zero();
        let ghost defined = <CRH<W> as FixedLengthCRH>::spec_evaluate(*parameters, input@) is Some;
        proof {
            if Self::evaluate_total(*parameters) {
                Self::lemma_evaluate_total(*parameters, input@);
            }
            if forall|k: int| 0 <= k < input@.len() ==> input@[k] == 0u8 {
                lemma_zero_input_sum(
                    parameters.generators_view(),
                    W::WINDOW_SIZE as nat,
                    W::NUM_WINDOWS as nat,
                    input@,
                );
            }
        }
        let total: usize = W::WINDOW_SIZE * W::NUM_WINDOWS;
        let ghost gens = parameters.generators_view();
        // Pad the input if it is not the current length.
        let mut padded_input: Vec<u8> = Vec::with_capacity(input.len());
        let mut k: usize = 0;
        while k < input.len()
            invariant
                k <= input.len(),
                padded_input@ == input@.take(k as int),
            decreases input.len() - k,
        {
            padded_input.push(input[k]);
            assert(input@.take(k + 1) == input@.take(k as int).push(input@[k as int]));
            k += 1;
        }
        assert(input@.take(input@.len() as int) == input@);
        if input.len() * 8 < total {
            let padded_length = total / 8;
            while padded_input.len() < padded_length
                invariant
                    input.len() <= padded_input.len() <= padded_length,
                    padded_input@ == input@ + Seq::new(
                        (padded_input.len() - input.len()) as nat,
                        |i: int| 0u8,
                    ),
                decreases padded_length - padded_input.len(),
            {
                padded_input.push(0u8);
                assert(padded_input@ == input@ + Seq::new(
                    (padded_input.len() - input.len()) as nat,
                    |i: int| 0u8,
                ));
            }
        }
        assert(padded_input@ == spec_padded_input(input@, total as nat));
        // Compute sum of h_i^{m_i} for all i.
        let bits = bytes_to_bits(padded_input.as_slice());
        let w = W::WINDOW_SIZE;
        let mut i: usize = 0;
        while i < parameters.generators.len() && i * w < bits.len()
            invariant
                w == W::WINDOW_SIZE,
                w > 0,
                total == w * W::NUM_WINDOWS,
                parameters.generators@.len() == W::NUM_WINDOWS,
                gens == parameters.generators_view(),
                bits@.len() <= total,
                bits@ == spec_bytes_to_bits(spec_padded_input(input@, total as nat)),
                i <= parameters.generators.len(),
                i * w <= total,
                forall|i2: nat| i2 < i ==> #[trigger] (i2 * w) < bits@.len(),
                windows_sum(bits@, gens, w as nat, i as nat) == Some(result@),
                jubjub::jubjub_decodes(result@),
                defined == (<CRH<W> as FixedLengthCRH>::spec_evaluate(*parameters, input@) is Some),
                (forall|k: int| 0 <= k < input@.len() ==> input@[k] == 0u8) ==> defined,
            decreases parameters.generators.len() - i,
        {
            assert((i + 1) * w <= total && (i + 1) * w == i * w + w) by (nonlinear_arith)
                requires
                    i < W::NUM_WINDOWS,
                    total == w * W::NUM_WINDOWS,
            ;
            proof {
                lemma_window_count(bits@.len(), w as nat, i as nat);
            }
            let start = i * w;
            let end = if start + w < bits.len() {
                start + w
            } else {
                bits.len()
            };
            let row = &parameters.generators[i];
            let ghost chunk = window_bits(bits@, w as nat, i as nat);
            let ghost row_view = gens[i as int];
            assert(row_view == row@.map_values(|g: [u8; 128]| g@));
            assert((i + 1) as nat <= window_count(bits@.len(), w as nat, gens.len()));
            let mut encoded = jubjub::zero();
            let mut j: usize = 0;
            while j < end - start && j < row.len()
                invariant
                    start < end <= bits@.len(),
                    chunk == bits@.subrange(start as int, end as int),
                    chunk == window_bits(bits@, w as nat, i as nat),
                    row_view == gens[i as int],
                    windows_sum(bits@, gens, w as nat, i as nat) == Some(result@),
                    (i + 1) as nat <= window_count(bits@.len(), w as nat, gens.len()),
                    bits@ == spec_bytes_to_bits(spec_padded_input(input@, total as nat)),
                    total == W::WINDOW_SIZE * W::NUM_WINDOWS,
                    w == W::WINDOW_SIZE,
                    gens == parameters.generators_view(),
                    row_view == row@.map_values(|g: [u8; 128]| g@),
                    j <= end - start,
                    j <= row@.len(),
                    window_sum(chunk, row_view, j as nat) == Some(encoded@),
                    jubjub::jubjub_decodes(encoded@),
                    defined == (<CRH<W> as FixedLengthCRH>::spec_evaluate(*parameters, input@) is Some),
                    (forall|k: int| 0 <= k < input@.len() ==> input@[k] == 0u8) ==> defined,
                decreases row.len() - j,
            {
                if bits[start + j] {
                    match jubjub::add(&encoded, &row[j]) {
                        Some(e) => {
                            encoded = e;
                        },
                        None => {
                            proof {
                                let len = if chunk.len() < row_view.len() {
                                    chunk.len()
                                } else {
                                    row_view.len()
                                };
                                lemma_window_sum_none(chunk, row_view, (j + 1) as nat, len);
                                assert(windows_sum(bits@, gens, w as nat, (i + 1) as nat) is None);
                                lemma_windows_sum_none(
                                    bits@,
                                    gens,
                                    w as nat,
                                    (i + 1) as nat,
                                    window_count(bits@.len(), w as nat, gens.len()),
                                );
                            }
                            return Err(Error::Crh);
                        },
                    }
                }
                j += 1;
            }
            // Both points decode, so the sum is defined.
            match jubjub::add(&result, &encoded) {
                Some(sum) => {
                    result = sum;
                },
                None => {
                    proof {
                        assert(false);
                    }
                    return Err(Error::Crh);
                },
            }
            i += 1;
        }
        proof {
            let c = ((bits@.len() + w - 1) as nat) / (w as nat);
            lemma_window_count(bits@.len(), w as nat, i as nat);
            if i > 0 {
                lemma_window_count(bits@.len(), w as nat, (i - 1) as nat);
            }
            assert(i == window_count(bits@.len(), w as nat, gens.len()));
        }
        let affine = jubjub::normalize(&result);
        let mut d: Vec<u8> = Vec::new();
        let mut t: usize = 0;
        while t < 64
            invariant
                t <= 64,
                d@ == affine@.take(t as int),
            decreases 64 - t,
        {
            d.push(affine[t]);
            assert(affine@.take(t + 1) == affine@.take(t as int).push(affine@[t as int]));
            t += 1;
        }
        assert(affine@.take(64) == affine@);
        Ok(d)
    }

    fn accepts_input_len(parameters: &Parameters, len: usize) -> (r: bool) {
        let w = W::WINDOW_SIZE;
        let r = if w == 0 || parameters.generators.len() != W::NUM_WINDOWS {
            false
        } else {
            match w.checked_mul(W::NUM_WINDOWS) {
                Some(total) => len <= total / 8,
                None => false,
            }
        };
        proof {
            let zero_input = Seq::new(len as nat, |i: int| 0u8);
            if !r {
                assert(!Self::evaluate_accepts(*parameters, zero_input));
            }
        }
        r
    }

    fn read_output(bytes: &[u8]) -> (r: Option<Vec<u8>>) {
        match jubjub::affine_read(bytes) {
            Some(a) => {
                let mut d: Vec<u8> = Vec::new();
                let mut t: usize = 0;
                while t < 64
                    invariant
                        t <= 64,
                        d@ == a@.take(t as int),
                    decreases 64 - t,
                {
                    d.push(a[t]);
                    assert(a@.take(t + 1) == a@.take(t as int).push(a@[t as int]));
                    t += 1;
                }
                assert(a@.take(64) == a@);
                Some(d)
            },
            None => None,
        }
    }

    fn default_output() -> (r: Vec<u8>) {
        let a = jubjub::affine_zero();
        let mut d: Vec<u8> = Vec::new();
        let mut t: usize = 0;
        while t < 64
            invariant
                t <= 64,
                d@ == a@.take(t as int),
            decreases 64 - t,
        {
            d.push(a[t]);
            assert(a@.take(t + 1) == a@.take(t as int).push(a@[t as int]));
            t += 1;
        }
        assert(a@.take(64) == a@);
        d
    }
}

/// The parameters of the keyed Blake2s hash: a seed hashed before every input.
pub struct Blake2Params {
    seed: [u8; 32],
}

impl Clone for Blake2Params {
    /// Copies the seed.
    fn clone(&self) -> (r: Self)
        ensures
            r.spec_seed() == self.spec_seed(),
    {
        Blake2Params { seed: self.seed }
    }
}

impl Default for Blake2Params {
    /// The all-zero seed.
    fn default() -> (r: Self)
        ensures
            r.spec_seed() == Seq::new(32, |i: int| 0u8),
    {
        let r = Blake2Params { seed: [0u8; 32] };
        assert(r.spec_seed() =~= Seq::new(32, |i: int| 0u8));
        r
    }
}

impl Blake2Params {
    /// The seed.
    pub closed spec fn spec_seed(self) -> Seq<u8> {
        self.seed@
    }
}

/// Blake2s keyed by a seed: the output on `input` is `Blake2s(seed || input)`.
pub struct Blake2s;

impl FixedLengthCRH for Blake2s {
    const INPUT_SIZE_BITS: usize = 0;

    type Parameters = Blake2Params;

    open spec fn output_size() -> nat {
        32
    }

    open spec fn output_decodes(d: Seq<u8>) -> bool {
        true
    }

    open spec fn evaluate_accepts(parameters: Blake2Params, input: Seq<u8>) -> bool {
        true
    }

    open spec fn spec_evaluate(parameters: Blake2Params, input: Seq<u8>) -> Option<Seq<u8>> {
        Some(blake2::blake2s_seeded(parameters.spec_seed(), input)@)
    }

    open spec fn spec_read_output(bytes: Seq<u8>) -> Option<Seq<u8>> {
        if bytes.len() >= 32 {
            Some(bytes.take(32))
        } else {
            None
        }
    }

    open spec fn spec_default_output() -> Seq<u8> {
        Seq::new(32, |i: int| 0u8)
    }

    open spec fn evaluate_total(parameters: Blake2Params) -> bool {
        true
    }

    proof fn lemma_output_size() {
    }

    proof fn lemma_evaluate_output(parameters: Blake2Params, input: Seq<u8>) {
    }

    proof fn lemma_read_output(bytes: Seq<u8>) {
    }

    proof fn lemma_evaluate_total(parameters: Blake2Params, input: Seq<u8>) {
    }

    /// Draws the seed from `rng`.
    fn setup(rng: &mut ark_std::rand::rngs::StdRng) -> (r: Result<Blake2Params, Error>)
        ensures
            r is Ok,
    {
        let seed = blake2::random_seed(rng);
        Ok(Blake2Params { seed })
    }

    fn evaluate(parameters: &Blake2Params, input: &[u8]) -> (r: Result<Vec<u8>, Error>) {
        let h = blake2::blake2s_seeded_hash(&parameters.seed, input);
        let mut d: Vec<u8> = Vec::new();
        let mut i: usize = 0;
        while i < 32
            invariant
                i <= 32,
                d@ == h@.take(i as int),
            decreases 32 - i,
        {
            d.push(h[i]);
            assert(h@.take(i + 1) == h@.take(i as int).push(h@[i as int]));
            i += 1;
        }
        assert(h@.take(32) == h@);
        Ok(d)
    }

    fn accepts_input_len(parameters: &Blake2Params, len: usize) -> (r: bool) {
        true
    }

    fn read_output(bytes: &[u8]) -> (r: Option<Vec<u8>>) {
        if bytes.len() < 32 {
            return None;
        }
        let mut d: Vec<u8> = Vec::new();
        let mut i: usize = 0;
        while i < 32
            invariant
                i <= 32,
                bytes.len() >= 32,
                d@ == bytes@.take(i as int),
            decreases 32 - i,
        {
            d.push(bytes[i]);
            assert(bytes@.take(i + 1) == bytes@.take(i as int).push(bytes@[i as int]));
            i += 1;
        }
        Some(d)
    }

    fn default_output() -> (r: Vec<u8>) {
        let mut d: Vec<u8> = Vec::new();
        let mut i: usize = 0;
        while i < 32
            invariant
                i <= 32,
                d@ == Seq::new(i as nat, |k: int| 0u8),
            decreases 32 - i,
        {
            d.push(0u8);
            assert(d@ == Seq::new((i + 1) as nat, |k: int| 0u8));
            i += 1;
        }
        d
    }
}

} // verus!
