//! The NNUE network: quantised weights in the trainer's byte layout and the
//! forward pass (SCReLU hidden layer, one output), in the wrapping integer
//! arithmetic the engine runs with.
use vstd::prelude::*;

verus! {

/// Width of one accumulator half.
pub const HIDDEN: usize = 768;

/// Activation quantisation.
pub const QA: i16 = 255;

/// Output weight quantisation.
pub const QB: i16 = 64;

/// Centipawn scale of the output.
pub const SCALE: i32 = 400;

/// Size of a network file: the weights as little-endian `i16`s, padded to
/// a multiple of 64 bytes.
pub const NET_BYTES: usize = 1_184_320;

/// One accumulator half, or one feature column of the first layer.
#[derive(Clone, Copy)]
pub struct Accumulator {
    pub vals: [i16; 768],
}

/// The little-endian `i16` at byte offset `o`.
pub open spec fn le_i16(s: Seq<u8>, o: int) -> i16 {
    let v = s[o] as int + 256 * (s[o + 1] as int);
    if v >= 0x8000 {
        (v - 0x1_0000) as i16
    } else {
        v as i16
    }
}

/// The first-layer weights (768 columns of 768), the first-layer bias,
/// the 1536 output weights (side to move's half first) and the output bias.
pub struct Network {
    feature_weights: Vec<Accumulator>,
    feature_bias: Accumulator,
    output_weights: Vec<i16>,
    output_bias: i16,
}

/// SCReLU: the input clamped to `0..=QA`, squared.
pub open spec fn screlu(x: i16) -> int {
    let y: int = if x < 0 {
        0
    } else if x > 255 {
        255
    } else {
        x as int
    };
    y * y
}

/// The 1536 products of the activations of `us` then `them` with the
/// output weights.
pub open spec fn out_term(us: Seq<i16>, them: Seq<i16>, ow: Seq<i16>, k: int) -> i32 {
    if k < 768 {
        (screlu(us[k]) * ow[k]) as i32
    } else {
        (screlu(them[k - 768]) * ow[k]) as i32
    }
}

/// Wrapping `i32` sum of the first `n` output terms.
pub open spec fn out_sum(us: Seq<i16>, them: Seq<i16>, ow: Seq<i16>, n: int) -> i32
    decreases n,
{
    if n <= 0 {
        0
    } else {
        vstd::wrapping::i32_specs::wrapping_add(out_sum(us, them, ow, n - 1), out_term(us, them, ow, n - 1))
    }
}

/// Division truncating toward zero, by a positive divisor.
pub open spec fn tdiv(a: int, b: int) -> int {
    if a >= 0 {
        a / b
    } else {
        -((-a) / b)
    }
}

/// The network's output for accumulator halves `us` (side to move) and
/// `them`: `((sum / QA + bias) * SCALE) / (QA * QB)`, in wrapping `i32`
/// arithmetic with truncating division.
pub open spec fn forward(us: Seq<i16>, them: Seq<i16>, ow: Seq<i16>, ob: i16) -> int {
    let s = out_sum(us, them, ow, 1536);
    let q = tdiv(s as int, 255) + ob;
    tdiv(vstd::wrapping::i32_specs::wrapping_mul(q as i32, 400) as int, 16320)
}

fn read_i16(bytes: &[u8], o: usize) -> (r: i16)
    requires
        o + 1 < bytes@.len(),
    ensures
        r == le_i16(bytes@, o as int),
{
    let v: u32 = bytes[o] as u32 + 256 * (bytes[o + 1] as u32);
    if v >= 0x8000 {
        (v as i32 - 0x1_0000) as i16
    } else {
        v as i16
    }
}

impl Network {
    pub closed spec fn wf(&self) -> bool {
        &&& self.feature_weights@.len() == 768
        &&& self.output_weights@.len() == 1536
    }

    /// First-layer column of feature `f`.
    pub closed spec fn column(&self, f: int) -> Seq<i16> {
        self.feature_weights@[f].vals@
    }

    pub closed spec fn bias(&self) -> Seq<i16> {
        self.feature_bias.vals@
    }

    /// Every accumulator half is 768 wide.
    pub proof fn lemma_widths(&self)
        ensures
            self.bias().len() == 768,
            forall|f: int| #[trigger] self.column(f).len() == 768,
    {
    }

    pub closed spec fn out_weights(&self) -> Seq<i16> {
        self.output_weights@
    }

    pub closed spec fn out_bias(&self) -> i16 {
        self.output_bias
    }

    /// Reads a network file; the weights are little-endian `i16`s in the
    /// order column 0..768 of the first layer, its bias, the output
    /// weights, the output bias.
    pub fn from_bytes(bytes: &[u8]) -> (r: Network)
        requires
            bytes@.len() == NET_BYTES,
        ensures
            r.wf(),
            forall|f: int, i: int|
                0 <= f < 768 && 0 <= i < 768 ==> #[trigger] r.column(f)[i] == le_i16(
                    bytes@,
                    2 * (768 * f + i),
                ),
            forall|i: int| 0 <= i < 768 ==> #[trigger] r.bias()[i] == le_i16(bytes@, 2 * (589_824 + i)),
            forall|i: int|
                0 <= i < 1536 ==> #[trigger] r.out_weights()[i] == le_i16(bytes@, 2 * (590_592 + i)),
            r.out_bias() == le_i16(bytes@, 1_184_256),
    {
        let mut feature_weights: Vec<Accumulator> = Vec::new();
        let mut f: usize = 0;
        while f < 768
            invariant
                f <= 768,
                bytes@.len() == NET_BYTES,
                feature_weights@.len() == f,
                forall|g: int, i: int|
                    0 <= g < f && 0 <= i < 768 ==> #[trigger] feature_weights@[g].vals@[i] == le_i16(
                        bytes@,
                        2 * (768 * g + i),
                    ),
            decreases 768 - f,
        {
            let col = read_acc(bytes, 768 * f);
            feature_weights.push(col);
            f += 1;
        }
        let feature_bias = read_acc(bytes, 589_824);
        let mut output_weights: Vec<i16> = Vec::new();
        let mut i: usize = 0;
        while i < 1536
            invariant
                i <= 1536,
                bytes@.len() == NET_BYTES,
                output_weights@.len() == i,
                forall|j: int| 0 <= j < i ==> #[trigger] output_weights@[j] == le_i16(bytes@, 2 * (590_592 + j)),
            decreases 1536 - i,
        {
            output_weights.push(read_i16(bytes, 2 * (590_592 + i)));
            i += 1;
        }
        let output_bias = read_i16(bytes, 2 * 592_128);
        Network { feature_weights, feature_bias, output_weights, output_bias }
    }

    /// The quantised forward pass for the side to move's half `us` and the
    /// opponent's half `them`: side-to-move-relative centipawns.
    pub fn out(&self, us: &Accumulator, them: &Accumulator) -> (r: i32)
        requires
            self.wf(),
        ensures
            r == forward(us.vals@, them.vals@, self.out_weights(), self.out_bias()),
    {
        let sum = self.out_scalar(us, them);
        let q = sum / 255 + self.output_bias as i32;
        let x = q.wrapping_mul(400);
        x / 16320
    }

    /// Wrapping `i32` dot product of the SCReLU activations with the output
    /// weights.
    fn out_scalar(&self, us: &Accumulator, them: &Accumulator) -> (r: i32)
        requires
            self.wf(),
        ensures
            r == out_sum(us.vals@, them.vals@, self.out_weights(), 1536),
    {
        let mut sum: i32 = 0;
        let mut k: usize = 0;
        while k < 1536
            invariant
                k <= 1536,
                self.wf(),
                sum == out_sum(us.vals@, them.vals@, self.out_weights(), k as int),
            decreases 1536 - k,
        {
            let a = if k < 768 {
                us.vals[k]
            } else {
                them.vals[k - 768]
            };
            let y: i32 = if a < 0 {
                0
            } else if a > 255 {
                255
            } else {
                a as i32
            };
            let w = self.output_weights[k] as i32;
            assert(-65025 * 32768 <= (y * y) * w <= 65025 * 32768) by (nonlinear_arith)
                requires
                    0 <= y <= 255,
                    -32768 <= w <= 32767,
            ;
            assert(0 <= y * y <= 65025) by (nonlinear_arith)
                requires
                    0 <= y <= 255,
            ;
            let yy = y * y;
            let term = yy * w;
            proof {
                assert(term == out_term(us.vals@, them.vals@, self.out_weights(), k as int));
            }
            sum = sum.wrapping_add(term);
            k += 1;
        }
        sum
    }

    /// The first-layer bias.
    pub fn feature_bias(&self) -> (r: Accumulator)
        ensures
            r.vals@ == self.bias(),
    {
        self.feature_bias
    }

    /// First-layer weight `i` of feature `f`.
    pub fn weight(&self, f: usize, i: usize) -> (r: i16)
        requires
            self.wf(),
            f < 768,
            i < 768,
        ensures
            r == self.column(f as int)[i as int],
    {
        self.feature_weights[f].vals[i]
    }
}

/// The 768 little-endian `i16`s starting at `i16` index `start`.
fn read_acc(bytes: &[u8], start: usize) -> (r: Accumulator)
    requires
        bytes@.len() == NET_BYTES,
        start + 768 <= 592_129,
    ensures
        forall|i: int| 0 <= i < 768 ==> #[trigger] r.vals@[i] == le_i16(bytes@, 2 * (start + i)),
{
    let mut acc = Accumulator { vals: [0i16; 768] };
    let mut i: usize = 0;
    while i < 768
        invariant
            i <= 768,
            bytes@.len() == NET_BYTES,
            start + 768 <= 592_129,
            forall|j: int| 0 <= j < i ==> #[trigger] acc.vals@[j] == le_i16(bytes@, 2 * (start + j)),
        decreases 768 - i,
    {
        let v = read_i16(bytes, 2 * (start + i));
        acc.vals[i] = v;
        i += 1;
    }
    acc
}

} // verus!
