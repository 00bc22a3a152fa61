//! Integer kernels of the CPU inference engine: fixed-point values with 8
//! fractional bits, Q4/Q8 block dequantisation, matrix-vector products
//! against quantised weights, and greedy and top-k sampling.
use vstd::prelude::*;

verus! {

/// Fixed-point scale: 1.0 is 256.
pub const FP_SCALE: i32 = 256;

/// Values per quantisation block.
pub const BLOCK_SIZE: usize = 32;

/// Storage format of a tensor.
#[derive(PartialEq, Eq, Structural, Clone, Copy, Debug)]
pub enum Quantization {
    Q4_0,
    Q4_1,
    Q8_0,
    Q8_1,
    F16,
    F32,
}

/// A tensor stored in quantised form: packed values and one scale per
/// block.
pub struct QuantizedTensor {
    pub name: String,
    pub shape: Vec<u32>,
    pub quant: Quantization,
    pub data: Vec<u8>,
    pub scale: Vec<i32>,
}

/// Integer division rounded toward zero, as Rust's `/` on signed numbers.
pub open spec fn tdiv(a: int, b: int) -> int {
    if a >= 0 { a / b } else { -((-a) / b) }
}

fn tdiv_i64(a: i64, b: i64) -> (r: i64)
    requires
        b > 0,
    ensures
        r == tdiv(a as int, b as int),
{
    if a >= 0 {
        a / b
    } else {
        let m: i128 = -(a as i128);
        let q: i128 = m / (b as i128);
        assert(q <= m);
        (-q) as i64
    }
}

/// The product of the dimensions.
pub open spec fn product(s: Seq<u32>) -> nat
    decreases s.len(),
{
    if s.len() == 0 { 1 } else { product(s.drop_last()) * s.last() as nat }
}

/// Whether the product of every leading run of dimensions fits a `usize`
/// (the element count is computed one dimension at a time).
pub open spec fn products_fit(s: Seq<u32>) -> bool {
    forall|i: int| 0 <= i <= s.len() ==> #[trigger] product(s.subrange(0, i)) <= usize::MAX
}

/// Whether the tensor is stored 4 bits per value.
pub open spec fn is_q4(q: Quantization) -> bool {
    q == Quantization::Q4_0 || q == Quantization::Q4_1
}

/// Whether the tensor is stored 8 bits per value.
pub open spec fn is_q8(q: Quantization) -> bool {
    q == Quantization::Q8_0 || q == Quantization::Q8_1
}

impl QuantizedTensor {
    /// An empty tensor of the given name, shape and format.
    pub fn empty(name: &str, shape: &[u32], quant: Quantization) -> (t: Self)
        ensures
            t.name@ == name@,
            t.shape@ == shape@,
            t.quant == quant,
            t.data@.len() == 0,
            t.scale@.len() == 0,
    {
        QuantizedTensor {
            name: crate::text::string_of(name),
            shape: vstd::slice::slice_to_vec(shape),
            quant,
            data: Vec::new(),
            scale: Vec::new(),
        }
    }

    /// The number of elements: the product of the dimensions.
    pub fn num_elements(&self) -> (n: usize)
        requires
            products_fit(self.shape@),
        ensures
            n == product(self.shape@),
    {
        let mut p: usize = 1;
        let mut i: usize = 0;
        while i < self.shape.len()
            invariant
                i <= self.shape@.len(),
                p == product(self.shape@.subrange(0, i as int)),
                products_fit(self.shape@),
            decreases self.shape@.len() - i,
        {
            proof {
                assert(product(self.shape@.subrange(0, i + 1)) <= usize::MAX);
                assert(self.shape@.subrange(0, i + 1).drop_last() =~= self.shape@.subrange(0, i as int));
            }
            p = p * (self.shape[i] as usize);
            i = i + 1;
        }
        assert(self.shape@.subrange(0, self.shape@.len() as int) =~= self.shape@);
        p
    }

    /// The number of blocks: the elements divided by the block size,
    /// rounded up.
    pub fn num_blocks(&self) -> (n: usize)
        requires
            products_fit(self.shape@),
            product(self.shape@) + BLOCK_SIZE <= usize::MAX,
        ensures
            n == (product(self.shape@) + BLOCK_SIZE - 1) / (BLOCK_SIZE as int),
    {
        let n = self.num_elements();
        (n + BLOCK_SIZE - 1) / BLOCK_SIZE
    }
}

/// The `k`-th 4-bit value of a byte as a signed number: the low nibble
/// first, each less 8.
pub open spec fn nibble(b: u8, k: int) -> int {
    if k == 0 { (b % 16) as int - 8 } else { (b / 16) as int - 8 }
}

/// Value `j` of a dequantised Q4 block: 4-bit value `j` of the packed
/// bytes times the scale, over the fixed-point scale; 0 past the bytes.
pub open spec fn q4_value(block: Seq<u8>, scale: i32, j: int) -> int {
    if j / 2 < block.len() && j / 2 < 16 { tdiv(nibble(block[j / 2], j % 2) * scale, FP_SCALE as int) } else { 0 }
}

/// Value `j` of a dequantised Q8 block: byte `j` as a signed number times
/// the scale, over the fixed-point scale; 0 past the bytes.
pub open spec fn q8_value(block: Seq<u8>, scale: i32, j: int) -> int {
    if j < block.len() { tdiv(signed_byte(block[j]) * scale, FP_SCALE as int) } else { 0 }
}

/// A byte read as a two's-complement signed number.
pub open spec fn signed_byte(b: u8) -> int {
    if b < 128 { b as int } else { b as int - 256 }
}

/// Scales for which every 4-bit value times the scale fits 32 bits.
pub open spec fn q4_scale_ok(scale: i32) -> bool {
    -268435455 <= scale <= 268435456
}

/// Scales for which every signed byte times the scale fits 32 bits.
pub open spec fn q8_scale_ok(scale: i32) -> bool {
    -16777215 <= scale <= 16777216
}

proof fn lemma_q4_product(lo: int, scale: i32)
    requires
        -8 <= lo <= 7,
        q4_scale_ok(scale),
    ensures
        i32::MIN <= lo * scale <= i32::MAX,
        i32::MIN <= tdiv(lo * scale, FP_SCALE as int) <= i32::MAX,
{
    assert(i32::MIN <= lo * scale <= i32::MAX) by (nonlinear_arith)
        requires -8 <= lo <= 7, -268435455 <= scale <= 268435456;
}

proof fn lemma_q8_product(v: int, scale: i32)
    requires
        -128 <= v <= 127,
        q8_scale_ok(scale),
    ensures
        i32::MIN <= v * scale <= i32::MAX,
        i32::MIN <= tdiv(v * scale, FP_SCALE as int) <= i32::MAX,
{
    assert(i32::MIN <= v * scale <= i32::MAX) by (nonlinear_arith)
        requires -128 <= v <= 127, -16777215 <= scale <= 16777216;
}

/// Dequantise a Q4 block (16 bytes of packed 4-bit values) into 32
/// fixed-point values.
pub fn dequantize_block_q4(block: &[u8], scale: i32) -> (r: Vec<i32>)
    requires
        q4_scale_ok(scale),
    ensures
        r@.len() == BLOCK_SIZE,
        forall|j: int| 0 <= j < BLOCK_SIZE ==> r@[j] == q4_value(block@, scale, j),
{
    let mut result: Vec<i32> = Vec::new();
    let mut j: usize = 0;
    while j < BLOCK_SIZE
        invariant
            j <= BLOCK_SIZE,
            q4_scale_ok(scale),
            result@.len() == j,
            forall|t: int| 0 <= t < j ==> result@[t] == q4_value(block@, scale, t),
        decreases BLOCK_SIZE - j,
    {
        let i = j / 2;
        let v: i32 = if i < block.len() {
            let byte = block[i];
            let lo: i32 = if j % 2 == 0 { (byte % 16) as i32 - 8 } else { (byte / 16) as i32 - 8 };
            assert(lo == nibble(byte, j as int % 2));
            proof {
                lemma_q4_product(lo as int, scale);
            }
            tdiv_i64((lo as i64) * (scale as i64), 256) as i32
        } else {
            0
        };
        result.push(v);
        j = j + 1;
    }
    result
}

/// Dequantise a Q8 block (32 signed bytes) into 32 fixed-point values.
pub fn dequantize_block_q8(block: &[u8], scale: i32) -> (r: Vec<i32>)
    requires
        q8_scale_ok(scale),
    ensures
        r@.len() == BLOCK_SIZE,
        forall|j: int| 0 <= j < BLOCK_SIZE ==> r@[j] == q8_value(block@, scale, j),
{
    let mut result: Vec<i32> = Vec::new();
    let mut j: usize = 0;
    while j < BLOCK_SIZE
        invariant
            j <= BLOCK_SIZE,
            q8_scale_ok(scale),
            result@.len() == j,
            forall|t: int| 0 <= t < j ==> result@[t] == q8_value(block@, scale, t),
        decreases BLOCK_SIZE - j,
    {
        let v: i32 = if j < block.len() {
            let byte = block[j];
            let s: i32 = if byte < 128 { byte as i32 } else { byte as i32 - 256 };
            proof {
                lemma_q8_product(s as int, scale);
            }
            tdiv_i64((s as i64) * (scale as i64), 256) as i32
        } else {
            0
        };
        result.push(v);
        j = j + 1;
    }
    result
}

/// The scale of block `b`: the stored one, else 1.0.
pub open spec fn block_scale(t: QuantizedTensor, b: int) -> i32 {
    if b < t.scale@.len() { t.scale@[b] } else { FP_SCALE }
}

/// The bytes of block `b` (16 for Q4, 32 for Q8), cut at the end of the
/// data.
pub open spec fn block_bytes(data: Seq<u8>, b: int, width: int) -> Seq<u8> {
    let start = b * width;
    let end = if start + width < data.len() { start + width } else { data.len() as int };
    if start < data.len() { data.subrange(start, end) } else { Seq::empty() }
}

/// Element `i` of the dequantised tensor.
pub open spec fn deq_value(t: QuantizedTensor, i: int) -> int {
    let b = i / (BLOCK_SIZE as int);
    let j = i % (BLOCK_SIZE as int);
    if is_q4(t.quant) {
        q4_value(block_bytes(t.data@, b, 16), block_scale(t, b), j)
    } else if is_q8(t.quant) {
        q8_value(block_bytes(t.data@, b, 32), block_scale(t, b), j)
    } else {
        0
    }
}

/// Every block scale keeps the products in 32 bits.
pub open spec fn scales_ok(t: QuantizedTensor) -> bool {
    forall|b: int| 0 <= b < t.scale@.len() ==> if is_q4(t.quant) {
        q4_scale_ok(#[trigger] t.scale@[b])
    } else {
        q8_scale_ok(t.scale@[b])
    }
}

/// Whether the tensor's element count and the blocks covering it fit
/// the machine's sizes.
pub open spec fn sizes_ok(t: QuantizedTensor) -> bool {
    &&& products_fit(t.shape@)
    &&& product(t.shape@) + BLOCK_SIZE <= usize::MAX
}

fn slice_block(data: &Vec<u8>, b: usize, width: usize) -> (r: &[u8])
    requires
        width == 16 || width == 32,
        (b + 1) * width <= usize::MAX,
    ensures
        r@ == block_bytes(data@, b as int, width as int),
{
    let start = b * width;
    if start < data.len() {
        let end = if start + width < data.len() { start + width } else { data.len() };
        vstd::slice::slice_subrange(data.as_slice(), start, end)
    } else {
        let e: &[u8] = &[];
        assert(e@ =~= Seq::<u8>::empty());
        e
    }
}

/// Dequantise a whole tensor into its fixed-point elements.
pub fn dequantize_tensor(t: &QuantizedTensor) -> (r: Vec<i32>)
    requires
        sizes_ok(*t),
        scales_ok(*t),
    ensures
        r@.len() == product(t.shape@),
        forall|i: int| 0 <= i < r@.len() ==> r@[i] == deq_value(*t, i),
{
    let n = t.num_elements();
    let n_blocks = t.num_blocks();
    let mut out: Vec<i32> = Vec::new();
    let mut b: usize = 0;
    assert(n_blocks * 32 >= n && n_blocks * 32 <= n + 31);
    while b < n_blocks
        invariant
            b <= n_blocks,
            n == product(t.shape@),
            n_blocks * 32 <= n + 31,
            n + 32 <= usize::MAX,
            scales_ok(*t),
            out@.len() == b * 32,
            forall|i: int| 0 <= i < b * 32 ==> out@[i] == deq_value(*t, i),
        decreases n_blocks - b,
    {
        let sc: i32 = if b < t.scale.len() { t.scale[b] } else { FP_SCALE };
        assert(sc == block_scale(*t, b as int));
        let ghost before = out@;
        match t.quant {
            Quantization::Q4_0 | Quantization::Q4_1 => {
                proof {
                    if b < t.scale@.len() {
                        assert(q4_scale_ok(t.scale@[b as int]));
                    }
                }
                let block = slice_block(&t.data, b, 16);
                let mut v = dequantize_block_q4(block, sc);
                out.append(&mut v);
                proof {
                    assert forall|i: int| b * 32 <= i < (b + 1) * 32 implies out@[i] == deq_value(*t, i) by {
                        assert(i / 32 == b as int && i % 32 == i - b * 32) by (nonlinear_arith)
                            requires b * 32 <= i < (b + 1) * 32;
                    }
                }
            },
            Quantization::Q8_0 | Quantization::Q8_1 => {
                proof {
                    if b < t.scale@.len() {
                        assert(q8_scale_ok(t.scale@[b as int]));
                    }
                }
                let block = slice_block(&t.data, b, 32);
                let mut v = dequantize_block_q8(block, sc);
                out.append(&mut v);
                proof {
                    assert forall|i: int| b * 32 <= i < (b + 1) * 32 implies out@[i] == deq_value(*t, i) by {
                        assert(i / 32 == b as int && i % 32 == i - b * 32) by (nonlinear_arith)
                            requires b * 32 <= i < (b + 1) * 32;
                    }
                }
            },
            _ => {
                let mut k: usize = 0;
                while k < BLOCK_SIZE
                    invariant
                        k <= BLOCK_SIZE,
                        out@.len() == b * 32 + k,
                        forall|i: int| 0 <= i < b * 32 ==> out@[i] == before[i],
                        forall|i: int| b * 32 <= i < b * 32 + k ==> out@[i] == 0,
                        before.len() == b * 32,
                    decreases BLOCK_SIZE - k,
                {
                    out.push(0);
                    k = k + 1;
                }
            },
        }
        b = b + 1;
    }
    out.truncate(n);
    out
}


/// The dequantised elements of a tensor.
pub open spec fn deq_seq(t: QuantizedTensor) -> Seq<int> {
    Seq::new(product(t.shape@), |i: int| deq_value(t, i))
}

/// Element `i` of a vector, 0 past its end.
pub open spec fn vec_at(a: Seq<i32>, i: int) -> int {
    if 0 <= i < a.len() { a[i] as int } else { 0 }
}

/// Element `i` of the weights, 0 past their end.
pub open spec fn weight_at(w: Seq<int>, i: int) -> int {
    if 0 <= i < w.len() { w[i] } else { 0 }
}

/// The first `c` terms of row `r` of the product of the weights (`cols`
/// per row) with the vector.
pub open spec fn row_dot(a: Seq<i32>, w: Seq<int>, r: int, cols: int, c: int) -> int
    decreases c,
{
    if c <= 0 {
        0
    } else {
        row_dot(a, w, r, cols, c - 1) + vec_at(a, c - 1) * weight_at(w, r * cols + c - 1)
    }
}

/// Whether every partial sum of every row fits 64 bits.
pub open spec fn dots_fit(a: Seq<i32>, w: Seq<int>, rows: int, cols: int) -> bool {
    forall|r: int, c: int| 0 <= r < rows && 0 <= c <= cols ==>
        i64::MIN <= #[trigger] row_dot(a, w, r, cols, c) <= i64::MAX
}

/// Row `r` of the product, back in fixed point (the sum over the
/// fixed-point scale, cut to 32 bits).
pub open spec fn matvec_row(a: Seq<i32>, w: Seq<int>, r: int, cols: int) -> i32 {
    tdiv(row_dot(a, w, r, cols, cols), FP_SCALE as int) as i32
}

/// Product of the dequantised `rows` x `cols` weights with the vector `a`
/// (missing elements of either count as 0).
fn matvec(a: &[i32], b_data: &Vec<i32>, rows: usize, cols: usize, Ghost(w): Ghost<Seq<int>>) -> (r: Vec<i32>)
    requires
        rows * cols <= usize::MAX,
        w.len() == b_data@.len(),
        forall|i: int| 0 <= i < w.len() ==> w[i] == b_data@[i] as int,
        dots_fit(a@, w, rows as int, cols as int),
    ensures
        r@.len() == rows,
        forall|i: int| 0 <= i < rows ==> r@[i] == matvec_row(a@, w, i, cols as int),
{
    let mut result: Vec<i32> = Vec::new();
    let mut r: usize = 0;
    while r < rows
        invariant
            r <= rows,
            rows * cols <= usize::MAX,
            w.len() == b_data@.len(),
            forall|i: int| 0 <= i < w.len() ==> w[i] == b_data@[i] as int,
            dots_fit(a@, w, rows as int, cols as int),
            result@.len() == r,
            forall|i: int| 0 <= i < r ==> result@[i] == matvec_row(a@, w, i, cols as int),
        decreases rows - r,
    {
        let mut acc: i64 = 0;
        let mut c: usize = 0;
        assert(r * cols + cols <= rows * cols) by (nonlinear_arith)
            requires r < rows;
        while c < cols
            invariant
                c <= cols,
                r < rows,
                r * cols + cols <= rows * cols,
                rows * cols <= usize::MAX,
                w.len() == b_data@.len(),
                forall|i: int| 0 <= i < w.len() ==> w[i] == b_data@[i] as int,
                dots_fit(a@, w, rows as int, cols as int),
                acc == row_dot(a@, w, r as int, cols as int, c as int),
            decreases cols - c,
        {
            let b_idx = r * cols + c;
            let b_val: i32 = if b_idx < b_data.len() { b_data[b_idx] } else { 0 };
            let a_val: i32 = if c < a.len() { a[c] } else { 0 };
            assert(row_dot(a@, w, r as int, cols as int, c + 1) == acc + (a_val as int) * (b_val as int));
            assert(i64::MIN <= row_dot(a@, w, r as int, cols as int, c + 1) <= i64::MAX);
            assert(i64::MIN <= (a_val as i64) * (b_val as i64) <= i64::MAX) by (nonlinear_arith)
                requires i32::MIN <= a_val <= i32::MAX, i32::MIN <= b_val <= i32::MAX;
            acc = acc + (a_val as i64) * (b_val as i64);
            c = c + 1;
        }
        let q = tdiv_i64(acc, 256);
        result.push(q as i32);
        r = r + 1;
    }
    result
}

/// Matrix-vector product with Q4-quantised weights: `a` has `cols`
/// fixed-point elements; the result has `rows`.
pub fn matmul_q4(a: &[i32], b_quant: &QuantizedTensor, rows: usize, cols: usize) -> (r: Vec<i32>)
    requires
        sizes_ok(*b_quant),
        scales_ok(*b_quant),
        rows * cols <= usize::MAX,
        dots_fit(a@, deq_seq(*b_quant), rows as int, cols as int),
    ensures
        r@.len() == rows,
        forall|i: int| 0 <= i < rows ==> r@[i] == matvec_row(a@, deq_seq(*b_quant), i, cols as int),
{
    let b_data = dequantize_tensor(b_quant);
    matvec(a, &b_data, rows, cols, Ghost(deq_seq(*b_quant)))
}

/// Matrix-vector product with Q8-quantised weights.
pub fn matmul_q8(a: &[i32], b_quant: &QuantizedTensor, rows: usize, cols: usize) -> (r: Vec<i32>)
    requires
        sizes_ok(*b_quant),
        scales_ok(*b_quant),
        rows * cols <= usize::MAX,
        dots_fit(a@, deq_seq(*b_quant), rows as int, cols as int),
    ensures
        r@.len() == rows,
        forall|i: int| 0 <= i < rows ==> r@[i] == matvec_row(a@, deq_seq(*b_quant), i, cols as int),
{
    let b_data = dequantize_tensor(b_quant);
    matvec(a, &b_data, rows, cols, Ghost(deq_seq(*b_quant)))
}

/// Greedy sampling: the first index of the largest value (0 when there
/// is none).
pub fn argmax(logits: &[i32]) -> (r: u32)
    requires
        logits@.len() <= u32::MAX,
    ensures
        logits@.len() == 0 ==> r == 0,
        logits@.len() > 0 ==> ({
            &&& r < logits@.len()
            &&& forall|j: int| 0 <= j < logits@.len() ==> logits@[j] <= logits@[r as int]
            &&& forall|j: int| 0 <= j < r ==> logits@[j] < logits@[r as int]
        }),
{
    let mut best_idx: u32 = 0;
    let mut best_val: i32 = i32::MIN;
    let n = logits.len();
    let mut i: usize = 0;
    while i < n
        invariant
            n == logits@.len(),
            n <= u32::MAX,
            i <= n,
            i == 0 ==> best_idx == 0 && best_val == i32::MIN,
            i > 0 ==> best_idx < i && best_val == logits@[best_idx as int],
            forall|j: int| 0 <= j < i ==> logits@[j] <= best_val,
            forall|j: int| 0 <= j < best_idx ==> logits@[j] < best_val,
        decreases n - i,
    {
        if logits[i] > best_val {
            best_val = logits[i];
            best_idx = i as u32;
        }
        i = i + 1;
    }
    best_idx
}


/// The top-k candidates of a set of logits: as many as asked for (all
/// when there are fewer), each an index with its logit, no index twice,
/// the logits from largest down, and no index left out with a larger
/// logit than the last one kept.
pub open spec fn top_k_of(logits: Seq<i32>, k: int, r: Seq<(u32, i32)>) -> bool {
    &&& r.len() == if k < logits.len() { k } else { logits.len() as int }
    &&& forall|a: int| 0 <= a < r.len() ==> (r[a].0 as int) < logits.len() && #[trigger] r[a].1 == logits[r[a].0 as int]
    &&& forall|a: int, b: int| 0 <= a < b < r.len() ==> #[trigger] r[a].0 != #[trigger] r[b].0
    &&& forall|a: int, b: int| 0 <= a < b < r.len() ==> r[a].1 >= r[b].1
    &&& r.len() > 0 ==> forall|j: int| 0 <= j < logits.len() && (forall|a: int| 0 <= a < r.len() ==> r[a].0 != j)
            ==> logits[j] <= r[r.len() - 1].1
}

/// Whether some candidate carries index `j`.
pub open spec fn holds_index(v: Seq<(u32, i32)>, j: int) -> bool {
    exists|a: int| 0 <= a < v.len() && #[trigger] v[a].0 == j
}

/// The `k` largest logits with their indices, largest first, found by
/// repeatedly moving the largest remaining candidate forward.
pub fn top_k(logits: &[i32], k: usize) -> (r: Vec<(u32, i32)>)
    requires
        logits@.len() <= u32::MAX,
    ensures
        top_k_of(logits@, k as int, r@),
{
    let n = logits.len();
    let mut v: Vec<(u32, i32)> = Vec::new();
    let mut t: usize = 0;
    while t < n
        invariant
            n == logits@.len(),
            n <= u32::MAX,
            t <= n,
            v@.len() == t,
            forall|a: int| 0 <= a < t ==> #[trigger] v@[a] == (a as u32, logits@[a]),
        decreases n - t,
    {
        v.push((t as u32, logits[t]));
        t = t + 1;
    }
    let kk = if k < n { k } else { n };
    assert forall|j: int| 0 <= j < n implies #[trigger] holds_index(v@, j) by {
        assert(v@[j] == (j as u32, logits@[j]));
        assert(v@[j].0 == j);
    }
    let mut i: usize = 0;
    while i < kk
        invariant
            n == logits@.len(),
            kk <= n,
            i <= kk,
            v@.len() == n,
            forall|a: int| 0 <= a < n ==> (v@[a].0 as int) < n && #[trigger] v@[a].1 == logits@[v@[a].0 as int],
            forall|a: int, b: int| 0 <= a < b < n ==> #[trigger] v@[a].0 != #[trigger] v@[b].0,
            forall|j: int| 0 <= j < n ==> #[trigger] holds_index(v@, j),
            forall|a: int, b: int| 0 <= a < b < i ==> v@[a].1 >= v@[b].1,
            forall|a: int, b: int| 0 <= a < i && i <= b < n ==> v@[a].1 >= v@[b].1,
        decreases kk - i,
    {
        let mut m: usize = i;
        let mut j: usize = i + 1;
        while j < n
            invariant
                n == v@.len(),
                i < n,
                i <= m < n,
                i + 1 <= j <= n,
                forall|b: int| i <= b < j ==> v@[b].1 <= v@[m as int].1,
            decreases n - j,
        {
            if v[j].1 > v[m].1 {
                m = j;
            }
            j = j + 1;
        }
        let ghost before = v@;
        let x = v[i];
        let y = v[m];
        v.set(i, y);
        v.set(m, x);
        proof {
            let sw = before.update(i as int, y).update(m as int, x);
            assert(v@ == sw);
            assert forall|a: int| 0 <= a < n implies #[trigger] v@[a] == (if a == i { before[m as int] } else if a == m { before[i as int] } else { before[a] }) by {}
            assert forall|jj: int| 0 <= jj < n implies #[trigger] holds_index(v@, jj) by {
                assert(holds_index(before, jj));
                let a0 = choose|a: int| 0 <= a < before.len() && #[trigger] before[a].0 == jj;
                if a0 == i {
                    assert(v@[m as int].0 == jj);
                } else if a0 == m {
                    assert(v@[i as int].0 == jj);
                } else {
                    assert(v@[a0].0 == jj);
                }
            }
            assert forall|a: int, b: int| 0 <= a < b < n implies #[trigger] v@[a].0 != #[trigger] v@[b].0 by {
                let a0 = if a == i { m as int } else if a == m { i as int } else { a };
                let b0 = if b == i { m as int } else if b == m { i as int } else { b };
                assert(v@[a] == before[a0] && v@[b] == before[b0]);
                if a0 < b0 {
                    assert(before[a0].0 != before[b0].0);
                } else {
                    assert(before[b0].0 != before[a0].0);
                }
            }
        }
        i = i + 1;
    }
    let ghost full = v@;
    v.truncate(kk);
    proof {
        assert(v@ == full.subrange(0, kk as int));
        if kk > 0 {
            assert forall|jj: int| 0 <= jj < n && (forall|a: int| 0 <= a < v@.len() ==> v@[a].0 != jj)
                implies logits@[jj] <= v@[v@.len() - 1].1 by {
                assert(holds_index(full, jj));
                let a0 = choose|a: int| 0 <= a < full.len() && #[trigger] full[a].0 == jj;
                if a0 < kk {
                    assert(v@[a0].0 == jj);
                }
                assert(full[a0].1 == logits@[jj]);
            }
        }
        assert forall|a: int, b: int| 0 <= a < b < v@.len() implies #[trigger] v@[a].0 != #[trigger] v@[b].0 by {
            assert(full[a].0 != full[b].0);
        }
    }
    v
}


/// Whether `r` is the integer square root of `n`: the largest number whose
/// square is at most `n`.
pub open spec fn is_isqrt(r: int, n: int) -> bool {
    0 <= r && r * r <= n && n < (r + 1) * (r + 1)
}

proof fn lemma_newton_bound(x: int, n: int, r: int)
    requires
        x > 0,
        n > 0,
        0 <= r,
        r * r <= n,
        r <= x,
    ensures
        r <= (x + n / x) / 2,
{
    let d = x - r;
    if r - d > 0 {
        assert((r - d) * x <= n) by (nonlinear_arith)
            requires d == x - r, r * r <= n, d >= 0;
        assert(r - d <= n / x) by (nonlinear_arith)
            requires (r - d) * x <= n, x > 0;
    } else {
        assert(n / x >= 0) by (nonlinear_arith)
            requires n > 0, x > 0;
    }
}

proof fn lemma_newton_descends(x: int, n: int)
    requires
        x > 0,
        n >= 0,
        x * x > n,
    ensures
        (x + n / x) / 2 < x,
{
    assert(n / x < x) by (nonlinear_arith)
        requires x * x > n, x > 0, n >= 0;
}

/// The integer square root (0 for numbers not above 0), by Newton's
/// method.
pub fn isqrt(n: i32) -> (r: i32)
    requires
        n < i32::MAX,
    ensures
        n <= 0 ==> r == 0,
        n > 0 ==> is_isqrt(r as int, n as int),
{
    if n <= 0 {
        return 0;
    }
    let m = n as i64;
    let mut x: i64 = m;
    let mut y: i64 = (x + 1) / 2;
    proof {
        assert(m / m == 1) by (nonlinear_arith) requires m > 0;
        assert forall|r: int| 0 <= r && #[trigger] (r * r) <= m implies r <= y by {
            assert(r <= m) by (nonlinear_arith) requires 0 <= r, r * r <= m, m > 0;
            lemma_newton_bound(m as int, m as int, r);
            assert(m / m == 1) by (nonlinear_arith) requires m > 0;
        }
    }
    while y < x
        invariant
            m == n as int,
            m > 0,
            1 <= y < x || y >= x,
            0 < x <= m,
            0 <= y <= m,
            forall|r: int| 0 <= r && #[trigger] (r * r) <= m ==> r <= x,
            forall|r: int| 0 <= r && #[trigger] (r * r) <= m ==> r <= y,
            y == (x + m / x) / 2,
        decreases x,
    {
        x = y;
        proof {
            assert(x >= 1) by {
                assert(1 * 1 <= m);
            }
            assert(m / x <= m) by (nonlinear_arith) requires x >= 1, m > 0;
        }
        y = (x + m / x) / 2;
        proof {
            assert forall|r: int| 0 <= r && #[trigger] (r * r) <= m implies r <= y by {
                lemma_newton_bound(x as int, m as int, r);
            }
            assert(y <= m) by (nonlinear_arith) requires y == (x + m / x) / 2, 1 <= x <= m, m / x <= m;
            assert(m / x >= 1) by (nonlinear_arith) requires 1 <= x <= m;
            assert(y >= 1);
        }
    }
    proof {
        if x * x > m {
            lemma_newton_descends(x as int, m as int);
        }
        assert(x * x <= m);
        if (x + 1) * (x + 1) <= m {
            assert(x + 1 <= x);
        }
    }
    x as i32
}


/// The sum of the squares of the values.
pub open spec fn sum_squares(x: Seq<i32>) -> int
    decreases x.len(),
{
    if x.len() == 0 { 0 } else { sum_squares(x.drop_last()) + x.last() * x.last() }
}

/// The divisor of an RMS norm: the integer square root of the mean square
/// (cut to 32 bits), or 1 when that is 0.
pub open spec fn rms_of(x: Seq<i32>) -> int {
    let mean = (sum_squares(x) / (x.len() as int)) as i32;
    let r = if mean <= 0 { 0 } else { choose|r: int| is_isqrt(r, mean as int) };
    if r == 0 { 1 } else { r }
}

/// Weight `i`: the given one, else 1.0.
pub open spec fn weight_of(w: Seq<i32>, i: int) -> int {
    if i < w.len() { w[i] as int } else { FP_SCALE as int }
}

proof fn lemma_isqrt_unique(r: int, s: int, n: int)
    requires
        is_isqrt(r, n),
        is_isqrt(s, n),
    ensures
        r == s,
{
    if r < s {
        assert((r + 1) * (r + 1) <= s * s) by (nonlinear_arith) requires 0 <= r, r < s;
    } else if s < r {
        assert((s + 1) * (s + 1) <= r * r) by (nonlinear_arith) requires 0 <= s, s < r;
    }
}

proof fn lemma_sum_squares_prefix(x: Seq<i32>, i: int)
    requires
        0 <= i <= x.len(),
    ensures
        0 <= sum_squares(x.subrange(0, i)) <= sum_squares(x),
    decreases x.len() - i,
{
    if i < x.len() {
        lemma_sum_squares_prefix(x, i + 1);
        assert(x.subrange(0, i + 1).drop_last() =~= x.subrange(0, i));
        let v = x[i] as int;
        assert(v * v >= 0) by (nonlinear_arith);
        lemma_sum_squares_nonneg(x.subrange(0, i));
    } else {
        assert(x.subrange(0, i) =~= x);
        lemma_sum_squares_nonneg(x);
    }
}

proof fn lemma_sum_squares_nonneg(x: Seq<i32>)
    ensures
        sum_squares(x) >= 0,
    decreases x.len(),
{
    if x.len() > 0 {
        lemma_sum_squares_nonneg(x.drop_last());
        let v = x.last() as int;
        assert(v * v >= 0) by (nonlinear_arith);
    }
}

/// RMS normalisation in place: each value times its weight over the
/// integer root of the mean square, rounded toward zero and cut to 32
/// bits. Nothing changes for an empty vector.
pub fn rms_norm(x: &mut Vec<i32>, weight: &[i32])
    requires
        sum_squares(old(x)@) <= i64::MAX,
        old(x)@.len() > 0 ==> ((sum_squares(old(x)@) / (old(x)@.len() as int)) as i32) < i32::MAX,
    ensures
        final(x)@.len() == old(x)@.len(),
        forall|i: int| 0 <= i < old(x)@.len() ==> #[trigger] final(x)@[i]
            == (tdiv(old(x)@[i] * weight_of(weight@, i), rms_of(old(x)@))) as i32,
{
    let n = x.len();
    if n == 0 {
        return;
    }
    let ghost x0 = x@;
    let mut ss: i64 = 0;
    let mut k: usize = 0;
    while k < n
        invariant
            n == x@.len(),
            x@ == x0,
            k <= n,
            sum_squares(x0) <= i64::MAX,
            ss == sum_squares(x0.subrange(0, k as int)),
        decreases n - k,
    {
        proof {
            lemma_sum_squares_prefix(x0, k + 1);
            assert(x0.subrange(0, k + 1).drop_last() =~= x0.subrange(0, k as int));
        }
        let v = x[k] as i64;
        assert(0 <= v * v <= 0x4000_0000_0000_0000) by (nonlinear_arith)
            requires i32::MIN <= v <= i32::MAX;
        assert(ss + v * v == sum_squares(x0.subrange(0, k + 1)));
        ss = ss + v * v;
        k = k + 1;
    }
    assert(x0.subrange(0, n as int) =~= x0);
    proof {
        lemma_sum_squares_nonneg(x0);
    }
    let q: u64 = (ss as u64) / (n as u64);
    assert(q == sum_squares(x0) / (x0.len() as int));
    let mean = q as i32;
    let r0 = isqrt(mean);
    proof {
        if mean > 0 {
            let c = choose|r: int| is_isqrt(r, mean as int);
            assert(is_isqrt(r0 as int, mean as int));
            lemma_isqrt_unique(r0 as int, c, mean as int);
        }
    }
    let rms: i64 = if r0 == 0 { 1 } else { r0 as i64 };
    assert(rms == rms_of(x0));
    let mut i: usize = 0;
    while i < n
        invariant
            n == x@.len(),
            n == x0.len(),
            i <= n,
            rms == rms_of(x0),
            rms >= 1,
            forall|j: int| i <= j < n ==> x@[j] == x0[j],
            forall|j: int| 0 <= j < i ==> #[trigger] x@[j] == (tdiv(x0[j] * weight_of(weight@, j), rms_of(x0))) as i32,
        decreases n - i,
    {
        let w: i32 = if i < weight.len() { weight[i] } else { FP_SCALE };
        let xv = x[i] as i64;
        assert(i32::MIN * i32::MAX <= xv * (w as i64) <= i32::MIN * i32::MIN) by (nonlinear_arith)
            requires i32::MIN <= xv <= i32::MAX, i32::MIN <= w <= i32::MAX;
        let q = tdiv_i64(xv * (w as i64), rms);
        x.set(i, q as i32);
        i = i + 1;
    }
}

/// Division rounds toward zero: the remainder is smaller than the divisor
/// and has the sign of the dividend.
pub proof fn law_tdiv_toward_zero(a: int, b: int)
    requires
        b > 0,
    ensures
        ({
            let r = a - tdiv(a, b) * b;
            &&& -b < r < b
            &&& a >= 0 ==> 0 <= r
            &&& a < 0 ==> r <= 0
        }),
{
    if a >= 0 {
        assert(0 <= a - (a / b) * b < b) by (nonlinear_arith) requires a >= 0, b > 0;
    } else {
        let q = (-a) / b;
        assert(0 <= (-a) - q * b < b) by (nonlinear_arith) requires a < 0, b > 0, q == (-a) / b;
        assert(tdiv(a, b) == -q);
        assert((-q) * b == -(q * b)) by (nonlinear_arith);
    }
}

/// A Q4 byte holds two signed values offset by 8, the first in its low
/// nibble; a Q8 byte is a two's-complement signed number.
pub proof fn law_packed_values(b: u8)
    ensures
        nibble(b, 0) == (b & 0x0Fu8) as int - 8,
        nibble(b, 1) == (b >> 4u8) as int - 8,
        signed_byte(b) == (b & 0x7Fu8) as int - 128 * ((b >> 7u8) as int),
{
    assert((b & 0x0Fu8) == b % 16 && (b >> 4u8) == b / 16 && (b & 0x7Fu8) == b % 128 && (b >> 7u8) == b / 128) by (bit_vector);
}

/// The weights of a `rows` x `cols` matrix (row after row) with 1.0 at
/// row `r`, column `c0` and zero elsewhere.
pub open spec fn unit_weights(rows: int, cols: int, r: int, c0: int) -> Seq<int> {
    Seq::new((rows * cols) as nat, |i: int| if i == r * cols + c0 { FP_SCALE as int } else { 0 })
}

proof fn lemma_unit_dot(a: Seq<i32>, rows: int, cols: int, r: int, c0: int, c: int)
    requires
        0 <= r < rows,
        0 <= c0 < cols,
        0 <= c <= cols,
    ensures
        row_dot(a, unit_weights(rows, cols, r, c0), r, cols, c) == if c0 < c { vec_at(a, c0) * 256 } else { 0 },
    decreases c,
{
    if c > 0 {
        lemma_unit_dot(a, rows, cols, r, c0, c - 1);
        let w = unit_weights(rows, cols, r, c0);
        assert(0 <= r * cols + c - 1 < rows * cols) by (nonlinear_arith)
            requires 0 <= r < rows, 0 < c <= cols;
        assert(rows * cols >= 0) by (nonlinear_arith)
            requires 0 <= r < rows, 0 <= c0 < cols;
        assert(weight_at(w, r * cols + c - 1) == if c - 1 == c0 { 256int } else { 0int });
    }
}

/// Row `r` of the product with a matrix that holds 1.0 only at row `r`,
/// column `c0` is the vector's element `c0`: each row takes its weights
/// from its own stretch of `cols` elements, column by column.
pub proof fn law_row_uses_own_weights(a: Seq<i32>, rows: int, cols: int, r: int, c0: int)
    requires
        0 <= r < rows,
        0 <= c0 < cols,
    ensures
        row_dot(a, unit_weights(rows, cols, r, c0), r, cols, cols) == vec_at(a, c0) * 256,
        matvec_row(a, unit_weights(rows, cols, r, c0), r, cols) == vec_at(a, c0),
{
    lemma_unit_dot(a, rows, cols, r, c0, cols);
    let v = vec_at(a, c0);
    assert(i32::MIN <= v <= i32::MAX);
    if v >= 0 {
        assert((v * 256) / 256 == v) by (nonlinear_arith) requires v >= 0;
    } else {
        assert((-(v * 256)) / 256 == -v) by (nonlinear_arith) requires v < 0;
    }
}

/// At scale 1.0 a Q4 block gives, for each byte, the value of its low
/// nibble and then of its high nibble, each less 8; a Q8 block gives each
/// byte as a two's-complement number; positions past the bytes give 0.
pub proof fn law_block_value_order(block: Seq<u8>, k: int)
    requires
        0 <= k,
    ensures
        k < 16 && k < block.len() ==> q4_value(block, FP_SCALE, 2 * k) == (block[k] & 0x0Fu8) as int - 8,
        k < 16 && k < block.len() ==> q4_value(block, FP_SCALE, 2 * k + 1) == (block[k] >> 4u8) as int - 8,
        k < block.len() ==> q8_value(block, FP_SCALE, k) == (block[k] & 0x7Fu8) as int - 128 * ((block[k] >> 7u8) as int),
        k >= block.len() ==> q8_value(block, FP_SCALE, k) == 0,
        k >= block.len() && k < 32 ==> q4_value(block, FP_SCALE, 2 * k) == 0 && q4_value(block, FP_SCALE, 2 * k + 1) == 0,
{
    if k < block.len() {
        let b = block[k];
        law_packed_values(b);
        assert((2 * k) / 2 == k && (2 * k) % 2 == 0 && (2 * k + 1) / 2 == k && (2 * k + 1) % 2 == 1);
        let x = nibble(b, 0);
        let y = nibble(b, 1);
        assert(tdiv(x * 256, 256) == x) by {
            if x >= 0 { assert((x * 256) / 256 == x) by (nonlinear_arith) requires x >= 0; }
            else { assert((-(x * 256)) / 256 == -x) by (nonlinear_arith) requires x < 0; }
        }
        assert(tdiv(y * 256, 256) == y) by {
            if y >= 0 { assert((y * 256) / 256 == y) by (nonlinear_arith) requires y >= 0; }
            else { assert((-(y * 256)) / 256 == -y) by (nonlinear_arith) requires y < 0; }
        }
        let z = signed_byte(b);
        assert(tdiv(z * 256, 256) == z) by {
            if z >= 0 { assert((z * 256) / 256 == z) by (nonlinear_arith) requires z >= 0; }
            else { assert((-(z * 256)) / 256 == -z) by (nonlinear_arith) requires z < 0; }
        }
    } else {
        assert((2 * k) / 2 == k && (2 * k + 1) / 2 == k);
    }
}

} // verus!
