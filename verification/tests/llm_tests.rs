use merlion_kernel::llm::{
    argmax, dequantize_block_q4, dequantize_block_q8, dequantize_tensor, matmul_q4, matmul_q8, Quantization,
    QuantizedTensor, top_k, isqrt, rms_norm,
};

#[test]
fn q4_block() {
    // 0x9F: low nibble 15 -> 7, high nibble 9 -> 1; scale 2.0.
    let v = dequantize_block_q4(&[0x9F, 0x00], 512);
    assert_eq!(v.len(), 32);
    assert_eq!(&v[..4], &[14, 2, -16, -16]);
    assert!(v[4..].iter().all(|&x| x == 0));
    // Rounding toward zero: -8 * 100 / 256 = -3.125 -> -3.
    assert_eq!(dequantize_block_q4(&[0x00], 100)[0], -3);
}

#[test]
fn q8_block() {
    let v = dequantize_block_q8(&[0x02, 0xFE, 0x80], 256);
    assert_eq!(&v[..4], &[2, -2, -128, 0]);
    assert_eq!(dequantize_block_q8(&[0xFF], 100)[0], 0);
}

#[test]
fn tensor_dequantisation() {
    let mut t = QuantizedTensor::empty("w", &[2, 3], Quantization::Q8_0);
    assert_eq!(t.num_elements(), 6);
    assert_eq!(t.num_blocks(), 1);
    t.data = vec![1, 2, 3, 4, 5];
    assert_eq!(dequantize_tensor(&t), vec![1, 2, 3, 4, 5, 0]);
    t.scale = vec![512];
    assert_eq!(dequantize_tensor(&t), vec![2, 4, 6, 8, 10, 0]);
    let f = QuantizedTensor::empty("f", &[3], Quantization::F32);
    assert_eq!(dequantize_tensor(&f), vec![0, 0, 0]);
}

#[test]
fn matrix_vector_products() {
    // Weights [[1, 2], [3, 4]] as Q8 with scale 1.0 (values 1/256 each).
    let mut t = QuantizedTensor::empty("w", &[2, 2], Quantization::Q8_0);
    t.data = vec![1, 2, 3, 4];
    // a = [256, 512]: rows are (256*1 + 512*2)/256 = 5 and (768 + 2048)/256 = 11.
    assert_eq!(matmul_q8(&[256, 512], &t, 2, 2), vec![5, 11]);
    // A missing vector element counts as 0.
    assert_eq!(matmul_q8(&[256], &t, 2, 2), vec![1, 3]);
    let mut q = QuantizedTensor::empty("q", &[4], Quantization::Q4_0);
    q.data = vec![0x9F, 0x88];
    q.scale = vec![256];
    // Weights 7, 1, 0, 0 (in 1/256 units): (256*7 + 256*1) / 256 = 8.
    assert_eq!(matmul_q4(&[256, 256, 256, 256], &q, 1, 4), vec![8]);
    assert_eq!(matmul_q4(&[-256, 0, 0, 0], &q, 1, 4), vec![-7]);
}

#[test]
fn greedy_choice() {
    assert_eq!(argmax(&[]), 0);
    assert_eq!(argmax(&[3, 9, 2, 9]), 1);
    assert_eq!(argmax(&[i32::MIN, i32::MIN]), 0);
    assert_eq!(argmax(&[-5, -1, -3]), 1);
}

#[test]
fn top_candidates() {
    assert_eq!(top_k(&[5, 1, 9, 3], 2), vec![(2, 9), (0, 5)]);
    assert_eq!(top_k(&[5, 1, 9, 3], 10), vec![(2, 9), (0, 5), (3, 3), (1, 1)]);
    assert_eq!(top_k(&[5, 1], 0), vec![]);
    assert_eq!(top_k(&[], 3), vec![]);
    let t = top_k(&[4, 4, 4], 2);
    assert_eq!(t.len(), 2);
    assert!(t.iter().all(|&(_, v)| v == 4));
    assert_ne!(t[0].0, t[1].0);
}

#[test]
fn integer_square_roots() {
    assert_eq!(isqrt(0), 0);
    assert_eq!(isqrt(-5), 0);
    assert_eq!(isqrt(1), 1);
    assert_eq!(isqrt(15), 3);
    assert_eq!(isqrt(16), 4);
    assert_eq!(isqrt(i32::MAX - 1), 46340);
}

#[test]
fn rms_normalisation() {
    let mut x = vec![3, 4];
    rms_norm(&mut x, &[]);
    assert_eq!(x, vec![256, 341]);
    let mut x = vec![-3, 4];
    rms_norm(&mut x, &[512]);
    assert_eq!(x, vec![-512, 341]);
    let mut z = vec![0, 0];
    rms_norm(&mut z, &[]);
    assert_eq!(z, vec![0, 0]);
    let mut e: Vec<i32> = vec![];
    rms_norm(&mut e, &[]);
    assert!(e.is_empty());
}
