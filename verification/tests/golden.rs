use lfsr::{state_to_s, unroll_lfsr, Lfsr};

#[test]
fn test_unroll() {
    let state = unroll_lfsr(8, 8, 0x7);
    let actual = state_to_s(&state);
    let expected = "c[0] = d[7] ^ d[6] ^ d[0]
c[1] = d[6] ^ d[1] ^ d[0]
c[2] = d[6] ^ d[2] ^ d[1] ^ d[0]
c[3] = d[7] ^ d[3] ^ d[2] ^ d[1]
c[4] = d[4] ^ d[3] ^ d[2]
c[5] = d[5] ^ d[4] ^ d[3]
c[6] = d[6] ^ d[5] ^ d[4]
c[7] = d[7] ^ d[6] ^ d[5]";
    assert_eq!(expected, &actual);
}

#[test]
fn test_unroll_large() {
    let state = unroll_lfsr(56, 8, 0x7);
    let actual = state_to_s(&state);
    let expected = "c[0] = d[54] ^ d[53] ^ d[52] ^ d[50] ^ d[49] ^ d[48] ^ d[45] ^ d[43] ^ d[40] ^ d[39] ^ d[35] ^ d[34] ^ d[31] ^ d[30] ^ d[28] ^ d[23] ^ d[21] ^ d[19] ^ d[18] ^ d[16] ^ d[14] ^ d[12] ^ d[8] ^ d[7] ^ d[6] ^ d[0]
c[1] = d[55] ^ d[52] ^ d[51] ^ d[48] ^ d[46] ^ d[45] ^ d[44] ^ d[43] ^ d[41] ^ d[39] ^ d[36] ^ d[34] ^ d[32] ^ d[30] ^ d[29] ^ d[28] ^ d[24] ^ d[23] ^ d[22] ^ d[21] ^ d[20] ^ d[18] ^ d[17] ^ d[16] ^ d[15] ^ d[14] ^ d[13] ^ d[12] ^ d[9] ^ d[6] ^ d[1] ^ d[0]
c[2] = d[54] ^ d[50] ^ d[48] ^ d[47] ^ d[46] ^ d[44] ^ d[43] ^ d[42] ^ d[39] ^ d[37] ^ d[34] ^ d[33] ^ d[29] ^ d[28] ^ d[25] ^ d[24] ^ d[22] ^ d[17] ^ d[15] ^ d[13] ^ d[12] ^ d[10] ^ d[8] ^ d[6] ^ d[2] ^ d[1] ^ d[0]
c[3] = d[55] ^ d[51] ^ d[49] ^ d[48] ^ d[47] ^ d[45] ^ d[44] ^ d[43] ^ d[40] ^ d[38] ^ d[35] ^ d[34] ^ d[30] ^ d[29] ^ d[26] ^ d[25] ^ d[23] ^ d[18] ^ d[16] ^ d[14] ^ d[13] ^ d[11] ^ d[9] ^ d[7] ^ d[3] ^ d[2] ^ d[1]
c[4] = d[52] ^ d[50] ^ d[49] ^ d[48] ^ d[46] ^ d[45] ^ d[44] ^ d[41] ^ d[39] ^ d[36] ^ d[35] ^ d[31] ^ d[30] ^ d[27] ^ d[26] ^ d[24] ^ d[19] ^ d[17] ^ d[15] ^ d[14] ^ d[12] ^ d[10] ^ d[8] ^ d[4] ^ d[3] ^ d[2]
c[5] = d[53] ^ d[51] ^ d[50] ^ d[49] ^ d[47] ^ d[46] ^ d[45] ^ d[42] ^ d[40] ^ d[37] ^ d[36] ^ d[32] ^ d[31] ^ d[28] ^ d[27] ^ d[25] ^ d[20] ^ d[18] ^ d[16] ^ d[15] ^ d[13] ^ d[11] ^ d[9] ^ d[5] ^ d[4] ^ d[3]
c[6] = d[54] ^ d[52] ^ d[51] ^ d[50] ^ d[48] ^ d[47] ^ d[46] ^ d[43] ^ d[41] ^ d[38] ^ d[37] ^ d[33] ^ d[32] ^ d[29] ^ d[28] ^ d[26] ^ d[21] ^ d[19] ^ d[17] ^ d[16] ^ d[14] ^ d[12] ^ d[10] ^ d[6] ^ d[5] ^ d[4]
c[7] = d[55] ^ d[53] ^ d[52] ^ d[51] ^ d[49] ^ d[48] ^ d[47] ^ d[44] ^ d[42] ^ d[39] ^ d[38] ^ d[34] ^ d[33] ^ d[30] ^ d[29] ^ d[27] ^ d[22] ^ d[20] ^ d[18] ^ d[17] ^ d[15] ^ d[13] ^ d[11] ^ d[7] ^ d[6] ^ d[5]";
    assert_eq!(expected, &actual);
}

#[test]
fn lib_test_unroll() {
    let lfsr = Lfsr::new(8, 8, 0x7, true);
    let actual = lfsr.to_string();
    let expected = "module parallel_lfsr(
    // data in
    input  logic [7:0] d;
    // initial state
    input  logic [7:0] i;
    // final state
    output logic [7:0] c;
);
    c[0] = d[7] ^ d[6] ^ d[0] ^ i[7] ^ i[6] ^ i[0];
    c[1] = d[6] ^ d[1] ^ d[0] ^ i[6] ^ i[1] ^ i[0];
    c[2] = d[6] ^ d[2] ^ d[1] ^ d[0] ^ i[6] ^ i[2] ^ i[1] ^ i[0];
    c[3] = d[7] ^ d[3] ^ d[2] ^ d[1] ^ i[7] ^ i[3] ^ i[2] ^ i[1];
    c[4] = d[4] ^ d[3] ^ d[2] ^ i[4] ^ i[3] ^ i[2];
    c[5] = d[5] ^ d[4] ^ d[3] ^ i[5] ^ i[4] ^ i[3];
    c[6] = d[6] ^ d[5] ^ d[4] ^ i[6] ^ i[5] ^ i[4];
    c[7] = d[7] ^ d[6] ^ d[5] ^ i[7] ^ i[6] ^ i[5];
endmodule
";
    assert_eq!(expected, &actual);
}

#[test]
fn lib_test_unroll_large() {
    let lfsr = Lfsr::new(56, 8, 0x7, false);
    let actual = lfsr.to_string();
    let expected = "module parallel_lfsr(
    // data in
    input  logic [55:0] d;
    // final state
    output logic [7:0] c;
);
    c[0] = d[54] ^ d[53] ^ d[52] ^ d[50] ^ d[49] ^ d[48] ^ d[45] ^ d[43] ^ d[40] ^ d[39] ^ d[35] ^ d[34] ^ d[31] ^ d[30] ^ d[28] ^ d[23] ^ d[21] ^ d[19] ^ d[18] ^ d[16] ^ d[14] ^ d[12] ^ d[8] ^ d[7] ^ d[6] ^ d[0];
    c[1] = d[55] ^ d[52] ^ d[51] ^ d[48] ^ d[46] ^ d[45] ^ d[44] ^ d[43] ^ d[41] ^ d[39] ^ d[36] ^ d[34] ^ d[32] ^ d[30] ^ d[29] ^ d[28] ^ d[24] ^ d[23] ^ d[22] ^ d[21] ^ d[20] ^ d[18] ^ d[17] ^ d[16] ^ d[15] ^ d[14] ^ d[13] ^ d[12] ^ d[9] ^ d[6] ^ d[1] ^ d[0];
    c[2] = d[54] ^ d[50] ^ d[48] ^ d[47] ^ d[46] ^ d[44] ^ d[43] ^ d[42] ^ d[39] ^ d[37] ^ d[34] ^ d[33] ^ d[29] ^ d[28] ^ d[25] ^ d[24] ^ d[22] ^ d[17] ^ d[15] ^ d[13] ^ d[12] ^ d[10] ^ d[8] ^ d[6] ^ d[2] ^ d[1] ^ d[0];
    c[3] = d[55] ^ d[51] ^ d[49] ^ d[48] ^ d[47] ^ d[45] ^ d[44] ^ d[43] ^ d[40] ^ d[38] ^ d[35] ^ d[34] ^ d[30] ^ d[29] ^ d[26] ^ d[25] ^ d[23] ^ d[18] ^ d[16] ^ d[14] ^ d[13] ^ d[11] ^ d[9] ^ d[7] ^ d[3] ^ d[2] ^ d[1];
    c[4] = d[52] ^ d[50] ^ d[49] ^ d[48] ^ d[46] ^ d[45] ^ d[44] ^ d[41] ^ d[39] ^ d[36] ^ d[35] ^ d[31] ^ d[30] ^ d[27] ^ d[26] ^ d[24] ^ d[19] ^ d[17] ^ d[15] ^ d[14] ^ d[12] ^ d[10] ^ d[8] ^ d[4] ^ d[3] ^ d[2];
    c[5] = d[53] ^ d[51] ^ d[50] ^ d[49] ^ d[47] ^ d[46] ^ d[45] ^ d[42] ^ d[40] ^ d[37] ^ d[36] ^ d[32] ^ d[31] ^ d[28] ^ d[27] ^ d[25] ^ d[20] ^ d[18] ^ d[16] ^ d[15] ^ d[13] ^ d[11] ^ d[9] ^ d[5] ^ d[4] ^ d[3];
    c[6] = d[54] ^ d[52] ^ d[51] ^ d[50] ^ d[48] ^ d[47] ^ d[46] ^ d[43] ^ d[41] ^ d[38] ^ d[37] ^ d[33] ^ d[32] ^ d[29] ^ d[28] ^ d[26] ^ d[21] ^ d[19] ^ d[17] ^ d[16] ^ d[14] ^ d[12] ^ d[10] ^ d[6] ^ d[5] ^ d[4];
    c[7] = d[55] ^ d[53] ^ d[52] ^ d[51] ^ d[49] ^ d[48] ^ d[47] ^ d[44] ^ d[42] ^ d[39] ^ d[38] ^ d[34] ^ d[33] ^ d[30] ^ d[29] ^ d[27] ^ d[22] ^ d[20] ^ d[18] ^ d[17] ^ d[15] ^ d[13] ^ d[11] ^ d[7] ^ d[6] ^ d[5];
endmodule
";
    assert_eq!(expected, &actual);
}
