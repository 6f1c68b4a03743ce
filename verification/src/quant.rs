//! Dequantization: what a level stands for before the inverse transform.
use crate::bits;
use vstd::prelude::*;

verus! {

/// The DC quantizer step of every index, 8 bits per sample.
pub const DC_Q8: [i32; 256] = [
    4, 8, 8, 9, 10, 11, 12, 12, 13, 14, 15, 16, 17, 18, 19, 19, 20, 21, 22, 23, 24, 25, 26, 26, 27,
    28, 29, 30, 31, 32, 32, 33, 34, 35, 36, 37, 38, 38, 39, 40, 41, 42, 43, 43, 44, 45, 46, 47, 48,
    48, 49, 50, 51, 52, 53, 53, 54, 55, 56, 57, 57, 58, 59, 60, 61, 62, 62, 63, 64, 65, 66, 66, 67,
    68, 69, 70, 70, 71, 72, 73, 74, 74, 75, 76, 77, 78, 78, 79, 80, 81, 81, 82, 83, 84, 85, 85, 87,
    88, 90, 92, 93, 95, 96, 98, 99, 101, 102, 104, 105, 107, 108, 110, 111, 113, 114, 116, 117, 118,
    120, 121, 123, 125, 127, 129, 131, 134, 136, 138, 140, 142, 144, 146, 148, 150, 152, 154, 156,
    158, 161, 164, 166, 169, 172, 174, 177, 180, 182, 185, 187, 190, 192, 195, 199, 202, 205, 208,
    211, 214, 217, 220, 223, 226, 230, 233, 237, 240, 243, 247, 250, 253, 257, 261, 265, 269, 272,
    276, 280, 284, 288, 292, 296, 300, 304, 309, 313, 317, 322, 326, 330, 335, 340, 344, 349, 354,
    359, 364, 369, 374, 379, 384, 389, 395, 400, 406, 411, 417, 423, 429, 435, 441, 447, 454, 461,
    467, 475, 482, 489, 497, 505, 513, 522, 530, 539, 549, 559, 569, 579, 590, 602, 614, 626, 640,
    654, 668, 684, 700, 717, 736, 755, 775, 796, 819, 843, 869, 896, 925, 955, 988, 1022, 1058,
    1098, 1139, 1184, 1232, 1282, 1336,
];

/// The DC quantizer step of every index, 10 bits per sample.
pub const DC_Q10: [i32; 256] = [
    4, 9, 10, 13, 15, 17, 20, 22, 25, 28, 31, 34, 37, 40, 43, 47, 50, 53, 57, 60, 64, 68, 71, 75,
    78, 82, 86, 90, 93, 97, 101, 105, 109, 113, 116, 120, 124, 128, 132, 136, 140, 143, 147, 151,
    155, 159, 163, 166, 170, 174, 178, 182, 185, 189, 193, 197, 200, 204, 208, 212, 215, 219, 223,
    226, 230, 233, 237, 241, 244, 248, 251, 255, 259, 262, 266, 269, 273, 276, 280, 283, 287, 290,
    293, 297, 300, 304, 307, 310, 314, 317, 321, 324, 327, 331, 334, 337, 343, 350, 356, 362, 369,
    375, 381, 387, 394, 400, 406, 412, 418, 424, 430, 436, 442, 448, 454, 460, 466, 472, 478, 484,
    490, 499, 507, 516, 525, 533, 542, 550, 559, 567, 576, 584, 592, 601, 609, 617, 625, 634, 644,
    655, 666, 676, 687, 698, 708, 718, 729, 739, 749, 759, 770, 782, 795, 807, 819, 831, 844, 856,
    868, 880, 891, 906, 920, 933, 947, 961, 975, 988, 1001, 1015, 1030, 1045, 1061, 1076, 1090,
    1105, 1120, 1137, 1153, 1170, 1186, 1202, 1218, 1236, 1253, 1271, 1288, 1306, 1323, 1342, 1361,
    1379, 1398, 1416, 1436, 1456, 1476, 1496, 1516, 1537, 1559, 1580, 1601, 1624, 1647, 1670, 1692,
    1717, 1741, 1766, 1791, 1817, 1844, 1871, 1900, 1929, 1958, 1990, 2021, 2054, 2088, 2123, 2159,
    2197, 2236, 2276, 2319, 2363, 2410, 2458, 2508, 2561, 2616, 2675, 2737, 2802, 2871, 2944, 3020,
    3102, 3188, 3280, 3375, 3478, 3586, 3702, 3823, 3953, 4089, 4236, 4394, 4559, 4737, 4929, 5130,
    5347,
];

/// The DC quantizer step of every index, 12 bits per sample.
pub const DC_Q12: [i32; 256] = [
    4, 12, 18, 25, 33, 41, 50, 60, 70, 80, 91, 103, 115, 127, 140, 153, 166, 180, 194, 208, 222,
    237, 251, 266, 281, 296, 312, 327, 343, 358, 374, 390, 405, 421, 437, 453, 469, 484, 500, 516,
    532, 548, 564, 580, 596, 611, 627, 643, 659, 674, 690, 706, 721, 737, 752, 768, 783, 798, 814,
    829, 844, 859, 874, 889, 904, 919, 934, 949, 964, 978, 993, 1008, 1022, 1037, 1051, 1065, 1080,
    1094, 1108, 1122, 1136, 1151, 1165, 1179, 1192, 1206, 1220, 1234, 1248, 1261, 1275, 1288, 1302,
    1315, 1329, 1342, 1368, 1393, 1419, 1444, 1469, 1494, 1519, 1544, 1569, 1594, 1618, 1643, 1668,
    1692, 1717, 1741, 1765, 1789, 1814, 1838, 1862, 1885, 1909, 1933, 1957, 1992, 2027, 2061, 2096,
    2130, 2165, 2199, 2233, 2267, 2300, 2334, 2367, 2400, 2434, 2467, 2499, 2532, 2575, 2618, 2661,
    2704, 2746, 2788, 2830, 2872, 2913, 2954, 2995, 3036, 3076, 3127, 3177, 3226, 3275, 3324, 3373,
    3421, 3469, 3517, 3565, 3621, 3677, 3733, 3788, 3843, 3897, 3951, 4005, 4058, 4119, 4181, 4241,
    4301, 4361, 4420, 4479, 4546, 4612, 4677, 4742, 4807, 4871, 4942, 5013, 5083, 5153, 5222, 5291,
    5367, 5442, 5517, 5591, 5665, 5745, 5825, 5905, 5984, 6063, 6149, 6234, 6319, 6404, 6495, 6587,
    6678, 6769, 6867, 6966, 7064, 7163, 7269, 7376, 7483, 7599, 7715, 7832, 7958, 8085, 8214, 8352,
    8492, 8635, 8788, 8945, 9104, 9275, 9450, 9639, 9832, 10031, 10245, 10465, 10702, 10946, 11210,
    11482, 11776, 12081, 12409, 12750, 13118, 13501, 13913, 14343, 14807, 15290, 15812, 16356,
    16943, 17575, 18237, 18949, 19718, 20521, 21387,
];

/// The AC quantizer step of every index, 8 bits per sample.
pub const AC_Q8: [i32; 256] = [
    4, 8, 9, 10, 11, 12, 13, 14, 15, 16, 17, 18, 19, 20, 21, 22, 23, 24, 25, 26, 27, 28, 29, 30, 31,
    32, 33, 34, 35, 36, 37, 38, 39, 40, 41, 42, 43, 44, 45, 46, 47, 48, 49, 50, 51, 52, 53, 54, 55,
    56, 57, 58, 59, 60, 61, 62, 63, 64, 65, 66, 67, 68, 69, 70, 71, 72, 73, 74, 75, 76, 77, 78, 79,
    80, 81, 82, 83, 84, 85, 86, 87, 88, 89, 90, 91, 92, 93, 94, 95, 96, 97, 98, 99, 100, 101, 102,
    104, 106, 108, 110, 112, 114, 116, 118, 120, 122, 124, 126, 128, 130, 132, 134, 136, 138, 140,
    142, 144, 146, 148, 150, 152, 155, 158, 161, 164, 167, 170, 173, 176, 179, 182, 185, 188, 191,
    194, 197, 200, 203, 207, 211, 215, 219, 223, 227, 231, 235, 239, 243, 247, 251, 255, 260, 265,
    270, 275, 280, 285, 290, 295, 300, 305, 311, 317, 323, 329, 335, 341, 347, 353, 359, 366, 373,
    380, 387, 394, 401, 408, 416, 424, 432, 440, 448, 456, 465, 474, 483, 492, 501, 510, 520, 530,
    540, 550, 560, 571, 582, 593, 604, 615, 627, 639, 651, 663, 676, 689, 702, 715, 729, 743, 757,
    771, 786, 801, 816, 832, 848, 864, 881, 898, 915, 933, 951, 969, 988, 1007, 1026, 1046, 1066,
    1087, 1108, 1129, 1151, 1173, 1196, 1219, 1243, 1267, 1292, 1317, 1343, 1369, 1396, 1423, 1451,
    1479, 1508, 1537, 1567, 1597, 1628, 1660, 1692, 1725, 1759, 1793, 1828,
];

/// The AC quantizer step of every index, 10 bits per sample.
pub const AC_Q10: [i32; 256] = [
    4, 9, 11, 13, 16, 18, 21, 24, 27, 30, 33, 37, 40, 44, 48, 51, 55, 59, 63, 67, 71, 75, 79, 83,
    88, 92, 96, 100, 105, 109, 114, 118, 122, 127, 131, 136, 140, 145, 149, 154, 158, 163, 168, 172,
    177, 181, 186, 190, 195, 199, 204, 208, 213, 217, 222, 226, 231, 235, 240, 244, 249, 253, 258,
    262, 267, 271, 275, 280, 284, 289, 293, 297, 302, 306, 311, 315, 319, 324, 328, 332, 337, 341,
    345, 349, 354, 358, 362, 367, 371, 375, 379, 384, 388, 392, 396, 401, 409, 417, 425, 433, 441,
    449, 458, 466, 474, 482, 490, 498, 506, 514, 523, 531, 539, 547, 555, 563, 571, 579, 588, 596,
    604, 616, 628, 640, 652, 664, 676, 688, 700, 713, 725, 737, 749, 761, 773, 785, 797, 809, 825,
    841, 857, 873, 889, 905, 922, 938, 954, 970, 986, 1002, 1018, 1038, 1058, 1078, 1098, 1118,
    1138, 1158, 1178, 1198, 1218, 1242, 1266, 1290, 1314, 1338, 1362, 1386, 1411, 1435, 1463, 1491,
    1519, 1547, 1575, 1603, 1631, 1663, 1695, 1727, 1759, 1791, 1823, 1859, 1895, 1931, 1967, 2003,
    2039, 2079, 2119, 2159, 2199, 2239, 2283, 2327, 2371, 2415, 2459, 2507, 2555, 2603, 2651, 2703,
    2755, 2807, 2859, 2915, 2971, 3027, 3083, 3143, 3203, 3263, 3327, 3391, 3455, 3523, 3591, 3659,
    3731, 3803, 3876, 3952, 4028, 4104, 4184, 4264, 4348, 4432, 4516, 4604, 4692, 4784, 4876, 4972,
    5068, 5168, 5268, 5372, 5476, 5584, 5692, 5804, 5916, 6032, 6148, 6268, 6388, 6512, 6640, 6768,
    6900, 7036, 7172, 7312,
];

/// The AC quantizer step of every index, 12 bits per sample.
pub const AC_Q12: [i32; 256] = [
    4, 13, 19, 27, 35, 44, 54, 64, 75, 87, 99, 112, 126, 139, 154, 168, 183, 199, 214, 230, 247,
    263, 280, 297, 314, 331, 349, 366, 384, 402, 420, 438, 456, 475, 493, 511, 530, 548, 567, 586,
    604, 623, 642, 660, 679, 698, 716, 735, 753, 772, 791, 809, 828, 846, 865, 884, 902, 920, 939,
    957, 976, 994, 1012, 1030, 1049, 1067, 1085, 1103, 1121, 1139, 1157, 1175, 1193, 1211, 1229,
    1246, 1264, 1282, 1299, 1317, 1335, 1352, 1370, 1387, 1405, 1422, 1440, 1457, 1474, 1491, 1509,
    1526, 1543, 1560, 1577, 1595, 1627, 1660, 1693, 1725, 1758, 1791, 1824, 1856, 1889, 1922, 1954,
    1987, 2020, 2052, 2085, 2118, 2150, 2183, 2216, 2248, 2281, 2313, 2346, 2378, 2411, 2459, 2508,
    2556, 2605, 2653, 2701, 2750, 2798, 2847, 2895, 2943, 2992, 3040, 3088, 3137, 3185, 3234, 3298,
    3362, 3426, 3491, 3555, 3619, 3684, 3748, 3812, 3876, 3941, 4005, 4069, 4149, 4230, 4310, 4390,
    4470, 4550, 4631, 4711, 4791, 4871, 4967, 5064, 5160, 5256, 5352, 5448, 5544, 5641, 5737, 5849,
    5961, 6073, 6185, 6297, 6410, 6522, 6650, 6778, 6906, 7034, 7162, 7290, 7435, 7579, 7723, 7867,
    8011, 8155, 8315, 8475, 8635, 8795, 8956, 9132, 9308, 9484, 9660, 9836, 10028, 10220, 10412,
    10604, 10812, 11020, 11228, 11437, 11661, 11885, 12109, 12333, 12573, 12813, 13053, 13309,
    13565, 13821, 14093, 14365, 14637, 14925, 15213, 15502, 15806, 16110, 16414, 16734, 17054,
    17390, 17726, 18062, 18414, 18766, 19134, 19502, 19886, 20270, 20670, 21070, 21486, 21902,
    22334, 22766, 23214, 23662, 24126, 24590, 25070, 25551, 26047, 26559, 27071, 27599, 28143,
    28687, 29247,
];

/// Entry `i` of the 8-bit DC table.
#[verifier::opaque]
pub open spec fn dc8(i: int) -> int {
    DC_Q8[i] as int
}

/// Entry `i` of the 10-bit DC table.
#[verifier::opaque]
pub open spec fn dc10(i: int) -> int {
    DC_Q10[i] as int
}

/// Entry `i` of the 12-bit DC table.
#[verifier::opaque]
pub open spec fn dc12(i: int) -> int {
    DC_Q12[i] as int
}

/// Entry `i` of the 8-bit AC table.
#[verifier::opaque]
pub open spec fn ac8(i: int) -> int {
    AC_Q8[i] as int
}

/// Entry `i` of the 10-bit AC table.
#[verifier::opaque]
pub open spec fn ac10(i: int) -> int {
    AC_Q10[i] as int
}

/// Entry `i` of the 12-bit AC table.
#[verifier::opaque]
pub open spec fn ac12(i: int) -> int {
    AC_Q12[i] as int
}

/// The quantizer step of the DC coefficient.
#[verifier::opaque]
pub open spec fn spec_dc_q(bit_depth: int, q_idx: int) -> int {
    let i = bits::spec_clamp(q_idx, 0, 255);
    if bit_depth == 8 {
        dc8(i)
    } else if bit_depth == 10 {
        dc10(i)
    } else {
        dc12(i)
    }
}

/// The quantizer step of every other coefficient.
#[verifier::opaque]
pub open spec fn spec_ac_q(bit_depth: int, q_idx: int) -> int {
    let i = bits::spec_clamp(q_idx, 0, 255);
    if bit_depth == 8 {
        ac8(i)
    } else if bit_depth == 10 {
        ac10(i)
    } else {
        ac12(i)
    }
}

/// Whether this is a bit depth that samples come in.
pub open spec fn is_bit_depth(bit_depth: int) -> bool {
    bit_depth == 8 || bit_depth == 10 || bit_depth == 12
}

/// What a dequantized coefficient is divided by: large transforms carry their
/// coefficients at a finer scale.
pub open spec fn spec_dq_denom(w: int, h: int) -> int {
    if w * h > 1024 {
        4
    } else if w * h > 256 {
        2
    } else {
        1
    }
}

/// The coefficient that `level` stands for at step `q`: the product's low 24
/// bits over the denominator, truncated toward zero, held to eight bits more
/// than a sample has.
pub open spec fn spec_dequant(level: int, q: int, denom: int, bit_depth: int) -> int {
    let magnitude = if level < 0 {
        -level
    } else {
        level
    };
    let scaled = ((magnitude * q) % 0x100_0000) / denom;
    bits::spec_clamp(
        if level < 0 {
            -scaled
        } else {
            scaled
        },
        -bits::pow2((bit_depth + 7) as nat),
        bits::pow2((bit_depth + 7) as nat) - 1,
    )
}

/// The step of the coefficient at raster position `i`.
pub open spec fn step_at(i: int, bit_depth: int, q_idx: int, dc_delta: int, ac_delta: int) -> int {
    if i == 0 {
        spec_dc_q(bit_depth, q_idx + dc_delta)
    } else {
        spec_ac_q(bit_depth, q_idx + ac_delta)
    }
}

/// The coefficients that a `w` by `h` grid of levels stands for.
pub open spec fn spec_dequant_wh(
    levels: Seq<i32>,
    w: int,
    h: int,
    bit_depth: int,
    q_idx: int,
    dc_delta: int,
    ac_delta: int,
) -> Seq<i32> {
    Seq::new(
        levels.len(),
        |i: int|
            spec_dequant(
                levels[i] as int,
                step_at(i, bit_depth, q_idx, dc_delta, ac_delta),
                spec_dq_denom(w, h),
                bit_depth,
            ) as i32,
    )
}

proof fn lemma_dc8_range(i: int)
    requires
        0 <= i < 256,
    ensures
        4 <= dc8(i) <= 21387,
        dc8(0) == 4,
{
    reveal(dc8);
    assert(forall|k: int| 0 <= k < 256 ==> 4 <= #[trigger] DC_Q8[k] <= 21387);
}

proof fn lemma_dc10_range(i: int)
    requires
        0 <= i < 256,
    ensures
        4 <= dc10(i) <= 21387,
        dc10(0) == 4,
{
    reveal(dc10);
    assert(forall|k: int| 0 <= k < 256 ==> 4 <= #[trigger] DC_Q10[k] <= 21387);
}

proof fn lemma_dc12_range(i: int)
    requires
        0 <= i < 256,
    ensures
        4 <= dc12(i) <= 21387,
        dc12(0) == 4,
{
    reveal(dc12);
    assert(forall|k: int| 0 <= k < 256 ==> 4 <= #[trigger] DC_Q12[k] <= 21387);
}

proof fn lemma_ac8_range(i: int)
    requires
        0 <= i < 256,
    ensures
        4 <= ac8(i) <= 29247,
        ac8(0) == 4,
{
    reveal(ac8);
    assert(forall|k: int| 0 <= k < 256 ==> 4 <= #[trigger] AC_Q8[k] <= 29247);
}

proof fn lemma_ac10_range(i: int)
    requires
        0 <= i < 256,
    ensures
        4 <= ac10(i) <= 29247,
        ac10(0) == 4,
{
    reveal(ac10);
    assert(forall|k: int| 0 <= k < 256 ==> 4 <= #[trigger] AC_Q10[k] <= 29247);
}

proof fn lemma_ac12_range(i: int)
    requires
        0 <= i < 256,
    ensures
        4 <= ac12(i) <= 29247,
        ac12(0) == 4,
{
    reveal(ac12);
    assert(forall|k: int| 0 <= k < 256 ==> 4 <= #[trigger] AC_Q12[k] <= 29247);
}

/// Every step is positive and below `2^15`.
pub proof fn steps_are_positive(bit_depth: int, q_idx: int)
    ensures
        4 <= spec_dc_q(bit_depth, q_idx) <= 21387,
        4 <= spec_ac_q(bit_depth, q_idx) <= 29247,
{
    reveal(spec_dc_q);
    reveal(spec_ac_q);
    let i = bits::spec_clamp(q_idx, 0, 255);
    lemma_dc8_range(i);
    lemma_dc10_range(i);
    lemma_dc12_range(i);
    lemma_ac8_range(i);
    lemma_ac10_range(i);
    lemma_ac12_range(i);
}

/// Both steps are four at index zero, whatever the bit depth.
pub proof fn index_zero_steps_are_four(bit_depth: int)
    ensures
        spec_dc_q(bit_depth, 0) == 4,
        spec_ac_q(bit_depth, 0) == 4,
{
    reveal(spec_dc_q);
    reveal(spec_ac_q);
    lemma_dc8_range(0);
    lemma_dc10_range(0);
    lemma_dc12_range(0);
    lemma_ac8_range(0);
    lemma_ac10_range(0);
    lemma_ac12_range(0);
}

/// The quantizer step of the DC coefficient; an index outside the table reads
/// the nearest entry.
pub fn dc_q(bit_depth: u8, q_idx: i32) -> (q: i32)
    requires
        is_bit_depth(bit_depth as int),
    ensures
        q == spec_dc_q(bit_depth as int, q_idx as int),
{
    proof {
        reveal(spec_dc_q);
        reveal(dc8);
        reveal(dc10);
        reveal(dc12);
    }
    let i: usize = table_index(q_idx);
    match bit_depth {
        8 => DC_Q8[i],
        10 => DC_Q10[i],
        _ => DC_Q12[i],
    }
}

/// The quantizer step of every other coefficient; an index outside the table
/// reads the nearest entry.
pub fn ac_q(bit_depth: u8, q_idx: i32) -> (q: i32)
    requires
        is_bit_depth(bit_depth as int),
    ensures
        q == spec_ac_q(bit_depth as int, q_idx as int),
{
    proof {
        reveal(spec_ac_q);
        reveal(ac8);
        reveal(ac10);
        reveal(ac12);
    }
    let i: usize = table_index(q_idx);
    match bit_depth {
        8 => AC_Q8[i],
        10 => AC_Q10[i],
        _ => AC_Q12[i],
    }
}

fn table_index(q_idx: i32) -> (i: usize)
    ensures
        i == bits::spec_clamp(q_idx as int, 0, 255),
        i < 256,
{
    if q_idx < 0 {
        0
    } else if q_idx > 255 {
        255
    } else {
        q_idx as usize
    }
}

/// The denominator of a `w` by `h` transform's coefficients.
pub fn dq_denom_wh(w: usize, h: usize) -> (d: i32)
    requires
        w <= 64,
        h <= 64,
    ensures
        d == spec_dq_denom(w as int, h as int),
{
    assert(w * h <= 4096) by (nonlinear_arith)
        requires
            w <= 64,
            h <= 64,
    ;
    let area: usize = w * h;
    if area > 1024 {
        4
    } else if area > 256 {
        2
    } else {
        1
    }
}

/// The denominator of a square transform's coefficients.
pub fn dq_denom(side: usize) -> (d: i32)
    requires
        side <= 64,
    ensures
        d == spec_dq_denom(side as int, side as int),
{
    dq_denom_wh(side, side)
}

/// One coefficient: see [`spec_dequant`].
fn dequant_one(level: i32, q: i32, denom: i32, bit_depth: u8) -> (c: i32)
    requires
        4 <= q <= 29247,
        denom == 1 || denom == 2 || denom == 4,
        is_bit_depth(bit_depth as int),
    ensures
        c == spec_dequant(level as int, q as int, denom as int, bit_depth as int),
{
    let wide: i64 = level as i64;
    let magnitude: i64 = if wide < 0 {
        -wide
    } else {
        wide
    };
    assert(0 <= magnitude * q <= 0x8000_0000 * 29247) by (nonlinear_arith)
        requires
            0 <= magnitude <= 0x8000_0000,
            0 <= q <= 29247,
    ;
    let product: u64 = (magnitude * (q as i64)) as u64;
    let scaled: i64 = ((product % 0x100_0000) / (denom as u64)) as i64;
    let bound: i64 = match bit_depth {
        8 => 0x8000,
        10 => 0x2_0000,
        _ => 0x8_0000,
    };
    proof {
        bits::lemma_pow2_values();
        reveal_with_fuel(bits::pow2, 6);
        assert(bits::pow2((bit_depth + 7) as nat) == bound);
        assert(0 <= scaled < 0x100_0000);
    }
    let signed: i64 = if wide < 0 {
        -scaled
    } else {
        scaled
    };
    if signed < -bound {
        (-bound) as i32
    } else if signed > bound - 1 {
        (bound - 1) as i32
    } else {
        signed as i32
    }
}

/// The coefficients that a `w` by `h` grid of levels stands for.
pub fn dequant_wh(
    levels: &[i32],
    w: usize,
    h: usize,
    bit_depth: u8,
    q_idx: i32,
    dc_delta: i32,
    ac_delta: i32,
) -> (dq: Vec<i32>)
    requires
        w <= 64,
        h <= 64,
        is_bit_depth(bit_depth as int),
        -0x8000_0000 <= q_idx + dc_delta <= 0x7fff_ffff,
        -0x8000_0000 <= q_idx + ac_delta <= 0x7fff_ffff,
    ensures
        dq@ == spec_dequant_wh(
            levels@,
            w as int,
            h as int,
            bit_depth as int,
            q_idx as int,
            dc_delta as int,
            ac_delta as int,
        ),
{
    let denom: i32 = dq_denom_wh(w, h);
    let dc: i32 = dc_q(bit_depth, q_idx + dc_delta);
    let ac: i32 = ac_q(bit_depth, q_idx + ac_delta);
    proof {
        steps_are_positive(bit_depth as int, q_idx + dc_delta);
        steps_are_positive(bit_depth as int, q_idx + ac_delta);
    }
    let mut dq: Vec<i32> = Vec::new();
    for i in 0..levels.len()
        invariant
            is_bit_depth(bit_depth as int),
            4 <= dc <= 29247,
            4 <= ac <= 29247,
            denom == 1 || denom == 2 || denom == 4,
            denom == spec_dq_denom(w as int, h as int),
            dc == spec_dc_q(bit_depth as int, q_idx + dc_delta),
            ac == spec_ac_q(bit_depth as int, q_idx + ac_delta),
            dq.len() == i,
            forall|k: int|
                0 <= k < i ==> dq@[k] == spec_dequant_wh(
                    levels@,
                    w as int,
                    h as int,
                    bit_depth as int,
                    q_idx as int,
                    dc_delta as int,
                    ac_delta as int,
                )[k],
    {
        dq.push(
            dequant_one(
                levels[i],
                if i == 0 {
                    dc
                } else {
                    ac
                },
                denom,
                bit_depth,
            ),
        );
    }
    assert(dq@ =~= spec_dequant_wh(
        levels@,
        w as int,
        h as int,
        bit_depth as int,
        q_idx as int,
        dc_delta as int,
        ac_delta as int,
    ));
    dq
}

/// A zero level stands for a zero coefficient.
pub proof fn zero_dequantizes_to_zero(q: int, denom: int, bit_depth: int)
    requires
        denom > 0,
        bit_depth >= 0,
    ensures
        spec_dequant(0, q, denom, bit_depth) == 0,
{
    bits::lemma_pow2_positive((bit_depth + 7) as nat);
    assert(0 * q == 0);
    vstd::arithmetic::div_mod::lemma_div_basics(denom);
}

/// A coefficient always fits in eight bits more than a sample has.
pub proof fn coefficients_fit(level: int, q: int, denom: int, bit_depth: int)
    requires
        bit_depth >= 0,
    ensures
        -bits::pow2((bit_depth + 7) as nat) <= spec_dequant(level, q, denom, bit_depth)
            < bits::pow2((bit_depth + 7) as nat),
{
    bits::lemma_pow2_positive((bit_depth + 7) as nat);
}

/// Every coefficient of a grid fits in eight bits more than a sample has.
pub proof fn dequantized_grids_fit(
    levels: Seq<i32>,
    w: int,
    h: int,
    bit_depth: int,
    q_idx: int,
    dc_delta: int,
    ac_delta: int,
)
    requires
        is_bit_depth(bit_depth),
    ensures
        ({
            let dq = spec_dequant_wh(levels, w, h, bit_depth, q_idx, dc_delta, ac_delta);
            let bound = bits::pow2((bit_depth + 7) as nat);
            &&& dq.len() == levels.len()
            &&& forall|i: int| 0 <= i < dq.len() ==> -bound <= #[trigger] dq[i] <= bound
        }),
{
    let dq = spec_dequant_wh(levels, w, h, bit_depth, q_idx, dc_delta, ac_delta);
    let bound = bits::pow2((bit_depth + 7) as nat);
    bits::lemma_pow2_monotonic((bit_depth + 7) as nat, 31);
    bits::lemma_pow2_values();
    assert forall|i: int| 0 <= i < dq.len() implies -bound <= #[trigger] dq[i] <= bound by {
        coefficients_fit(
            levels[i] as int,
            step_at(i, bit_depth, q_idx, dc_delta, ac_delta),
            spec_dq_denom(w, h),
            bit_depth,
        );
    }
}

/// Negating a level negates its coefficient, unless the coefficient is held
/// to the lower bound, which has no positive counterpart.
pub proof fn negating_a_level_negates_its_coefficient(level: int, q: int, denom: int, bit_depth: int)
    requires
        denom > 0,
        bit_depth >= 0,
        q >= 0,
        spec_dequant(level, q, denom, bit_depth) > -bits::pow2((bit_depth + 7) as nat),
        spec_dequant(-level, q, denom, bit_depth) > -bits::pow2((bit_depth + 7) as nat),
    ensures
        spec_dequant(-level, q, denom, bit_depth) == -spec_dequant(level, q, denom, bit_depth),
{
    bits::lemma_pow2_positive((bit_depth + 7) as nat);
    if level == 0 {
        zero_dequantizes_to_zero(q, denom, bit_depth);
    }
}

#[verifier::rlimit(60)]
proof fn lemma_dc8_grows(i: int)
    requires
        0 <= i < 255,
    ensures
        dc8(i) <= dc8(i + 1),
{
    reveal(dc8);
    assert(forall|k: int| 0 <= k < 255 ==> #[trigger] DC_Q8[k] <= DC_Q8[k + 1]);
}

#[verifier::rlimit(60)]
proof fn lemma_ac8_grows(i: int)
    requires
        0 <= i < 255,
    ensures
        ac8(i) < ac8(i + 1),
{
    reveal(ac8);
    assert(forall|k: int| 0 <= k < 255 ==> #[trigger] AC_Q8[k] < AC_Q8[k + 1]);
}

/// An index outside the tables reads the nearest entry.
pub proof fn indices_are_held_to_the_tables(bit_depth: int, i: int)
    ensures
        i <= 0 ==> spec_dc_q(bit_depth, i) == 4 && spec_ac_q(bit_depth, i) == 4,
        i >= 255 ==> spec_dc_q(bit_depth, i) == spec_dc_q(bit_depth, 255) && spec_ac_q(
            bit_depth,
            i,
        ) == spec_ac_q(bit_depth, 255),
{
    index_zero_steps_are_four(bit_depth);
    reveal(spec_dc_q);
    reveal(spec_ac_q);
}

/// Steps grow with the index: of 8-bit samples the DC's never falls, and every other one
/// grows with each index in 0..=255.
pub proof fn steps_grow_with_the_index(i: int, j: int)
    requires
        i <= j,
    ensures
        spec_dc_q(8, i) <= spec_dc_q(8, j),
        spec_ac_q(8, i) <= spec_ac_q(8, j),
        0 <= i < j <= 255 ==> spec_ac_q(8, i) < spec_ac_q(8, j),
    decreases j - i,
{
    reveal(spec_dc_q);
    reveal(spec_ac_q);
    if i < j {
        steps_grow_with_the_index(i, j - 1);
        if 0 <= j - 1 < 255 {
            lemma_dc8_grows(j - 1);
            lemma_ac8_grows(j - 1);
        }
    }
}

/// The largest steps of each bit depth.
pub proof fn the_largest_steps_are_known()
    ensures
        spec_dc_q(8, 255) == 1336 && spec_ac_q(8, 255) == 1828,
        spec_dc_q(10, 255) == 5347 && spec_ac_q(10, 255) == 7312,
        spec_dc_q(12, 255) == 21387 && spec_ac_q(12, 255) == 29247,
{
    reveal(spec_dc_q);
    reveal(spec_ac_q);
    assert(dc8(255) == 1336) by {
        reveal(dc8);
    }
    assert(dc10(255) == 5347) by {
        reveal(dc10);
    }
    assert(dc12(255) == 21387) by {
        reveal(dc12);
    }
    assert(ac8(255) == 1828) by {
        reveal(ac8);
    }
    assert(ac10(255) == 7312) by {
        reveal(ac10);
    }
    assert(ac12(255) == 29247) by {
        reveal(ac12);
    }
}

/// A coefficient is its level times the step, over the denominator of its size, rounded
/// toward zero and of the same sign; as long as the product has at most 24 bits and the
/// coefficient is within the range of its bit depth. The denominator is 1 up to 256
/// coefficients, 2 up to 1024 and 4 beyond.
pub proof fn coefficients_are_levels_times_steps(
    level: int,
    q: int,
    w: int,
    h: int,
    bit_depth: int,
)
    requires
        is_bit_depth(bit_depth),
        q > 0,
        0 <= level,
        level * q < 0x100_0000,
        level * q < bits::pow2((bit_depth + 7) as nat),
    ensures
        ({
            let d = spec_dq_denom(w, h);
            let c = spec_dequant(level, q, d, bit_depth);
            &&& w * h <= 256 ==> d == 1
            &&& 256 < w * h <= 1024 ==> d == 2
            &&& w * h > 1024 ==> d == 4
            &&& c >= 0
            &&& d * c <= level * q < d * c + d
            &&& spec_dequant(-level, q, d, bit_depth) == -c
        }),
{
    let d = spec_dq_denom(w, h);
    let x = level * q;
    assert(x >= 0) by (nonlinear_arith)
        requires
            q > 0,
            0 <= level,
            x == level * q,
    ;
    assert(x % 0x100_0000 == x);
    let c = x / d;
    assert(d == 1 || d == 2 || d == 4);
    assert(d * c <= x < d * c + d) by {
        if d == 1 {
            assert(1 * c == c);
        }
    }
    assert(0 <= c <= x);
    bits::lemma_pow2_positive((bit_depth + 7) as nat);
    assert(spec_dequant(level, q, d, bit_depth) == c);
    if level > 0 {
        assert(-(-level) == level);
        assert(spec_dequant(-level, q, d, bit_depth) == -c);
    }
}

/// In a grid the first coefficient has the DC's step and the rest have the other one,
/// each with its own delta; nothing else than its own level goes into a coefficient.
pub proof fn grids_take_their_own_steps(
    a: Seq<i32>,
    b: Seq<i32>,
    w: int,
    h: int,
    bit_depth: int,
    q_idx: int,
    deltas: (int, int),
    others: (int, int),
    i: int,
)
    requires
        0 <= i < a.len(),
        i < b.len(),
        a[i] == b[i],
        i == 0 ==> deltas.0 == others.0,
        i != 0 ==> deltas.1 == others.1,
    ensures
        spec_dequant_wh(a, w, h, bit_depth, q_idx, deltas.0, deltas.1)[i] == spec_dequant_wh(
            b,
            w,
            h,
            bit_depth,
            q_idx,
            others.0,
            others.1,
        )[i],
        i == 0 ==> spec_dequant_wh(a, w, h, bit_depth, q_idx, deltas.0, deltas.1)[i]
            == spec_dequant(
            a[i] as int,
            spec_dc_q(bit_depth, q_idx + deltas.0),
            spec_dq_denom(w, h),
            bit_depth,
        ) as i32,
        i != 0 ==> spec_dequant_wh(a, w, h, bit_depth, q_idx, deltas.0, deltas.1)[i]
            == spec_dequant(
            a[i] as int,
            spec_ac_q(bit_depth, q_idx + deltas.1),
            spec_dq_denom(w, h),
            bit_depth,
        ) as i32,
{
}

} // verus!
