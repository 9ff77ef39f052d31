//! Prefix codes of the JOC payload, as binary trees: a positive entry is the
//! next node, any other entry `e` is the leaf that carries the symbol `!e`.

use vstd::prelude::*;

verus! {

pub const JOC_HUFF_CODE_COARSE_GENERIC: [[i16; 2]; 95] = [
    [-1, 1], [2, -2], [-96, 3], [4, -3], [-95, 5], [6, 7], [-4, -94], [8, 9], [-5, -93],
    [10, 11], [-6, -92], [12, 13], [-7, -91], [14, 15], [16, -90], [-8, 17], [18, -89],
    [-9, 19], [20, 21], [-88, -10], [22, 23], [-11, -87], [24, 25], [26, -86], [-12, 27],
    [28, -85], [-13, 29], [30, 31], [32, -84], [-14, 33], [34, -15], [-83, 35], [36, 37],
    [-16, 38], [-17, -82], [39, 40], [41, -81], [42, 43], [44, 45], [46, 47], [48, 49],
    [50, 51], [52, -18], [-78, 53], [-19, 54], [55, 56], [57, 58], [-22, 59], [60, 61],
    [62, 63], [64, 65], [66, 67], [68, -20], [-21, -79], [-80, -25], [69, 70], [-26, 71],
    [72, 73], [74, 75], [76, 77], [78, 79], [80, 81], [82, 83], [84, 85], [86, 87], [88, 89],
    [90, 91], [92, 93], [94, -23], [-74, -75], [-72, -73], [-76, -77], [-34, -35], [-32, -33],
    [-38, -39], [-36, -37], [-30, -31], [-28, -29], [-50, -51], [-48, -49], [-54, -55],
    [-52, -53], [-42, -43], [-40, -41], [-46, -47], [-44, -45], [-66, -67], [-64, -65],
    [-70, -71], [-68, -69], [-58, -59], [-56, -57], [-62, -63], [-60, -61], [-24, -27],
];

pub const JOC_HUFF_CODE_FINE_GENERIC: [[i16; 2]; 191] = [
    [-1, 1], [2, 3], [-2, -192], [4, 5], [6, -3], [-191, 7], [8, 9], [-4, -190], [10, 11],
    [-5, -189], [12, 13], [-6, 14], [-188, 15], [16, -7], [-187, 17], [18, -8], [-186, 19],
    [20, -9], [-185, 21], [22, -10], [-184, 23], [24, -11], [25, -183], [26, 27], [-12, -182],
    [28, 29], [-13, -181], [30, 31], [-180, -14], [32, 33], [34, -179], [-15, 35], [36, -178],
    [-16, 37], [38, -177], [39, -17], [40, 41], [-176, 42], [-18, 43], [-19, 44], [-175, 45],
    [46, -174], [-20, 47], [-173, 48], [49, -21], [50, 51], [52, -22], [53, 54], [-172, 55],
    [-171, -23], [56, 57], [58, -170], [59, -24], [-25, 60], [-169, 61], [62, 63], [64, 65],
    [66, 67], [-168, 68], [-26, 69], [-167, -27], [70, -166], [-165, 71], [-29, 72], [73, 74],
    [-30, 75], [76, 77], [78, 79], [80, -28], [81, 82], [83, -163], [-31, -33], [-164, -161],
    [84, 85], [86, 87], [88, 89], [90, 91], [92, 93], [94, 95], [96, 97], [98, 99], [-32, -162],
    [100, 101], [102, 103], [104, 105], [106, 107], [108, 109], [110, 111], [-160, 112],
    [-36, -38], [113, 114], [115, 116], [117, 118], [119, 120], [121, 122], [123, 124],
    [125, 126], [127, 128], [129, 130], [131, 132], [133, -35], [-158, 134], [-155, -156],
    [-37, -42], [135, 136], [137, 138], [139, 140], [141, 142], [143, 144], [145, 146],
    [147, 148], [149, 150], [151, 152], [153, 154], [155, 156], [157, 158], [159, 160],
    [161, 162], [163, 164], [165, 166], [167, 168], [169, 170], [171, 172], [173, 174],
    [175, 176], [177, 178], [179, 180], [181, 182], [183, 184], [-157, 185], [-45, -48],
    [186, 187], [188, 189], [-34, -41], [190, -39], [-60, -61], [-58, -59], [-64, -65],
    [-62, -63], [-52, -53], [-50, -51], [-56, -57], [-54, -55], [-76, -77], [-74, -75],
    [-80, -81], [-78, -79], [-68, -69], [-66, -67], [-72, -73], [-70, -71], [-47, -49],
    [-44, -46], [-124, -125], [-122, -123], [-128, -129], [-126, -127], [-116, -117],
    [-114, -115], [-120, -121], [-118, -119], [-140, -141], [-138, -139], [-144, -145],
    [-142, -143], [-132, -133], [-130, -131], [-136, -137], [-134, -135], [-92, -93],
    [-90, -91], [-96, -97], [-94, -95], [-84, -85], [-82, -83], [-88, -89], [-86, -87],
    [-108, -109], [-106, -107], [-112, -113], [-110, -111], [-100, -101], [-98, -99],
    [-104, -105], [-102, -103], [-154, -159], [-148, -149], [-146, -147], [-152, -153],
    [-150, -151], [-40, -43],
];

pub const JOC_HUFF_CODE_COARSE_COEFF_SPARSE: [[i16; 2]; 95] = [
    [-1, 1], [2, 3], [-2, -96], [4, 5], [6, -95], [-3, 7], [8, 9], [-4, 10], [-94, 11],
    [12, -5], [-93, 13], [14, 15], [-6, -92], [16, 17], [18, -7], [-91, 19], [20, -8],
    [-90, 21], [22, 23], [-9, -89], [24, 25], [26, -10], [-88, 27], [28, 29], [30, -11],
    [-87, 31], [32, 33], [34, 35], [-12, -86], [36, 37], [38, -13], [39, -85], [40, 41],
    [42, 43], [-14, -84], [44, 45], [46, 47], [-83, -15], [48, 49], [50, -16], [51, 52],
    [-82, 53], [54, -81], [55, 56], [-17, 57], [58, -80], [59, 60], [-18, 61], [62, 63],
    [-79, 64], [-19, -78], [65, 66], [67, 68], [69, -20], [-77, -21], [70, 71], [72, 73],
    [74, -76], [75, -22], [76, 77], [-75, 78], [79, 80], [-54, -74], [-73, 81], [-23, 82],
    [-50, -24], [-55, -25], [83, -47], [-49, -44], [-71, 84], [-48, -51], [85, -72], [-26, -53],
    [-70, -27], [86, -45], [87, 88], [-68, 89], [-29, -43], [90, -30], [-46, -69], [91, -28],
    [-52, -31], [92, -32], [93, -64], [-67, 94], [-36, -33], [-63, -37], [-65, -61], [-66, -59],
    [-34, -38], [-41, -42], [-35, -60], [-39, -57], [-56, -40], [-62, -58],
];

pub const JOC_HUFF_CODE_FINE_COEFF_SPARSE: [[i16; 2]; 191] = [
    [1, -1], [2, 3], [4, -2], [-192, 5], [6, 7], [8, -3], [-191, 9], [10, 11], [12, -190],
    [-4, 13], [14, 15], [-189, -5], [16, 17], [18, -6], [-188, 19], [20, 21], [-7, -187],
    [22, 23], [-8, 24], [-186, 25], [-9, 26], [27, -185], [28, -10], [29, 30], [-184, 31],
    [-11, 32], [33, -183], [34, -12], [35, -182], [36, 37], [38, -13], [-181, 39], [40, -14],
    [41, -180], [42, 43], [-179, -15], [44, -16], [45, -178], [46, 47], [48, 49], [50, -177],
    [-17, 51], [-18, 52], [-176, 53], [54, 55], [-175, -19], [56, 57], [58, -20], [59, -174],
    [60, 61], [-21, 62], [63, -173], [64, 65], [66, -172], [67, 68], [-22, 69], [70, 71],
    [-23, 72], [-171, 73], [74, 75], [76, -24], [77, -170], [-25, 78], [79, 80], [81, -169],
    [82, 83], [84, -26], [85, -168], [86, 87], [88, 89], [-167, 90], [-27, 91], [92, -28],
    [93, -166], [94, -29], [95, 96], [97, 98], [-165, 99], [100, -30], [-164, 101], [102, 103],
    [104, 105], [-163, 106], [-31, 107], [-32, 108], [109, 110], [-161, 111], [-160, -162],
    [112, -34], [-33, 113], [114, 115], [116, 117], [118, 119], [120, -159], [121, 122],
    [123, -158], [124, 125], [-36, -155], [126, 127], [-35, 128], [129, 130], [-157, 131],
    [-156, 132], [-37, 133], [134, 135], [-154, -38], [136, 137], [-39, -41], [138, -153],
    [139, -40], [-149, 140], [141, 142], [143, 144], [-151, 145], [146, 147], [148, -42],
    [-43, 149], [150, 151], [-152, 152], [-46, -98], [153, 154], [155, -147], [156, 157],
    [158, -107], [159, 160], [-145, -150], [-96, 161], [162, -45], [-146, 163], [164, -97],
    [-108, -105], [-148, -106], [-44, 165], [-94, -141], [-99, 166], [-89, 167], [-50, -95],
    [-100, -48], [-144, 168], [169, 170], [-51, -142], [-90, -91], [-47, -49], [171, -53],
    [-93, -143], [-137, -138], [-55, -101], [172, 173], [-54, -86], [-88, -87], [-103, 174],
    [175, -61], [-109, 176], [177, 178], [-52, -139], [-57, -140], [179, 180], [-56, -136],
    [-58, -102], [181, 182], [-60, -135], [183, -104], [-128, -134], [-92, 184], [-59, -62],
    [185, 186], [-71, -133], [187, -127], [-126, 188], [-63, -64], [-85, -132], [189, -66],
    [-121, -125], [190, -68], [-74, -75], [-70, -73], [-81, -65], [-118, -131], [-72, -110],
    [-119, -120], [-76, -84], [-122, -130], [-83, -117], [-69, -78], [-80, -82], [-123, -124],
    [-67, -116], [-129, -77], [-113, -114], [-112, -115], [-79, -111],
];

pub const JOC_HUFF_CODE_5CH_POS_INDEX_SPARSE: [[i16; 2]; 4] = [
    [-1, 1], [2, 3], [-4, -3], [-2, -5],
];

pub const JOC_HUFF_CODE_7CH_POS_INDEX_SPARSE: [[i16; 2]; 6] = [
    [-1, 1], [2, 3], [4, 5], [-4, -3], [-2, -5], [-6, -7],
];

/// Which of the payload's codes a symbol is written in.
#[derive(Clone, Copy)]
pub enum HuffmanType {
    Matrix,
    Vector,
    Index,
}

/// The prefix code for `kind` under quantiser (or channel count) `mode`.
#[verifier::opaque]
pub open spec fn table_of(mode: int, kind: HuffmanType) -> Seq<[i16; 2]> {
    match kind {
        HuffmanType::Matrix => if mode == 1 {
            JOC_HUFF_CODE_FINE_GENERIC@
        } else {
            JOC_HUFF_CODE_COARSE_GENERIC@
        },
        HuffmanType::Vector => if mode == 1 {
            JOC_HUFF_CODE_FINE_COEFF_SPARSE@
        } else {
            JOC_HUFF_CODE_COARSE_COEFF_SPARSE@
        },
        HuffmanType::Index => if mode == 7 {
            JOC_HUFF_CODE_7CH_POS_INDEX_SPARSE@
        } else {
            JOC_HUFF_CODE_5CH_POS_INDEX_SPARSE@
        },
    }
}

pub fn huffman_table(mode: usize, kind: HuffmanType) -> (r: &'static [[i16; 2]])
    ensures
        r@ == table_of(mode as int, kind),
{
    proof {
        reveal(table_of);
    }
    match kind {
        HuffmanType::Matrix => if mode == 1 {
            &JOC_HUFF_CODE_FINE_GENERIC
        } else {
            &JOC_HUFF_CODE_COARSE_GENERIC
        },
        HuffmanType::Vector => if mode == 1 {
            &JOC_HUFF_CODE_FINE_COEFF_SPARSE
        } else {
            &JOC_HUFF_CODE_COARSE_COEFF_SPARSE
        },
        HuffmanType::Index => if mode == 7 {
            &JOC_HUFF_CODE_7CH_POS_INDEX_SPARSE
        } else {
            &JOC_HUFF_CODE_5CH_POS_INDEX_SPARSE
        },
    }
}

} // verus!
