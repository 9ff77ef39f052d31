//! Constant tables of the core decoder.

use vstd::prelude::*;
use super::huffman::CoreVlcs;

verus! {

/// Constant tables of the core decoder.
#[derive(Clone, Debug)]
pub struct CoreTables {
    /// Predictor coefficients.
    pub adpcm: Vec<[i16; 4]>,
    /// Downmix gains.
    pub dmix: [u16; 242],
    /// Inverse downmix gains, from gain 41 on.
    pub inv_dmix: [i32; 201],
    /// Waveforms of the vector-coded bands.
    pub high_freq_vq: Vec<[i8; 32]>,
    pub joint_scale: Vec<i32>,
    pub lossless_quant: Vec<i32>,
    pub lossy_quant: Vec<i32>,
    /// Code books of each quantizer.
    pub quant_groups: [u8; 10],
    /// Width of each quantizer's book select.
    pub quant_sel_nbits: [u8; 10],
    pub quant_levels: Vec<i32>,
    pub scale_adj: [i32; 4],
    /// Scale factors of the six-bit code books.
    pub scale6: Vec<i32>,
    /// Scale factors of the seven-bit code book.
    pub scale7: Vec<i32>,
    pub vlcs: CoreVlcs,
}

/// Numbers of at most 23 bits and a sign that is never set.
pub open spec fn positive23(v: Seq<i32>) -> bool {
    forall|i: int| 0 <= i < v.len() ==> 0 <= #[trigger] v[i] <= 0x7f_ffff
}

impl CoreTables {
    pub open spec fn wf(&self) -> bool {
        &&& self.adpcm@.len() >= 4096
        &&& self.high_freq_vq@.len() >= 1024
        &&& positive23(self.joint_scale@)
        &&& self.lossless_quant@.len() >= 27 && positive23(self.lossless_quant@)
        &&& self.lossy_quant@.len() >= 27 && positive23(self.lossy_quant@)
        &&& forall|i: int| 0 <= i < 10 ==> 1 <= #[trigger] self.quant_sel_nbits@[i] <= 8
        &&& self.quant_levels@.len() >= 8
        &&& forall|i: int|
            0 <= i < 8 ==> 1 <= #[trigger] self.quant_levels@[i] <= 0x1_0000
        &&& positive23(self.scale_adj@)
        &&& positive23(self.scale6@)
        &&& positive23(self.scale7@)
        &&& self.vlcs.wf(self.quant_groups@)
        &&& forall|i: int| 0 <= i < 201 ==> 0 <= #[trigger] self.inv_dmix@[i]
    }

    /// Whether the tables are fit to decode with.
    pub fn is_valid(&self) -> (r: bool)
        ensures
            r == self.wf(),
    {
        if self.adpcm.len() < 4096 || self.high_freq_vq.len() < 1024 || self.lossless_quant.len()
            < 27 || self.lossy_quant.len() < 27 || self.quant_levels.len() < 8 {
            return false;
        }
        let mut i: usize = 0;
        while i < 10
            invariant
                i <= 10,
                forall|k: int| 0 <= k < i ==> 1 <= #[trigger] self.quant_sel_nbits@[k] <= 8,
            decreases 10 - i,
        {
            if self.quant_sel_nbits[i] < 1 || self.quant_sel_nbits[i] > 8 {
                assert(!(1 <= self.quant_sel_nbits@[i as int] <= 8));
                return false;
            }
            i = i + 1;
        }
        let mut j: usize = 0;
        while j < 8
            invariant
                j <= 8,
                self.quant_levels@.len() >= 8,
                forall|k: int| 0 <= k < j ==> 1 <= #[trigger] self.quant_levels@[k] <= 0x1_0000,
            decreases 8 - j,
        {
            if self.quant_levels[j] < 1 || self.quant_levels[j] > 0x1_0000 {
                assert(!(1 <= self.quant_levels@[j as int] <= 0x1_0000));
                return false;
            }
            j = j + 1;
        }
        all_positive23(self.joint_scale.as_slice()) && all_positive23(
            self.lossless_quant.as_slice(),
        ) && all_positive23(self.lossy_quant.as_slice()) && all_positive23(
            self.scale_adj.as_slice(),
        ) && all_positive23(self.scale6.as_slice()) && all_positive23(self.scale7.as_slice())
            && self.vlcs.is_valid(&self.quant_groups) && none_negative(&self.inv_dmix)
    }
}

fn all_positive23(v: &[i32]) -> (r: bool)
    ensures
        r == positive23(v@),
{
    let n: usize = v.len();
    let mut i: usize = 0;
    while i < n
        invariant
            i <= n,
            n == v@.len(),
            forall|k: int| 0 <= k < i ==> 0 <= #[trigger] v@[k] <= 0x7f_ffff,
        decreases n - i,
    {
        if v[i] < 0 || v[i] > 0x7f_ffff {
            assert(!(0 <= v@[i as int] <= 0x7f_ffff));
            return false;
        }
        i = i + 1;
    }
    true
}

/// Whether no gain of an inverse downmix table is negative.
pub fn none_negative(v: &[i32; 201]) -> (r: bool)
    ensures
        r == (forall|i: int| 0 <= i < 201 ==> 0 <= #[trigger] v@[i]),
{
    let mut i: usize = 0;
    while i < 201
        invariant
            i <= 201,
            forall|k: int| 0 <= k < i ==> 0 <= #[trigger] v@[k],
        decreases 201 - i,
    {
        if v[i] < 0 {
            assert(v@[i as int] < 0);
            return false;
        }
        i = i + 1;
    }
    true
}

} // verus!
