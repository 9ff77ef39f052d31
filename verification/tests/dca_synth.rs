use harletty::dca::fixed::norm;
use harletty::dca::imdct::{imdct_half_32, imdct_half_64};
use harletty::dca::synth::{lfe_x96_fixed, ChannelSynth};

/// A linear congruential generator of 21-bit samples.
struct Noise(u32);

impl Noise {
    fn next(&mut self) -> i32 {
        self.0 = self.0.wrapping_mul(1103515245).wrapping_add(12345);
        ((self.0 >> 8) & 0x1f_ffff) as i32 - 0x10_0000
    }

    fn block(&mut self, n: usize) -> Vec<i32> {
        (0..n).map(|_| self.next()).collect()
    }
}

fn window_value(i: usize, scale: i32) -> i32 {
    ((i * 7919 % 4001) as i32 - 2000) * scale
}

/// The 96 kHz image-rejection filter doubles the rate of the low-frequency
/// channel to that of the oversampled channels.
#[test]
fn lfe_x96_doubles_and_carries_history() {
    let src = [1000i32, -2000, 3000];
    let mut hist = 0i32;
    let dst = lfe_x96_fixed(&src, &mut hist);
    assert_eq!(dst.len(), 6);
    assert_eq!(hist, 3000, "history must retain the last input sample");

    // First output pair only sees src[0] (history starts at zero).
    assert_eq!(dst[0], norm(2_097_471i64 * 1000, 23));
    assert_eq!(dst[1], norm(6_291_137i64 * 1000, 23));
    // Second pair mixes src[1] with the previous sample.
    assert_eq!(dst[2], norm(2_097_471i64 * -2000 + 6_291_137i64 * 1000, 23));
    assert_eq!(dst[3], norm(6_291_137i64 * -2000 + 2_097_471i64 * 1000, 23));
}

#[test]
fn half_transform_of_32_coefficients() {
    let expected: [i32; 32] = [
        1053228, 396020, 869224, 50176, -630624, 1058400, -1441560, -718288, -166328, 124252,
        -1669284, 1334424, -353232, -552888, -161120, -213552, -1012156, -2606404, 1133424,
        373480, -233024, -71392, 307736, 978192, -499808, 1693452, -100812, 1539328, 235768,
        -40632, -714824, -471904,
    ];
    assert_eq!(imdct_half_32(&Noise(12345).block(32)), expected);

    let mut impulse = vec![0i32; 32];
    impulse[3] = 1000;
    let expected: [i32; 32] = [
        287, 341, 352, 323, 256, 158, 43, -77, -189, -279, -335, -353, -330, -267, -175, -59,
        205, 93, -26, -143, -244, -316, -351, -345, -299, -217, -111, 9, 128, 231, 307, 349,
    ];
    assert_eq!(imdct_half_32(&impulse), expected);
    assert_eq!(imdct_half_32(&vec![0; 32]), vec![0; 32]);
}

#[test]
fn half_transform_of_64_coefficients() {
    let expected: [i32; 64] = [
        493364, 1322692, -299264, 612964, 324604, 755160, 420440, -228556, -1178424, 464316,
        944172, -284164, -372256, -518284, -1471884, -476244, 526132, -318784, 15500, -334780,
        -200272, -1892412, 464908, 1884264, -181852, -824792, -435216, -232184, 600428,
        -1416844, 468784, 315784, -81300, -1803124, -1499512, -911988, -1080964, 2007016,
        857384, -730964, 17160, -81132, 170604, -167052, -148792, 369892, 1167020, 618388,
        -1228684, 453520, 1187492, 783436, 382856, -476676, 1292668, 1037464, 521548, -552528,
        693720, -400816, -459204, -624220, -73248, -476872,
    ];
    assert_eq!(imdct_half_64(&Noise(12345).block(64)), expected);
}

#[test]
fn bank_of_32_bands_filters_with_its_history() {
    let mut window = [0i32; 512];
    for (i, w) in window.iter_mut().enumerate() {
        *w = window_value(i, 500);
    }
    let mut noise = Noise(12345);
    let mut bank = ChannelSynth::new();
    let mut last = Vec::new();
    for _ in 0..18 {
        last = bank.synth_filter(&window, &noise.block(32));
    }
    assert_eq!(
        last[..8],
        [-838728, 887204, -1384010, -786295, 220230, 63336, 30762, 729295]
    );
    assert_eq!(last.iter().sum::<i32>(), -5931200);
}

#[test]
fn bank_of_64_bands_filters_with_its_history() {
    let mut window = [0i32; 1024];
    for (i, w) in window.iter_mut().enumerate() {
        *w = window_value(i, 250);
    }
    let mut noise = Noise(12345);
    let mut bank = ChannelSynth::new();
    let mut last = Vec::new();
    for _ in 0..18 {
        let mut block = noise.block(32);
        block.resize(64, 0);
        last = bank.synth_filter_64(&window, &block);
    }
    assert_eq!(
        last[..8],
        [329126, 214438, -142427, 430899, -222901, 27481, 252174, 643551]
    );
    assert_eq!(last.iter().sum::<i32>(), 764830);
}
