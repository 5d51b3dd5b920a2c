use qmenu::single::{divide, to_single};

fn samples() -> Vec<u64> {
    let mut v: Vec<u64> = (0..3000).collect();
    for shift in 10..57 {
        let p = 1u64 << shift;
        for d in [0u64, 1, 2, 3, 5, 7, 12345, 0x7fff, 0x155555] {
            v.push(p + d);
            v.push(p.saturating_sub(d));
            v.push(p + p / 3 + d);
        }
    }
    v
}

#[test]
fn whole_numbers_round_as_the_hardware_does() {
    for n in samples() {
        assert_eq!(to_single(n), n as f32 as u64, "{n}");
    }
}

#[test]
fn small_whole_numbers_are_kept() {
    for n in [0u64, 1, 1920, 0xff_ffff, 0x100_0000] {
        assert_eq!(to_single(n), n);
    }
    assert_eq!(to_single(0x100_0001), 0x100_0000);
    assert_eq!(to_single(0x100_0003), 0x100_0004);
}

#[test]
fn quotients_round_as_the_hardware_does() {
    for a in [1u64, 2, 3, 7, 16, 20, 24, 32, 48, 64, 100, 255, 512, 1000, 32767, 32768, 16777215] {
        for b in samples() {
            let b = to_single(b);
            if b == 0 || b > 0x2_0000_0000 {
                continue;
            }
            let (q, s) = divide(a, b);
            let hardware = a as f32 / b as f32;
            assert_eq!(q as f64 / s as f64, hardware as f64, "{a} / {b}");
        }
    }
}
