//! Patterns held against the numbers that they stand for.
use steroidsoundboard::adding;
use steroidsoundboard::delay::DelayLine;
use steroidsoundboard::nodes::{end_of_part, new_buf, raised, AtomicF32, NodeKind, MAX_BLOCK};
use steroidsoundboard::sample;
use steroidsoundboard::table::Table;
use steroidsoundboard::text;

const NUMBERS: [f32; 22] = [
    0.0, -0.0, 1.0, -1.0, 0.5, -0.5, 0.49999997, 1.5, 2.5, -2.5, 0.707, 12000.0, 8388607.5, 8388609.0, 16777216.0,
    1e-40, -1e-40, 3.0e38, f32::MAX, f32::INFINITY, f32::NEG_INFINITY, f32::NAN,
];

#[test]
fn patterns_compare_as_numbers() {
    for a in NUMBERS {
        assert_eq!(sample::is_finite(a.to_bits()), a.is_finite(), "{a}");
        for b in NUMBERS {
            assert_eq!(sample::less(a.to_bits(), b.to_bits()), a < b, "{a} {b}");
        }
    }
    assert_eq!(sample::ONE, 1f32.to_bits());
    assert_eq!(sample::MINUS_ONE, (-1f32).to_bits());
    assert_eq!(sample::ZERO, 0f32.to_bits());
}

fn check_sum(a: f32, b: f32) {
    let sum = a + b;
    let r = adding::plus(a.to_bits(), b.to_bits());
    if sum.is_nan() {
        assert!(f32::from_bits(r).is_nan(), "{a} {b}");
    } else {
        assert_eq!(r, sum.to_bits(), "{a} {b}");
    }
}

#[test]
fn patterns_add_as_numbers() {
    for a in NUMBERS {
        for b in NUMBERS {
            check_sum(a, b);
            check_sum(a, -b);
        }
    }
    assert_eq!(adding::plus(0.25f32.to_bits(), 0.5f32.to_bits()), 0.75f32.to_bits());
    // Halves go to the even neighbour, and what is too large is infinite.
    assert_eq!(adding::plus(16777216f32.to_bits(), 1f32.to_bits()), 16777216f32.to_bits());
    assert_eq!(adding::plus(16777218f32.to_bits(), 1f32.to_bits()), 16777220f32.to_bits());
    assert_eq!(adding::plus(f32::MAX.to_bits(), f32::MAX.to_bits()), f32::INFINITY.to_bits());
}

#[test]
fn small_patterns_are_flushed() {
    assert_eq!(adding::flush_small(1e-40f32.to_bits()), 0);
    assert_eq!(adding::flush_small((-1e-40f32).to_bits()), (-0f32).to_bits());
    assert_eq!(adding::flush_small(f32::MIN_POSITIVE.to_bits()), f32::MIN_POSITIVE.to_bits());
    let (a, b) = (1.5 * f32::MIN_POSITIVE, -f32::MIN_POSITIVE);
    assert_eq!(adding::plus_as(false, a.to_bits(), b.to_bits()), (a + b).to_bits());
    assert_eq!(adding::plus_as(true, a.to_bits(), b.to_bits()), 0);
    assert_eq!(adding::plus_as(true, 1f32.to_bits(), 1e-40f32.to_bits()), 1f32.to_bits());
}

#[test]
fn arbitrary_patterns_add_as_numbers() {
    let mut x = 0x9e37_79b9u32;
    let mut last = 0u32;
    for _ in 0..200_000 {
        x ^= x << 13;
        x ^= x >> 17;
        x ^= x << 5;
        let (a, b) = (f32::from_bits(x), f32::from_bits(last));
        check_sum(a, b);
        // Neighbours, and numbers of about the same size.
        check_sum(a, f32::from_bits(x ^ 0x8000_0001));
        check_sum(a, f32::from_bits((x & 0xff80_0000) ^ 0x8000_0000 ^ (last & 0x007f_ffff)));
        check_sum(a, f32::from_bits((x & 0x7f80_0000).wrapping_sub(0x0b80_0000) ^ (last & 0x807f_ffff)));
        last = x;
    }
}

#[test]
fn patterns_round_as_numbers() {
    for a in NUMBERS {
        if !a.is_nan() {
            assert_eq!(sample::round(a.to_bits()), a.round().to_bits(), "{a}");
        }
    }
    for k in 0..4000 {
        let v = (k as f32 - 2000.0) * 0.0371;
        assert_eq!(sample::round(v.to_bits()), v.round().to_bits(), "{v}");
    }
}

#[test]
fn patterns_clamp_and_peak_as_numbers() {
    for a in NUMBERS {
        if !a.is_nan() {
            let c = a.clamp(-2.0, 100.0);
            assert_eq!(sample::clamp(a.to_bits(), (-2f32).to_bits(), 100f32.to_bits()), c.to_bits(), "{a}");
        }
        let mut l = a;
        if !l.is_finite() {
            l = 0.0;
        }
        assert_eq!(sample::limit(a.to_bits()), l.clamp(-1.0, 1.0).to_bits(), "{a}");
        assert_eq!(sample::clean(a.to_bits()), if a.is_finite() { a.to_bits() } else { 0 }, "{a}");
        for pk in [0f32, 0.5, 3.0] {
            assert_eq!(sample::louder(pk.to_bits(), a.to_bits()), pk.max(a.abs()).to_bits(), "{a}");
        }
    }
}

#[test]
fn parameters_are_those_of_the_nodes() {
    let table: Vec<(NodeKind, &str, f32, f32, f32, &str, bool)> = vec![
        (NodeKind::Gain, "gain", -60.0, 24.0, 0.0, "dB", false),
        (NodeKind::Filter, "mode", 0.0, 3.0, 0.0, "", false),
        (NodeKind::Filter, "freq", 20.0, 20000.0, 1000.0, "Hz", true),
        (NodeKind::Filter, "q", 0.1, 18.0, 0.707, "", true),
        (NodeKind::Filter, "gain", -24.0, 24.0, 0.0, "dB", false),
        (NodeKind::Drive, "drive", 0.0, 40.0, 12.0, "dB", false),
        (NodeKind::Drive, "tone", 500.0, 12000.0, 4000.0, "Hz", true),
        (NodeKind::Drive, "level", -40.0, 6.0, -6.0, "dB", false),
        (NodeKind::Drive, "mix", 0.0, 1.0, 1.0, "", false),
        (NodeKind::Delay, "time", 1.0, 2000.0, 350.0, "ms", true),
        (NodeKind::Delay, "feedback", 0.0, 0.95, 0.35, "", false),
        (NodeKind::Delay, "tone", 500.0, 16000.0, 6000.0, "Hz", true),
        (NodeKind::Delay, "mix", 0.0, 1.0, 0.3, "", false),
        (NodeKind::Tremolo, "rate", 0.1, 20.0, 5.0, "Hz", true),
        (NodeKind::Tremolo, "depth", 0.0, 1.0, 0.5, "", false),
    ];
    let mut k = 0;
    for kind in NodeKind::all() {
        for p in kind.info().params {
            let (of, id, min, max, default, unit, log) = table[k];
            assert_eq!((kind, p.id, p.unit, p.log), (of, id, unit, log));
            assert_eq!(
                (p.min, p.max, p.default),
                (min.to_bits(), max.to_bits(), default.to_bits()),
                "{id}"
            );
            k += 1;
        }
    }
    assert_eq!(k, table.len());
    assert_eq!(NodeKind::Filter.info().name, "Filter / EQ");
    assert_eq!(NodeKind::Tremolo.info().category, "Modulation");
    assert_eq!(NodeKind::Filter.params()[0].options, vec!["Low-pass", "High-pass", "Band-pass", "Peak"]);
}

#[test]
fn settings_stay_in_range() {
    for kind in NodeKind::all() {
        for p in kind.params() {
            for a in NUMBERS {
                let v = f32::from_bits(p.clamp(a.to_bits()));
                let (min, max) = (f32::from_bits(p.min), f32::from_bits(p.max));
                let expected = if !a.is_finite() {
                    f32::from_bits(p.default)
                } else if p.options.is_empty() {
                    a.clamp(min, max)
                } else {
                    a.clamp(min, max).round()
                };
                assert_eq!(v.to_bits(), expected.to_bits(), "{} {a}", p.id);
                assert!(v >= min && v <= max);
                assert_eq!(p.clamp(v.to_bits()), v.to_bits());
            }
        }
    }
}

#[test]
fn cell_keeps_the_largest_until_it_is_read() {
    let c = AtomicF32::new(0.25f32.to_bits());
    assert_eq!(c.get(), 0.25f32.to_bits());
    c.max(0.125f32.to_bits());
    assert_eq!(c.get(), 0.25f32.to_bits());
    c.max(f32::NAN.to_bits());
    assert_eq!(c.get(), 0.25f32.to_bits());
    c.max(0.75f32.to_bits());
    assert_eq!(c.take(), 0.75f32.to_bits());
    assert_eq!(c.get(), 0);
    c.set(3f32.to_bits());
    assert_eq!(c.get(), 3f32.to_bits());
    assert_eq!(raised(3f32.to_bits(), 4f32.to_bits()), Some(4f32.to_bits()));
    assert_eq!(raised(4f32.to_bits(), 4f32.to_bits()), None);
    assert_eq!(AtomicF32::default().get(), 0);
}

#[test]
fn new_buffer_is_silent() {
    let b = new_buf();
    assert_eq!(b[0], vec![0u32; MAX_BLOCK]);
    assert_eq!(b[1], vec![0u32; MAX_BLOCK]);
    assert_eq!(end_of_part(0, 40, 32), 32);
    assert_eq!(end_of_part(32, 40, 32), 40);
}

#[test]
fn delay_line_gives_back_the_past() {
    let mut d = DelayLine::new(5);
    for k in 1..=7u32 {
        d.push(k, 100 + k);
    }
    assert_eq!(d.len(), 5);
    assert_eq!(d.position(), 2);
    // Three frames ago.
    let (r0, r1) = d.around(2 + 5 - 3);
    assert_eq!((r0, r1), (4, 0));
    assert_eq!((d.get(0, r0), d.get(1, r0)), (5, 105));
    assert_eq!((d.get(0, r1), d.get(1, r1)), (6, 106));
}

#[test]
fn table_is_a_map() {
    let mut t: Table<u32> = Table::new();
    t.insert("a".to_string(), 1);
    t.insert("b".to_string(), 2);
    t.insert("a".to_string(), 3);
    assert_eq!(t.get("a"), Some(&3));
    assert_eq!(t.entries().len(), 2);
    *t.get_mut("b").unwrap() += 5;
    assert_eq!(t.copy().get("b"), Some(&7));
    assert!(t.contains("b"));
    t.remove("b");
    assert!(!t.contains("b"));
    assert_eq!(t.get("c"), None);
}

#[test]
fn texts_are_read_and_written() {
    assert_eq!(text::numbered("n", 0), "n0");
    assert_eq!(text::numbered("n", 4294967295), "n4294967295");
    for (s, p) in [
        ("8420", Some(8420)),
        ("+80", Some(80)),
        ("00080", Some(80)),
        ("65535", Some(65535)),
        ("65536", None),
        ("99999999999", None),
        ("", None),
        ("+", None),
        ("-1", None),
        ("8 0", None),
        (" 80", None),
    ] {
        assert_eq!(text::parse_port(s), p, "{s}");
        assert_eq!(text::parse_port(s), s.parse::<u16>().ok(), "{s}");
    }
    assert!(text::equal_ignoring_case("ALSA", "alsa"));
    assert!(!text::equal_ignoring_case("ALSA", "alsä"));
    assert!(!text::equal_ignoring_case("Ä", "ä"));
    assert_eq!(text::trim_slashes("//a/b"), "a/b");
    assert_eq!(text::trim_slashes("/"), "");
}
