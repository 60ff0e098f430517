use wotwot::numfmt::fmt_num;
use wotwot::text::truncate;

fn float_reference(n: u64) -> String {
    if n >= 1_000_000 {
        format!("{:.1}M", n as f64 / 1_000_000.0)
    } else if n >= 1_000 {
        format!("{:.1}k", n as f64 / 1_000.0)
    } else {
        n.to_string()
    }
}

#[test]
fn fmt_num_small_counts_are_written_in_full() {
    assert_eq!(fmt_num(0), "0");
    assert_eq!(fmt_num(7), "7");
    assert_eq!(fmt_num(999), "999");
}

#[test]
fn fmt_num_thousands_and_millions() {
    assert_eq!(fmt_num(1_000), "1.0k");
    assert_eq!(fmt_num(1_234), "1.2k");
    assert_eq!(fmt_num(15_260), "15.3k");
    assert_eq!(fmt_num(999_999), "1000.0k");
    assert_eq!(fmt_num(1_000_000), "1.0M");
    assert_eq!(fmt_num(2_345_678), "2.3M");
}

#[test]
fn fmt_num_matches_float_formatting_on_every_count_below_300k() {
    for n in 0..300_000u64 {
        assert_eq!(fmt_num(n), float_reference(n), "n = {}", n);
    }
}

#[test]
fn fmt_num_matches_float_formatting_on_halfway_counts() {
    let mut n: u64 = 1_050;
    while n < 50_000_000 {
        assert_eq!(fmt_num(n), float_reference(n), "n = {}", n);
        n += 100;
    }
    let mut m: u64 = 1_050_000;
    while m < 2_000_000_000 {
        assert_eq!(fmt_num(m), float_reference(m), "n = {}", m);
        m += 100_000;
    }
}

#[test]
fn fmt_num_matches_float_formatting_on_large_counts() {
    let mut n: u64 = 1;
    let mut k = 0u64;
    while k < 200_000 {
        n = n.wrapping_mul(6364136223846793005).wrapping_add(1442695040888963407);
        let shift = (k % 64) as u32;
        let v = n >> shift;
        assert_eq!(fmt_num(v), float_reference(v), "n = {}", v);
        k += 1;
    }
    for v in [
        u64::MAX,
        u64::MAX - 1,
        1u64 << 53,
        (1u64 << 53) + 1,
        (1u64 << 53) - 1,
        (1u64 << 63) + 123_456_789,
        9_007_199_254_740_993,
        18_014_398_509_481_985,
    ] {
        assert_eq!(fmt_num(v), float_reference(v), "n = {}", v);
    }
}

#[test]
fn truncate_keeps_short_text_and_marks_cuts() {
    assert_eq!(truncate("redis", 38), "redis");
    assert_eq!(truncate("abcdef", 6), "abcdef");
    assert_eq!(truncate("abcdefg", 6), "abcde…");
    assert_eq!(truncate("héllo wörld", 5), "héll…");
    assert_eq!(truncate("abc", 0), "…");
    assert_eq!(truncate("", 0), "");
}
