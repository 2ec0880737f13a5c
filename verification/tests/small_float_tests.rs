use offset_allocator::allocator::Allocator;
use offset_allocator::ext::min_allocator_size;
use offset_allocator::small_float::{
    float_to_uint, uint_to_float_round_down, uint_to_float_round_up, SmallFloat,
};

#[test]
fn denormal_values_are_exact() {
    for x in 0..8u32 {
        assert_eq!(uint_to_float_round_up(x), x);
        assert_eq!(uint_to_float_round_down(x), x);
        assert_eq!(float_to_uint(x), x);
    }
}

#[test]
fn rounding_between_floats() {
    // 17 lies between the floats 16 (bin 16) and 18 (bin 17).
    assert_eq!(uint_to_float_round_up(17), 17);
    assert_eq!(uint_to_float_round_down(17), 16);
    assert_eq!(float_to_uint(16), 16);
    assert_eq!(float_to_uint(17), 18);
    assert_eq!(uint_to_float_round_up(8), 8);
    assert_eq!(uint_to_float_round_down(8), 8);
    assert_eq!(uint_to_float_round_up(1000), 64);
    assert_eq!(uint_to_float_round_down(1000), 63);
    assert_eq!(float_to_uint(63), 960);
    assert_eq!(float_to_uint(64), 1024);
}

#[test]
fn extreme_values() {
    assert_eq!(uint_to_float_round_up(u32::MAX), 240);
    assert_eq!(uint_to_float_round_down(u32::MAX), 239);
    assert_eq!(float_to_uint(239), 0xF000_0000);
    // The value of float 240 is 2^32, which wraps to 0.
    assert_eq!(float_to_uint(240), 0);
    assert_eq!(uint_to_float_round_up(0xF000_0000), 239);
    assert_eq!(uint_to_float_round_up(0xF000_0001), 240);
}

#[test]
fn rounding_brackets_every_value() {
    let mut x: u32 = 1;
    while x < 0xF000_0000 {
        let up = uint_to_float_round_up(x);
        let down = uint_to_float_round_down(x);
        assert!(float_to_uint(down) <= x);
        assert!(x < float_to_uint(down + 1) || down + 1 == 240);
        assert!(float_to_uint(up) >= x);
        assert!(up == 0 || float_to_uint(up - 1) < x);
        x = x + x / 7 + 1;
    }
}

#[test]
fn floats_round_trip() {
    for f in 0..240u32 {
        let v = float_to_uint(f);
        assert_eq!(uint_to_float_round_up(v), f);
        assert_eq!(uint_to_float_round_down(v), f);
    }
}

#[test]
fn small_float_methods() {
    let up = SmallFloat::from_u32_round_up(17);
    let down = SmallFloat::from_u32_round_down(17);
    assert_eq!(up.0, 17);
    assert_eq!(down.0, 16);
    assert_eq!(up.to_u32(), 18);
    assert_eq!(down.to_u32(), 16);
    assert_eq!(up.reinterpret_as_u32(), 17);
    assert_eq!(SmallFloat::reinterpret_u32(63).to_u32(), 960);
}

#[test]
fn min_allocator_size_rounds_up() {
    assert_eq!(min_allocator_size(0), 0);
    assert_eq!(min_allocator_size(8), 8);
    assert_eq!(min_allocator_size(17), 18);
    assert_eq!(min_allocator_size(1000), 1024);
    assert_eq!(min_allocator_size(1024), 1024);
    assert_eq!(min_allocator_size(0xF000_0000), 0xF000_0000);
    assert_eq!(min_allocator_size(u32::MAX), 0);
}

#[test]
fn min_allocator_size_is_least_size_that_serves() {
    for needed in [1u32, 9, 17, 100, 1000, 4097] {
        let size = min_allocator_size(needed);
        let mut fits: Allocator = Allocator::with_max_allocs(size, 2);
        assert!(fits.allocate(needed).is_some());
        let mut short: Allocator = Allocator::with_max_allocs(size - 1, 2);
        assert!(short.allocate(needed).is_none());
    }
}
