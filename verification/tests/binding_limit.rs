use vello::bump::grow_within_binding_limit;

/// 128 MB, which is wgpu's default binding limit.
const LIMIT: u64 = 128 * 1024 * 1024;

#[test]
fn ordinary_growth_is_a_quarter_more() {
    assert_eq!(grow_within_binding_limit(1000, 800, 4, LIMIT, "ptcl"), 1250);
}

/// 48M u32 elements is 192 MB, more than the device binds.
#[test]
fn growth_stops_at_the_devices_binding_limit() {
    let needed = 48 * 1024 * 1024;
    let grown = grow_within_binding_limit(needed, 1 << 17, 4, LIMIT, "ptcl");
    assert!(
        u64::from(grown) * 4 <= LIMIT,
        "grew to {grown} elements, which is {} bytes against a {LIMIT} byte limit",
        u64::from(grown) * 4,
    );
    assert_eq!(grown, (LIMIT / 4) as u32, "should clamp to exactly the limit");
}

/// A 16 byte element hits the limit four times sooner than a `u32` does.
#[test]
fn the_ceiling_accounts_for_the_element_size() {
    let huge = u32::MAX / 8;
    let tiles = grow_within_binding_limit(huge, 1 << 15, 16, LIMIT, "tile");
    assert_eq!(tiles, (LIMIT / 16) as u32);
    assert!(u64::from(tiles) * 16 <= LIMIT);
}

/// Clamping never shrinks below what is already allocated.
#[test]
fn clamping_never_reduces_the_current_size() {
    let current = (LIMIT / 4) as u32;
    let grown = grow_within_binding_limit(u32::MAX, current, 4, LIMIT, "ptcl");
    assert!(grown >= current);
}

#[test]
fn clamping_keeps_a_current_size_above_the_ceiling() {
    let current = (LIMIT / 4) as u32 + 10;
    assert_eq!(grow_within_binding_limit(current + 100, current, 4, LIMIT, "ptcl"), current);
}

#[test]
fn a_zero_element_size_counts_as_one_byte() {
    assert_eq!(grow_within_binding_limit(1000, 10, 0, 1000, "x"), 1000);
    assert_eq!(grow_within_binding_limit(100, 10, 0, 1000, "x"), 125);
}

#[test]
fn growth_past_the_largest_count_stops_at_it() {
    // A quarter more than u32::MAX does not fit in a count, so the count is clamped.
    assert_eq!(grow_within_binding_limit(u32::MAX, 0, 1, u64::MAX, "x"), u32::MAX);
}

#[test]
fn growth_of_a_large_count_is_still_a_quarter_more() {
    assert_eq!(grow_within_binding_limit(1_000_000_000, 0, 1, u64::MAX, "x"), 1_250_000_000);
}

#[test]
fn a_huge_limit_does_not_wrap_the_ceiling() {
    assert_eq!(grow_within_binding_limit(1 << 28, 1, 1, u64::MAX, "x"), 335_544_320);
}

#[test]
fn growth_of_a_large_count_never_falls_below_the_current_size() {
    assert_eq!(
        grow_within_binding_limit(3_000_000_000, 2_000_000_000, 1, u64::MAX, "x"),
        3_750_000_000
    );
    let eight_gb: u64 = 8 * 1024 * 1024 * 1024;
    assert_eq!(
        grow_within_binding_limit(u32::MAX, 2_000_000_000, 4, eight_gb, "ptcl"),
        2_147_483_648
    );
}
